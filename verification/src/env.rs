//! Lexically nested environments.
//!
//! All frames of one fiber live in a single arena and name each other by
//! index: a child frame records the index of its parent, and a lambda
//! captures the index of the frame it was created in. Sharing an index is
//! sharing the frame, so lambdas observe each other's mutations, and frame
//! identity is index equality.
use vstd::prelude::*;

verus! {

use crate::error::{Error, ErrorV};
use crate::types::{Extern, SymbolId, Val, ValV, val_view};

/// One binding of a name to a value.
#[derive(Debug, PartialEq)]
pub struct Binding<E> {
    pub name: SymbolId,
    pub val: Val<E>,
}

/// The mathematical model of a [`Binding`].
#[verifier::ext_equal]
pub struct BindingV<E> {
    pub name: Seq<char>,
    pub val: ValV<E>,
}

impl<E> View for Binding<E> {
    type V = BindingV<E>;

    open spec fn view(&self) -> BindingV<E> {
        BindingV { name: self.name@, val: val_view(self.val) }
    }
}

/// One frame: bindings plus an optional parent frame.
#[derive(Debug, PartialEq)]
pub struct EnvFrame<E> {
    pub parent: Option<usize>,
    pub binds: Vec<Binding<E>>,
}

/// The mathematical model of an [`EnvFrame`].
#[verifier::ext_equal]
pub struct FrameV<E> {
    pub parent: Option<int>,
    pub binds: Seq<BindingV<E>>,
}

impl<E> View for EnvFrame<E> {
    type V = FrameV<E>;

    open spec fn view(&self) -> FrameV<E> {
        FrameV {
            parent: match self.parent {
                Some(p) => Some(p as int),
                None => None,
            },
            binds: self.binds@.map_values(|b: Binding<E>| b@),
        }
    }
}

/// The arena of every frame a fiber has created.
#[derive(Debug, PartialEq)]
pub struct Env<E> {
    pub frames: Vec<EnvFrame<E>>,
}

impl<E> View for Env<E> {
    type V = Seq<FrameV<E>>;

    open spec fn view(&self) -> Seq<FrameV<E>> {
        self.frames@.map_values(|f: EnvFrame<E>| f@)
    }
}

/// Every parent index points at an earlier frame, so parent chains end.
pub open spec fn env_wf<E>(frames: Seq<FrameV<E>>) -> bool {
    forall|i: int|
        0 <= i < frames.len() ==> ((#[trigger] frames[i].parent) is Some ==> 0 <= frames[i].parent->0
            < i)
}

/// The first binding of the given name in a frame, if any.
pub open spec fn find_name<E>(binds: Seq<BindingV<E>>, n: Seq<char>) -> Option<int>
    decreases binds.len(),
{
    if binds.len() == 0 {
        None
    } else if binds[0].name == n {
        Some(0)
    } else {
        match find_name(binds.skip(1), n) {
            Some(i) => Some(i + 1),
            None => None,
        }
    }
}

/// `find_name` yields the first index bound to the name, and `None` exactly
/// when no binding carries it.
pub proof fn lemma_find_name<E>(binds: Seq<BindingV<E>>, n: Seq<char>)
    ensures
        match find_name(binds, n) {
            Some(i) => 0 <= i < binds.len() && binds[i].name == n && (forall|j: int|
                0 <= j < i ==> (#[trigger] binds[j]).name != n),
            None => forall|j: int| 0 <= j < binds.len() ==> (#[trigger] binds[j]).name != n,
        },
    decreases binds.len(),
{
    if binds.len() > 0 && binds[0].name != n {
        lemma_find_name(binds.skip(1), n);
        match find_name(binds.skip(1), n) {
            Some(i) => {
                assert(binds[i + 1] == binds.skip(1)[i]);
                assert forall|j: int| 0 <= j < i + 1 implies (#[trigger] binds[j]).name != n by {
                    if j > 0 {
                        assert(binds[j] == binds.skip(1)[j - 1]);
                    }
                }
            },
            None => {
                assert forall|j: int|
                    0 <= j < binds.len() implies (#[trigger] binds[j]).name != n by {
                    if j > 0 {
                        assert(binds[j] == binds.skip(1)[j - 1]);
                    }
                }
            },
        }
    }
}

/// Two frames whose bindings carry the same names in the same order agree on
/// `find_name`.
pub proof fn lemma_find_name_same_names<E>(
    b1: Seq<BindingV<E>>,
    b2: Seq<BindingV<E>>,
    n: Seq<char>,
)
    requires
        b1.len() == b2.len(),
        forall|j: int| 0 <= j < b1.len() ==> (#[trigger] b1[j]).name == b2[j].name,
    ensures
        find_name(b1, n) == find_name(b2, n),
    decreases b1.len(),
{
    if b1.len() > 0 && b1[0].name != n {
        assert(forall|j: int|
            0 <= j < b1.len() - 1 ==> (#[trigger] b1.skip(1)[j]).name == b2.skip(1)[j].name);
        lemma_find_name_same_names(b1.skip(1), b2.skip(1), n);
    }
}

/// The frame that defines the name, walking the parent chain from `f`.
pub open spec fn resolve<E>(frames: Seq<FrameV<E>>, f: int, n: Seq<char>) -> Option<int>
    recommends
        env_wf(frames),
        0 <= f < frames.len(),
    decreases f,
        when 0 <= f < frames.len() && env_wf(frames)
{
    if find_name(frames[f].binds, n) is Some {
        Some(f)
    } else {
        match frames[f].parent {
            Some(p) => resolve(frames, p, n),
            None => None,
        }
    }
}

/// The value bound to the name, walking the parent chain from `f`.
pub open spec fn env_lookup<E>(frames: Seq<FrameV<E>>, f: int, n: Seq<char>) -> Option<ValV<E>>
    recommends
        env_wf(frames),
        0 <= f < frames.len(),
{
    match resolve(frames, f, n) {
        Some(g) => match find_name(frames[g].binds, n) {
            Some(i) => Some(frames[g].binds[i].val),
            None => None,
        },
        None => None,
    }
}

/// A frame's bindings after an unconditional definition: the first binding of
/// the name is replaced, or a new binding is appended.
pub open spec fn frame_define<E>(binds: Seq<BindingV<E>>, n: Seq<char>, v: ValV<E>) -> Seq<
    BindingV<E>,
> {
    match find_name(binds, n) {
        Some(i) => binds.update(i, BindingV { name: n, val: v }),
        None => binds.push(BindingV { name: n, val: v }),
    }
}

/// The arena after defining the name in frame `f`.
pub open spec fn env_define<E>(
    frames: Seq<FrameV<E>>,
    f: int,
    n: Seq<char>,
    v: ValV<E>,
) -> Seq<FrameV<E>>
    recommends
        0 <= f < frames.len(),
{
    frames.update(
        f,
        FrameV { parent: frames[f].parent, binds: frame_define(frames[f].binds, n, v) },
    )
}

/// The arena after assigning the name through frame `f`: the frame that
/// `resolve` names has its binding replaced.
pub open spec fn env_assign<E>(
    frames: Seq<FrameV<E>>,
    f: int,
    n: Seq<char>,
    v: ValV<E>,
) -> Seq<FrameV<E>>
    recommends
        env_wf(frames),
        0 <= f < frames.len(),
        resolve(frames, f, n) is Some,
{
    env_define(frames, resolve(frames, f, n)->Some_0, n, v)
}

/// Resolution depends only on the names in each frame, so defining a name
/// where it is already bound leaves every resolution unchanged.
pub proof fn lemma_resolve_after_assign<E>(
    frames: Seq<FrameV<E>>,
    g: int,
    n: Seq<char>,
    v: ValV<E>,
    f: int,
    m: Seq<char>,
)
    requires
        env_wf(frames),
        0 <= g < frames.len(),
        0 <= f < frames.len(),
        find_name(frames[g].binds, n) is Some,
    ensures
        env_wf(env_define(frames, g, n, v)),
        resolve(env_define(frames, g, n, v), f, m) == resolve(frames, f, m),
    decreases f,
{
    let post = env_define(frames, g, n, v);
    lemma_find_name(frames[g].binds, n);
    assert(forall|x: int| 0 <= x < frames.len() ==> post[x].parent == frames[x].parent);
    assert(forall|j: int|
        0 <= j < frames[g].binds.len() ==> (#[trigger] post[g].binds[j]).name
            == frames[g].binds[j].name);
    lemma_find_name_same_names(post[f].binds, frames[f].binds, m);
    match frames[f].parent {
        Some(p) => {
            if find_name(frames[f].binds, m) is None {
                lemma_resolve_after_assign(frames, g, n, v, p, m);
            }
        },
        None => {},
    }
}

/// The law of shared environments: when two frames resolve a name to the same
/// defining frame, an assignment made through the first is seen by a lookup
/// through the second. A lambda holding the environment it was captured in
/// therefore observes mutations made elsewhere through that environment.
pub proof fn lemma_assign_is_shared<E>(
    frames: Seq<FrameV<E>>,
    f1: int,
    f2: int,
    n: Seq<char>,
    v: ValV<E>,
)
    requires
        env_wf(frames),
        0 <= f1 < frames.len(),
        0 <= f2 < frames.len(),
        resolve(frames, f1, n) is Some,
        resolve(frames, f2, n) == resolve(frames, f1, n),
    ensures
        env_lookup(env_assign(frames, f1, n, v), f2, n) == Some(v),
{
    let g = resolve(frames, f1, n)->Some_0;
    lemma_resolve_ok(frames, f1, n);
    let post = env_assign(frames, f1, n, v);
    lemma_resolve_after_assign(frames, g, n, v, f2, n);
    assert(resolve(post, f2, n) == Some(g));
    lemma_find_name(frames[g].binds, n);
    let i = find_name(frames[g].binds, n)->Some_0;
    assert(forall|j: int|
        0 <= j < frames[g].binds.len() ==> (#[trigger] post[g].binds[j]).name
            == frames[g].binds[j].name);
    lemma_find_name_same_names(post[g].binds, frames[g].binds, n);
    assert(post[g].binds[i].val == v);
}

/// A successful resolution names a frame in range whose bindings carry the
/// name.
pub proof fn lemma_resolve_ok<E>(frames: Seq<FrameV<E>>, f: int, n: Seq<char>)
    requires
        env_wf(frames),
        0 <= f < frames.len(),
    ensures
        match resolve(frames, f, n) {
            Some(g) => 0 <= g <= f && find_name(frames[g].binds, n) is Some,
            None => true,
        },
    decreases f,
{
    if find_name(frames[f].binds, n) is None {
        match frames[f].parent {
            Some(p) => lemma_resolve_ok(frames, p, n),
            None => {},
        }
    }
}

/// Finds the first binding of the name in a vector of bindings.
fn find_in<E>(binds: &Vec<Binding<E>>, n: &SymbolId) -> (r: Option<usize>)
    ensures
        match r {
            Some(i) => find_name(binds@.map_values(|b: Binding<E>| b@), n@) == Some(i as int),
            None => find_name(binds@.map_values(|b: Binding<E>| b@), n@) is None,
        },
{
    let ghost bv = binds@.map_values(|b: Binding<E>| b@);
    proof {
        lemma_find_name(bv, n@);
    }
    let mut j: usize = 0;
    while j < binds.len()
        invariant
            j <= binds.len(),
            bv == binds@.map_values(|b: Binding<E>| b@),
            bv.len() == binds@.len(),
            forall|k: int| 0 <= k < j ==> (#[trigger] bv[k]).name != n@,
            match find_name(bv, n@) {
                Some(i) => 0 <= i < bv.len() && bv[i].name == n@ && (forall|k: int|
                    0 <= k < i ==> (#[trigger] bv[k]).name != n@),
                None => forall|k: int| 0 <= k < bv.len() ==> (#[trigger] bv[k]).name != n@,
            },
        decreases binds.len() - j,
    {
        if binds[j].name.0 == n.0 {
            proof {
                assert(bv[j as int].name == n@);
                if find_name(bv, n@) is None {
                    assert(false);
                } else {
                    let i = find_name(bv, n@)->Some_0;
                    if i < j as int {
                        assert(bv[i].name != n@);
                        assert(false);
                    }
                    if i > j as int {
                        assert(bv[j as int].name != n@);
                        assert(false);
                    }
                }
            }
            return Some(j);
        }
        j += 1;
    }
    proof {
        if find_name(bv, n@) is Some {
            let i = find_name(bv, n@)->Some_0;
            assert(bv[i].name != n@);
            assert(false);
        }
    }
    None
}

impl<E: Extern> Env<E> {
    /// An arena holding one empty root frame.
    pub fn root() -> (r: Self)
        ensures
            r@.len() == 1,
            r@[0].parent is None,
            r@[0].binds.len() == 0,
            env_wf(r@),
    {
        let mut frames: Vec<EnvFrame<E>> = Vec::new();
        frames.push(EnvFrame { parent: None, binds: Vec::new() });
        let r = Env { frames };
        proof {
            assert(r@[0].binds =~= Seq::<BindingV<E>>::empty());
        }
        r
    }

    /// The number of frames in the arena.
    pub fn len(&self) -> (r: usize)
        ensures
            r == self@.len(),
    {
        self.frames.len()
    }

    /// Creates a child frame of `parent` and returns its index.
    pub fn extend(&mut self, parent: usize) -> (id: usize)
        requires
            parent < old(self)@.len(),
            env_wf(old(self)@),
        ensures
            id == old(self)@.len(),
            final(self)@ == old(self)@.push(
                FrameV::<E> { parent: Some(parent as int), binds: Seq::empty() },
            ),
            env_wf(final(self)@),
    {
        let id = self.frames.len();
        self.frames.push(EnvFrame { parent: Some(parent), binds: Vec::new() });
        proof {
            assert(self@[id as int].binds =~= Seq::<BindingV<E>>::empty());
            assert(self@ =~= old(self)@.push(
                FrameV::<E> { parent: Some(parent as int), binds: Seq::empty() },
            ));
        }
        id
    }

    /// Defines the name in frame `f`, replacing any binding it already holds
    /// there. The enclosing frames are untouched.
    pub fn define(&mut self, f: usize, n: &SymbolId, v: Val<E>)
        requires
            f < old(self)@.len(),
        ensures
            final(self)@ == env_define(old(self)@, f as int, n@, val_view(v)),
            final(self)@.len() == old(self)@.len(),
            env_wf(old(self)@) ==> env_wf(final(self)@),
    {
        let b = Binding { name: n.duplicate(), val: v };
        match find_in(&self.frames[f].binds, n) {
            Some(i) => {
                proof {
                    lemma_find_name(old(self)@[f as int].binds, n@);
                }
                self.frames[f].binds[i] = b;
            },
            None => {
                self.frames[f].binds.push(b);
            },
        }
        proof {
            let pre = old(self)@;
            let post = self@;
            let expect = env_define(pre, f as int, n@, val_view(v));
            assert forall|x: int| 0 <= x < post.len() implies post[x] == expect[x] by {
                if x == f as int {
                    assert(post[x].binds =~= expect[x].binds);
                } else {
                    assert(post[x] == pre[x]);
                }
            }
            assert(post =~= expect);
            assert forall|x: int| 0 <= x < post.len() implies post[x].parent == pre[x].parent by {}
        }
    }

    /// Assigns the name through frame `f`: the nearest enclosing frame that
    /// defines it has its binding replaced. Fails with `UndefinedSymbol`, and
    /// changes nothing, when no enclosing frame defines the name.
    pub fn set(&mut self, f: usize, n: &SymbolId, v: Val<E>) -> (r: Result<(), Error>)
        requires
            f < old(self)@.len(),
            env_wf(old(self)@),
        ensures
            match resolve(old(self)@, f as int, n@) {
                Some(g) => r is Ok && final(self)@ == env_assign(
                    old(self)@,
                    f as int,
                    n@,
                    val_view(v),
                ),
                None => r is Err && r->Err_0@ == ErrorV::UndefinedSymbol(n@) && *final(self)
                    == *old(self),
            },
            final(self)@.len() == old(self)@.len(),
            env_wf(final(self)@),
    {
        let ghost frames0 = self@;
        let mut cur: usize = f;
        loop
            invariant
                cur < self@.len(),
                *self == *old(self),
                self@ == frames0,
                env_wf(frames0),
                f < frames0.len(),
                resolve(frames0, f as int, n@) == resolve(frames0, cur as int, n@),
            decreases cur,
        {
            match find_in(&self.frames[cur].binds, n) {
                Some(i) => {
                    proof {
                        assert(resolve(frames0, cur as int, n@) == Some(cur as int));
                        lemma_find_name(frames0[cur as int].binds, n@);
                    }
                    let b = Binding { name: n.duplicate(), val: v };
                    self.frames[cur].binds[i] = b;
                    proof {
                        let post = self@;
                        let expect = env_assign(frames0, f as int, n@, val_view(v));
                        assert(expect == env_define(frames0, cur as int, n@, val_view(v)));
                        assert forall|x: int| 0 <= x < post.len() implies post[x] == expect[x] by {
                            if x == cur as int {
                                assert(post[x].binds =~= expect[x].binds);
                            } else {
                                assert(post[x] == frames0[x]);
                            }
                        }
                        assert(post =~= expect);
                        lemma_resolve_after_assign(
                            frames0,
                            cur as int,
                            n@,
                            val_view(v),
                            f as int,
                            n@,
                        );
                        assert forall|x: int|
                            0 <= x < post.len() implies post[x].parent == frames0[x].parent by {}
                    }
                    return Ok(());
                },
                None => {
                    let parent = self.frames[cur].parent;
                    match parent {
                        Some(p) => {
                            cur = p;
                        },
                        None => {
                            proof {
                                assert(resolve(frames0, cur as int, n@) is None);
                            }
                            return Err(Error::UndefinedSymbol(n.duplicate()));
                        },
                    }
                },
            }
        }
    }

    /// Looks the name up through frame `f`, walking the parent chain.
    pub fn get(&self, f: usize, n: &SymbolId) -> (r: Option<Val<E>>)
        requires
            f < self@.len(),
            env_wf(self@),
        ensures
            match env_lookup(self@, f as int, n@) {
                Some(vv) => r is Some && val_view(r->Some_0) == vv,
                None => r is None,
            },
    {
        let mut cur: usize = f;
        loop
            invariant
                cur < self@.len(),
                f < self@.len(),
                env_wf(self@),
                resolve(self@, f as int, n@) == resolve(self@, cur as int, n@),
            decreases cur,
        {
            match find_in(&self.frames[cur].binds, n) {
                Some(i) => {
                    proof {
                        lemma_find_name(self@[cur as int].binds, n@);
                    }
                    return Some(self.frames[cur].binds[i].val.duplicate());
                },
                None => {
                    let parent = self.frames[cur].parent;
                    match parent {
                        Some(p) => {
                            cur = p;
                        },
                        None => {
                            return None;
                        },
                    }
                },
            }
        }
    }
}

} // verus!
