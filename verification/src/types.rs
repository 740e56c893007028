//! Values manipulated by the virtual machine and their mathematical models.
use vstd::prelude::*;

verus! {

use crate::error::{Error, ErrorV};

/// Identifier for a symbol: a name that can be bound to a value.
#[derive(Debug, Clone, PartialEq, Eq, Hash)]
pub struct SymbolId(pub String);

/// Identifier for a keyword: a self-evaluating tagged name, printed `:name`.
#[derive(Debug, Clone, PartialEq, Eq, Hash)]
pub struct KeywordId(pub String);

impl View for SymbolId {
    type V = Seq<char>;

    open spec fn view(&self) -> Seq<char> {
        self.0@
    }
}

impl View for KeywordId {
    type V = Seq<char>;

    open spec fn view(&self) -> Seq<char> {
        self.0@
    }
}

impl SymbolId {
    /// Builds a symbol identifier from a string slice.
    pub fn new(s: &str) -> (r: Self)
        ensures
            r@ == s@,
    {
        SymbolId(s.to_owned())
    }

    /// Returns the inner identifier as a string slice.
    pub fn as_str(&self) -> (r: &str)
        ensures
            r@ == self@,
    {
        self.0.as_str()
    }

    /// Clones the identifier; the copy has the same model.
    pub fn duplicate(&self) -> (r: Self)
        ensures
            r@ == self@,
    {
        SymbolId(self.0.clone())
    }
}

impl KeywordId {
    /// Builds a keyword identifier from a string slice.
    pub fn new(s: &str) -> (r: Self)
        ensures
            r@ == s@,
    {
        KeywordId(s.to_owned())
    }

    /// Returns the inner identifier as a string slice.
    pub fn as_str(&self) -> (r: &str)
        ensures
            r@ == self@,
    {
        self.0.as_str()
    }

    /// Clones the identifier; the copy has the same model.
    pub fn duplicate(&self) -> (r: Self)
        ensures
            r@ == self@,
    {
        KeywordId(self.0.clone())
    }
}

/// A host-supplied payload carried opaquely through the machine.
///
/// The machine never inspects such a value: it only moves it, compares it via
/// the host's equality, and duplicates it through [`Extern::dup`].
pub trait Extern: Sized {
    /// Produces a copy that the machine may treat as the same value.
    fn dup(&self) -> (r: Self)
        ensures
            r == *self,
    ;

    /// Renders the payload for display inside `<extern ...>`.
    fn to_text(&self) -> String;
}

impl Extern for () {
    fn dup(&self) -> (r: Self)
        ensures
            r == *self,
    {
    }

    fn to_text(&self) -> String {
        String::new()
    }
}

/// A parsed expression: the serializable subset of [`Val`].
#[derive(Debug, PartialEq)]
pub enum Form {
    Nil,
    Bool(bool),
    Int(i32),
    String(String),
    Symbol(SymbolId),
    Keyword(KeywordId),
    List(Vec<Form>),
}

/// The mathematical model of a [`Form`].
pub enum FormV {
    Nil,
    Bool(bool),
    Int(i32),
    Str(Seq<char>),
    Sym(Seq<char>),
    Key(Seq<char>),
    List(Seq<FormV>),
}

/// Model of a form.
pub open spec fn form_view(f: Form) -> FormV
    decreases f,
{
    match f {
        Form::Nil => FormV::Nil,
        Form::Bool(b) => FormV::Bool(b),
        Form::Int(i) => FormV::Int(i),
        Form::String(s) => FormV::Str(s@),
        Form::Symbol(s) => FormV::Sym(s@),
        Form::Keyword(k) => FormV::Key(k@),
        Form::List(l) => FormV::List(forms_view(l@)),
    }
}

/// Model of a sequence of forms.
pub open spec fn forms_view(l: Seq<Form>) -> Seq<FormV>
    decreases l,
{
    if l.len() == 0 {
        Seq::empty()
    } else {
        forms_view(l.drop_last()).push(form_view(l.last()))
    }
}

/// The element of `forms_view` at each index is the model of the element of
/// the underlying sequence at that index.
pub broadcast proof fn lemma_forms_view(l: Seq<Form>)
    ensures
        (#[trigger] forms_view(l)).len() == l.len(),
        forall|i: int| 0 <= i < l.len() ==> forms_view(l)[i] == form_view(l[i]),
    decreases l,
{
    if l.len() > 0 {
        lemma_forms_view(l.drop_last());
    }
}

impl View for Form {
    type V = FormV;

    open spec fn view(&self) -> FormV {
        form_view(*self)
    }
}

impl Form {
    /// Shorthand for constructing [`Form::String`].
    pub fn string(s: &str) -> (r: Self)
        ensures
            r@ == FormV::Str(s@),
    {
        Form::String(s.to_owned())
    }

    /// Shorthand for constructing [`Form::Symbol`].
    pub fn symbol(id: &str) -> (r: Self)
        ensures
            r@ == FormV::Sym(id@),
    {
        Form::Symbol(SymbolId::new(id))
    }

    /// Shorthand for constructing [`Form::Keyword`].
    pub fn keyword(id: &str) -> (r: Self)
        ensures
            r@ == FormV::Key(id@),
    {
        Form::Keyword(KeywordId::new(id))
    }
}

/// How a native function is carried out when called.
#[derive(Debug, Clone, PartialEq)]
pub enum NativeKind {
    /// The built-in two-argument integer addition.
    Plus,
    /// The built-in protected evaluation of one expression.
    Peval,
    /// A function supplied by the host and dispatched by symbol.
    Host,
}

/// A native function bound to a symbol.
#[derive(Debug, Clone, PartialEq)]
pub struct NativeFn {
    pub symbol: SymbolId,
    pub kind: NativeKind,
}

/// The mathematical model of a [`NativeFn`].
pub struct NativeFnV {
    pub symbol: Seq<char>,
    pub kind: NativeKind,
}

impl View for NativeFn {
    type V = NativeFnV;

    open spec fn view(&self) -> NativeFnV {
        NativeFnV { symbol: self.symbol@, kind: self.kind }
    }
}

impl NativeFn {
    /// A native function carried out by the host's handler under `symbol`.
    pub fn host(symbol: &str) -> (r: Self)
        ensures
            r@ == (NativeFnV { symbol: symbol@, kind: NativeKind::Host }),
    {
        NativeFn { symbol: SymbolId::new(symbol), kind: NativeKind::Host }
    }

    /// Clones the native function; the copy has the same model.
    pub fn duplicate(&self) -> (r: Self)
        ensures
            r@ == self@,
    {
        NativeFn {
            symbol: self.symbol.duplicate(),
            kind: match self.kind {
                NativeKind::Plus => NativeKind::Plus,
                NativeKind::Peval => NativeKind::Peval,
                NativeKind::Host => NativeKind::Host,
            },
        }
    }
}

/// What a native function hands back: an ordinary return or a suspension.
#[derive(Debug, PartialEq)]
pub enum NativeFnVal<E> {
    Return(Val<E>),
    Yield(Val<E>),
}

/// A function object that closes over the environment it was created in.
///
/// The environment is named by its index in the owning fiber's arena, so two
/// lambdas are equal only when they carry the same allocation, besides equal
/// parameter lists and code.
#[derive(Debug, PartialEq)]
pub struct Lambda<E> {
    pub params: Vec<SymbolId>,
    pub code: Vec<Inst<E>>,
    pub env: usize,
}

/// The mathematical model of a [`Lambda`].
pub struct LambdaV<E> {
    pub params: Seq<Seq<char>>,
    pub code: Seq<InstV<E>>,
    pub env: int,
}

/// A single instruction of the stack machine.
#[derive(Debug, PartialEq)]
pub enum Inst<E> {
    /// Push a copy of the constant.
    PushConst(Val<E>),
    /// Define the symbol as the value on top of the stack, in the current frame.
    DefSym(SymbolId),
    /// Assign the value on top of the stack to the nearest frame defining the symbol.
    SetSym(SymbolId),
    /// Push the value bound to the symbol.
    GetSym(SymbolId),
    /// Pop bytecode and a parameter list; push a lambda closing over the current environment.
    MakeFunc,
    /// Pop the arguments and the callee; invoke it.
    CallFunc(usize),
    /// Pop and discard the top of the stack.
    PopTop,
    /// Skip the given number of instructions.
    JumpFwd(usize),
    /// Pop the top of the stack; if it is truthy, skip the given number of instructions.
    PopJumpFwdIfTrue(usize),
    /// Move the instruction pointer back by the given number of instructions.
    JumpBack(usize),
    /// Pop one value and suspend the fiber with it.
    Yield,
}

/// The mathematical model of an [`Inst`].
pub enum InstV<E> {
    PushConst(ValV<E>),
    DefSym(Seq<char>),
    SetSym(Seq<char>),
    GetSym(Seq<char>),
    MakeFunc,
    CallFunc(usize),
    PopTop,
    JumpFwd(usize),
    PopJumpFwdIfTrue(usize),
    JumpBack(usize),
    Yield,
}

/// A value manipulated by the virtual machine.
#[derive(Debug, PartialEq)]
pub enum Val<E> {
    /// No value.
    Nil,
    /// True or false.
    Bool(bool),
    /// A 32-bit signed integer.
    Int(i32),
    /// A string.
    String(String),
    /// A named slot for a value.
    Symbol(SymbolId),
    /// A unique self-evaluating name.
    Keyword(KeywordId),
    /// An ordered sequence of values.
    List(Vec<Val<E>>),
    /// A callable function object.
    Lambda(Lambda<E>),
    /// A callable native function object.
    NativeFn(NativeFn),
    /// A compiled bytecode sequence.
    Bytecode(Vec<Inst<E>>),
    /// An error carried as a value.
    Error(Error),
    /// An externally defined payload.
    Extern(E),
}

/// The mathematical model of a [`Val`].
pub enum ValV<E> {
    Nil,
    Bool(bool),
    Int(i32),
    Str(Seq<char>),
    Sym(Seq<char>),
    Key(Seq<char>),
    List(Seq<ValV<E>>),
    Lambda(LambdaV<E>),
    Native(NativeFnV),
    Code(Seq<InstV<E>>),
    ErrVal(ErrorV),
    Ext(E),
}

/// Model of a value.
pub open spec fn val_view<E>(v: Val<E>) -> ValV<E>
    decreases v,
{
    match v {
        Val::Nil => ValV::Nil,
        Val::Bool(b) => ValV::Bool(b),
        Val::Int(i) => ValV::Int(i),
        Val::String(s) => ValV::Str(s@),
        Val::Symbol(s) => ValV::Sym(s@),
        Val::Keyword(k) => ValV::Key(k@),
        Val::List(l) => ValV::List(vals_view(l@)),
        Val::Lambda(l) => ValV::Lambda(
            LambdaV {
                params: syms_view(l.params@),
                code: insts_view(l.code@),
                env: l.env as int,
            },
        ),
        Val::NativeFn(n) => ValV::Native(n@),
        Val::Bytecode(c) => ValV::Code(insts_view(c@)),
        Val::Error(e) => ValV::ErrVal(e@),
        Val::Extern(e) => ValV::Ext(e),
    }
}

/// Model of a sequence of values.
pub open spec fn vals_view<E>(l: Seq<Val<E>>) -> Seq<ValV<E>>
    decreases l,
{
    if l.len() == 0 {
        Seq::empty()
    } else {
        vals_view(l.drop_last()).push(val_view(l.last()))
    }
}

/// Model of an instruction.
pub open spec fn inst_view<E>(i: Inst<E>) -> InstV<E>
    decreases i,
{
    match i {
        Inst::PushConst(v) => InstV::PushConst(val_view(v)),
        Inst::DefSym(s) => InstV::DefSym(s@),
        Inst::SetSym(s) => InstV::SetSym(s@),
        Inst::GetSym(s) => InstV::GetSym(s@),
        Inst::MakeFunc => InstV::MakeFunc,
        Inst::CallFunc(n) => InstV::CallFunc(n),
        Inst::PopTop => InstV::PopTop,
        Inst::JumpFwd(k) => InstV::JumpFwd(k),
        Inst::PopJumpFwdIfTrue(k) => InstV::PopJumpFwdIfTrue(k),
        Inst::JumpBack(k) => InstV::JumpBack(k),
        Inst::Yield => InstV::Yield,
    }
}

/// Model of a sequence of instructions.
pub open spec fn insts_view<E>(l: Seq<Inst<E>>) -> Seq<InstV<E>>
    decreases l,
{
    if l.len() == 0 {
        Seq::empty()
    } else {
        insts_view(l.drop_last()).push(inst_view(l.last()))
    }
}

/// Model of a sequence of symbol identifiers.
pub open spec fn syms_view(l: Seq<SymbolId>) -> Seq<Seq<char>> {
    l.map_values(|s: SymbolId| s@)
}

/// The element of `vals_view` at each index is the model of the element of
/// the underlying sequence at that index.
pub broadcast proof fn lemma_vals_view<E>(l: Seq<Val<E>>)
    ensures
        (#[trigger] vals_view(l)).len() == l.len(),
        forall|i: int| 0 <= i < l.len() ==> vals_view(l)[i] == val_view(l[i]),
    decreases l,
{
    if l.len() > 0 {
        lemma_vals_view(l.drop_last());
    }
}

/// The element of `insts_view` at each index is the model of the element of
/// the underlying sequence at that index.
pub broadcast proof fn lemma_insts_view<E>(l: Seq<Inst<E>>)
    ensures
        (#[trigger] insts_view(l)).len() == l.len(),
        forall|i: int| 0 <= i < l.len() ==> insts_view(l)[i] == inst_view(l[i]),
    decreases l,
{
    if l.len() > 0 {
        lemma_insts_view(l.drop_last());
    }
}

impl<E> View for Val<E> {
    type V = ValV<E>;

    open spec fn view(&self) -> ValV<E> {
        val_view(*self)
    }
}

impl<E> View for Inst<E> {
    type V = InstV<E>;

    open spec fn view(&self) -> InstV<E> {
        inst_view(*self)
    }
}

impl<E> View for Lambda<E> {
    type V = LambdaV<E>;

    open spec fn view(&self) -> LambdaV<E> {
        LambdaV {
            params: syms_view(self.params@),
            code: insts_view(self.code@),
            env: self.env as int,
        }
    }
}

impl<E> Val<E> {
    /// Shorthand for constructing [`Val::String`].
    pub fn string(s: &str) -> (r: Self)
        ensures
            r@ == ValV::Str::<E>(s@),
    {
        Val::String(s.to_owned())
    }

    /// Shorthand for constructing [`Val::Symbol`].
    pub fn symbol(id: &str) -> (r: Self)
        ensures
            r@ == ValV::Sym::<E>(id@),
    {
        Val::Symbol(SymbolId::new(id))
    }

    /// Shorthand for constructing [`Val::Keyword`].
    pub fn keyword(id: &str) -> (r: Self)
        ensures
            r@ == ValV::Key::<E>(id@),
    {
        Val::Keyword(KeywordId::new(id))
    }
}

/// Clones a vector of symbol identifiers; the copy has the same model.
fn dup_syms(l: &Vec<SymbolId>) -> (r: Vec<SymbolId>)
    ensures
        syms_view(r@) == syms_view(l@),
{
    let mut out: Vec<SymbolId> = Vec::new();
    let mut j: usize = 0;
    while j < l.len()
        invariant
            j <= l.len(),
            out@.len() == j as int,
            forall|k: int| 0 <= k < j ==> out@[k]@ == l@[k]@,
        decreases l.len() - j,
    {
        out.push(l[j].duplicate());
        j += 1;
    }
    proof {
        assert(syms_view(out@) =~= syms_view(l@));
    }
    out
}

impl<E: Extern> Val<E> {
    /// Clones the value; the copy has the same model.
    pub fn duplicate(&self) -> (r: Self)
        ensures
            r@ == self@,
        decreases *self,
    {
        match self {
            Val::Nil => Val::Nil,
            Val::Bool(b) => Val::Bool(*b),
            Val::Int(i) => Val::Int(*i),
            Val::String(s) => Val::String(s.clone()),
            Val::Symbol(s) => Val::Symbol(s.duplicate()),
            Val::Keyword(k) => Val::Keyword(k.duplicate()),
            Val::List(l) => {
                let mut out: Vec<Val<E>> = Vec::new();
                let mut j: usize = 0;
                while j < l.len()
                    invariant
                        *self is List,
                        self->List_0 == *l,
                        j <= l.len(),
                        out@.len() == j as int,
                        forall|k: int| 0 <= k < j ==> val_view(out@[k]) == val_view(l@[k]),
                    decreases l.len() - j,
                {
                    proof {
                        assert(decreases_to!(*self => self->List_0));
                        assert(decreases_to!(*l => l@));
                        assert(decreases_to!(l@ => l@[j as int]));
                        assert(decreases_to!(*self => l@[j as int]));
                    }
                    out.push(l[j].duplicate());
                    j += 1;
                }
                proof {
                    broadcast use lemma_vals_view;

                    assert(vals_view(out@) =~= vals_view(l@));
                }
                Val::List(out)
            },
            Val::Lambda(l) => {
                proof {
                    assert(decreases_to!(*self => self->Lambda_0));
                    assert(decreases_to!(self->Lambda_0 => l.code));
                    assert(decreases_to!(*self => l.code));
                }
                Val::Lambda(
                    Lambda { params: dup_syms(&l.params), code: dup_insts(&l.code), env: l.env },
                )
            },
            Val::NativeFn(n) => Val::NativeFn(n.duplicate()),
            Val::Bytecode(c) => {
                proof {
                    assert(decreases_to!(*self => self->Bytecode_0));
                    assert(decreases_to!(*self => *c));
                }
                Val::Bytecode(dup_insts(c))
            },
            Val::Error(e) => Val::Error(e.duplicate()),
            Val::Extern(e) => Val::Extern(e.dup()),
        }
    }
}

/// Clones a vector of instructions; the copy has the same model.
fn dup_insts<E: Extern>(l: &Vec<Inst<E>>) -> (r: Vec<Inst<E>>)
    ensures
        insts_view(r@) == insts_view(l@),
    decreases *l,
{
    let mut out: Vec<Inst<E>> = Vec::new();
    let mut j: usize = 0;
    while j < l.len()
        invariant
            j <= l.len(),
            out@.len() == j as int,
            forall|k: int| 0 <= k < j ==> inst_view(out@[k]) == inst_view(l@[k]),
        decreases l.len() - j,
    {
        proof {
            assert(decreases_to!(*l => l@));
            assert(decreases_to!(l@ => l@[j as int]));
            assert(decreases_to!(*l => l@[j as int]));
        }
        out.push(l[j].duplicate());
        j += 1;
    }
    proof {
        broadcast use lemma_insts_view;

        assert(insts_view(out@) =~= insts_view(l@));
    }
    out
}

impl<E: Extern> Inst<E> {
    /// Clones the instruction; the copy has the same model.
    pub fn duplicate(&self) -> (r: Self)
        ensures
            r@ == self@,
        decreases *self,
    {
        match self {
            Inst::PushConst(v) => {
                proof {
                    assert(decreases_to!(*self => self->PushConst_0));
                }
                Inst::PushConst(v.duplicate())
            },
            Inst::DefSym(s) => Inst::DefSym(s.duplicate()),
            Inst::SetSym(s) => Inst::SetSym(s.duplicate()),
            Inst::GetSym(s) => Inst::GetSym(s.duplicate()),
            Inst::MakeFunc => Inst::MakeFunc,
            Inst::CallFunc(n) => Inst::CallFunc(*n),
            Inst::PopTop => Inst::PopTop,
            Inst::JumpFwd(k) => Inst::JumpFwd(*k),
            Inst::PopJumpFwdIfTrue(k) => Inst::PopJumpFwdIfTrue(*k),
            Inst::JumpBack(k) => Inst::JumpBack(*k),
            Inst::Yield => Inst::Yield,
        }
    }
}

impl From<&str> for SymbolId {
    /// Builds a symbol identifier from a string slice.
    ///
    /// Contracts use [`SymbolId::new`], whose result is specified; this impl
    /// exists for callers outside verified code.
    fn from(value: &str) -> Self {
        SymbolId::new(value)
    }
}

impl vstd::std_specs::convert::FromSpecImpl<&str> for SymbolId {
    open spec fn obeys_from_spec() -> bool {
        false
    }

    open spec fn from_spec(v: &str) -> Self {
        arbitrary()
    }
}

impl From<&str> for KeywordId {
    /// Builds a keyword identifier from a string slice.
    ///
    /// Contracts use [`KeywordId::new`], whose result is specified; this impl
    /// exists for callers outside verified code.
    fn from(value: &str) -> Self {
        KeywordId::new(value)
    }
}

impl vstd::std_specs::convert::FromSpecImpl<&str> for KeywordId {
    open spec fn obeys_from_spec() -> bool {
        false
    }

    open spec fn from_spec(v: &str) -> Self {
        arbitrary()
    }
}

/// The value a form converts to: the conversion is total and loses nothing.
pub open spec fn val_of_form<E>(f: FormV) -> ValV<E>
    decreases f,
{
    match f {
        FormV::Nil => ValV::Nil,
        FormV::Bool(b) => ValV::Bool(b),
        FormV::Int(i) => ValV::Int(i),
        FormV::Str(s) => ValV::Str(s),
        FormV::Sym(s) => ValV::Sym(s),
        FormV::Key(k) => ValV::Key(k),
        FormV::List(l) => ValV::List(vals_of_forms(l)),
    }
}

/// The values a sequence of forms converts to.
pub open spec fn vals_of_forms<E>(l: Seq<FormV>) -> Seq<ValV<E>>
    decreases l,
{
    if l.len() == 0 {
        Seq::empty()
    } else {
        vals_of_forms(l.drop_last()).push(val_of_form(l.last()))
    }
}

/// The form a value converts back to, or `None` outside the serializable
/// subset (lambdas, native functions, bytecode, errors and extern payloads).
pub open spec fn form_of_val<E>(v: ValV<E>) -> Option<FormV>
    decreases v,
{
    match v {
        ValV::Nil => Some(FormV::Nil),
        ValV::Bool(b) => Some(FormV::Bool(b)),
        ValV::Int(i) => Some(FormV::Int(i)),
        ValV::Str(s) => Some(FormV::Str(s)),
        ValV::Sym(s) => Some(FormV::Sym(s)),
        ValV::Key(k) => Some(FormV::Key(k)),
        ValV::List(l) => match forms_of_vals(l) {
            Some(fs) => Some(FormV::List(fs)),
            None => None,
        },
        _ => None,
    }
}

/// The forms a sequence of values converts back to, when every element lies
/// in the serializable subset.
pub open spec fn forms_of_vals<E>(l: Seq<ValV<E>>) -> Option<Seq<FormV>>
    decreases l,
{
    if l.len() == 0 {
        Some(Seq::empty())
    } else {
        match (forms_of_vals(l.drop_last()), form_of_val(l.last())) {
            (Some(fs), Some(f)) => Some(fs.push(f)),
            _ => None,
        }
    }
}

/// The element of `vals_of_forms` at each index converts the element of the
/// underlying sequence at that index.
pub broadcast proof fn lemma_vals_of_forms<E>(l: Seq<FormV>)
    ensures
        (#[trigger] vals_of_forms::<E>(l)).len() == l.len(),
        forall|i: int| 0 <= i < l.len() ==> vals_of_forms::<E>(l)[i] == val_of_form::<E>(l[i]),
    decreases l,
{
    if l.len() > 0 {
        lemma_vals_of_forms::<E>(l.drop_last());
    }
}

/// `forms_of_vals` succeeds exactly when every element converts, and then
/// converts elementwise.
pub broadcast proof fn lemma_forms_of_vals<E>(l: Seq<ValV<E>>)
    ensures
        (#[trigger] forms_of_vals(l)) is Some <==> (forall|i: int|
            0 <= i < l.len() ==> (#[trigger] form_of_val(l[i])) is Some),
        forms_of_vals(l) is Some ==> forms_of_vals(l)->Some_0.len() == l.len(),
        forms_of_vals(l) is Some ==> forall|i: int|
            0 <= i < l.len() ==> forms_of_vals(l)->Some_0[i] == form_of_val(l[i])->Some_0,
    decreases l,
{
    if l.len() > 0 {
        lemma_forms_of_vals(l.drop_last());
        if forms_of_vals(l) is Some {
            assert(forall|i: int|
                0 <= i < l.len() - 1 ==> form_of_val(l.drop_last()[i]) == form_of_val(l[i]));
        }
        if forall|i: int| 0 <= i < l.len() ==> (#[trigger] form_of_val(l[i])) is Some {
            assert(forall|i: int|
                0 <= i < l.len() - 1 ==> form_of_val(l.drop_last()[i]) == form_of_val(l[i]));
            assert(form_of_val(l.last()) is Some);
        }
    }
}

/// Converting a form to a value and back yields the same form: the
/// serializable subset loses nothing in either direction.
pub proof fn lemma_form_val_round_trip<E>(f: FormV)
    ensures
        form_of_val::<E>(val_of_form::<E>(f)) == Some(f),
    decreases f,
{
    match f {
        FormV::List(l) => {
            lemma_forms_vals_round_trip::<E>(l);
        },
        _ => {},
    }
}

/// Converting a sequence of forms to values and back yields the same
/// sequence.
pub proof fn lemma_forms_vals_round_trip<E>(l: Seq<FormV>)
    ensures
        forms_of_vals::<E>(vals_of_forms::<E>(l)) == Some(l),
    decreases l,
{
    if l.len() == 0 {
        assert(vals_of_forms::<E>(l).len() == 0);
        assert(forms_of_vals::<E>(vals_of_forms::<E>(l)) == Some(Seq::<FormV>::empty()));
        assert(l =~= Seq::<FormV>::empty());
    } else {
        lemma_forms_vals_round_trip::<E>(l.drop_last());
        lemma_form_val_round_trip::<E>(l.last());
        let vs = vals_of_forms::<E>(l);
        assert(vs == vals_of_forms::<E>(l.drop_last()).push(val_of_form::<E>(l.last())));
        assert(vs.drop_last() =~= vals_of_forms::<E>(l.drop_last()));
        assert(vs.last() == val_of_form::<E>(l.last()));
        assert(vs.len() > 0);
        assert(forms_of_vals::<E>(vs) == Some(l.drop_last().push(l.last())));
        assert(l.drop_last().push(l.last()) =~= l);
    }
}

impl Form {
    /// Clones the form; the copy has the same model.
    pub fn duplicate(&self) -> (r: Self)
        ensures
            r@ == self@,
        decreases *self,
    {
        match self {
            Form::Nil => Form::Nil,
            Form::Bool(b) => Form::Bool(*b),
            Form::Int(i) => Form::Int(*i),
            Form::String(s) => Form::String(s.clone()),
            Form::Symbol(s) => Form::Symbol(s.duplicate()),
            Form::Keyword(k) => Form::Keyword(k.duplicate()),
            Form::List(l) => {
                let mut out: Vec<Form> = Vec::new();
                let mut j: usize = 0;
                while j < l.len()
                    invariant
                        *self is List,
                        self->List_0 == *l,
                        j <= l.len(),
                        out@.len() == j as int,
                        forall|k: int| 0 <= k < j ==> form_view(out@[k]) == form_view(l@[k]),
                    decreases l.len() - j,
                {
                    proof {
                        assert(decreases_to!(*self => self->List_0));
                        assert(decreases_to!(*l => l@));
                        assert(decreases_to!(l@ => l@[j as int]));
                        assert(decreases_to!(*self => l@[j as int]));
                    }
                    out.push(l[j].duplicate());
                    j += 1;
                }
                proof {
                    broadcast use lemma_forms_view;

                    assert(forms_view(out@) =~= forms_view(l@));
                }
                Form::List(out)
            },
        }
    }

    /// Converts a value back to a form.
    ///
    /// Fails with `InvalidFormToExpr` exactly on values outside the
    /// serializable subset.
    pub fn try_from_val<E>(v: &Val<E>) -> (r: Result<Form, Error>)
        ensures
            match form_of_val(v@) {
                Some(f) => r is Ok && r->Ok_0@ == f,
                None => r is Err && r->Err_0@ is InvalidFormToExpr,
            },
        decreases *v,
    {
        match v {
            Val::Nil => Ok(Form::Nil),
            Val::Bool(b) => Ok(Form::Bool(*b)),
            Val::Int(i) => Ok(Form::Int(*i)),
            Val::String(s) => Ok(Form::String(s.clone())),
            Val::Symbol(s) => Ok(Form::Symbol(s.duplicate())),
            Val::Keyword(k) => Ok(Form::Keyword(k.duplicate())),
            Val::List(l) => {
                let mut out: Vec<Form> = Vec::new();
                let mut j: usize = 0;
                while j < l.len()
                    invariant
                        *v is List,
                        v->List_0 == *l,
                        j <= l.len(),
                        out@.len() == j as int,
                        forall|k: int|
                            0 <= k < j ==> #[trigger] form_of_val(val_view(l@[k])) is Some
                                && form_view(out@[k]) == form_of_val(val_view(l@[k]))->Some_0,
                    decreases l.len() - j,
                {
                    proof {
                        assert(decreases_to!(*v => v->List_0));
                        assert(decreases_to!(*l => l@));
                        assert(decreases_to!(l@ => l@[j as int]));
                        assert(decreases_to!(*v => l@[j as int]));
                    }
                    match Form::try_from_val(&l[j]) {
                        Ok(f) => out.push(f),
                        Err(e) => {
                            proof {
                                broadcast use lemma_vals_view;
                                broadcast use lemma_forms_of_vals;

                                let lv = vals_view(l@);
                                assert(form_of_val(lv[j as int]) is None);
                                assert(!(forall|i: int|
                                    0 <= i < lv.len() ==> (#[trigger] form_of_val(lv[i]))
                                        is Some));
                                assert(forms_of_vals(lv) is None);
                                assert(v@ == ValV::List(lv));
                                assert(form_of_val(v@) is None);
                            }
                            return Err(e);
                        },
                    }
                    j += 1;
                }
                proof {
                    broadcast use lemma_vals_view;
                    broadcast use lemma_forms_of_vals;
                    broadcast use lemma_forms_view;

                    assert(forall|i: int|
                        0 <= i < l@.len() ==> (#[trigger] form_of_val(vals_view(l@)[i]))
                            == form_of_val(val_view(l@[i])));
                    assert(forms_of_vals(vals_view(l@)) is Some);
                    assert(forms_view(out@) =~= forms_of_vals(vals_view(l@))->Some_0);
                }
                Ok(Form::List(out))
            },
            Val::Bytecode(_) => Err(
                Error::InvalidFormToExpr("bytecode are not exprs".to_owned()),
            ),
            Val::Lambda(_) => Err(Error::InvalidFormToExpr("lambdas are not exprs".to_owned())),
            Val::NativeFn(_) => Err(
                Error::InvalidFormToExpr("nativefns are not exprs".to_owned()),
            ),
            Val::Error(_) => Err(Error::InvalidFormToExpr("errors are not exprs".to_owned())),
            Val::Extern(_) => Err(
                Error::InvalidFormToExpr("extern values are not exprs".to_owned()),
            ),
        }
    }
}

impl<E> Val<E> {
    /// Converts a form to a value. The conversion is total and lossless.
    pub fn from_form(f: &Form) -> (r: Self)
        ensures
            r@ == val_of_form::<E>(f@),
        decreases *f,
    {
        match f {
            Form::Nil => Val::Nil,
            Form::Bool(b) => Val::Bool(*b),
            Form::Int(i) => Val::Int(*i),
            Form::String(s) => Val::String(s.clone()),
            Form::Symbol(s) => Val::Symbol(s.duplicate()),
            Form::Keyword(k) => Val::Keyword(k.duplicate()),
            Form::List(l) => {
                let mut out: Vec<Val<E>> = Vec::new();
                let mut j: usize = 0;
                while j < l.len()
                    invariant
                        *f is List,
                        f->List_0 == *l,
                        j <= l.len(),
                        out@.len() == j as int,
                        forall|k: int|
                            0 <= k < j ==> val_view(out@[k]) == val_of_form::<E>(form_view(l@[k])),
                    decreases l.len() - j,
                {
                    proof {
                        assert(decreases_to!(*f => f->List_0));
                        assert(decreases_to!(*l => l@));
                        assert(decreases_to!(l@ => l@[j as int]));
                        assert(decreases_to!(*f => l@[j as int]));
                    }
                    out.push(Val::from_form(&l[j]));
                    j += 1;
                }
                proof {
                    broadcast use lemma_vals_view;
                    broadcast use lemma_forms_view;
                    broadcast use lemma_vals_of_forms;

                    assert(vals_view(out@) =~= vals_of_forms::<E>(forms_view(l@)));
                }
                Val::List(out)
            },
        }
    }
}

} // verus!
