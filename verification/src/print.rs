//! Rendering of forms and values as source text.
use vstd::prelude::*;

verus! {

use crate::chars::{chars_to_string, str_to_chars};
use crate::error::{Error, ErrorV};
use crate::types::{
    Extern, Form, FormV, Val, ValV, form_view, forms_view, lemma_forms_view, lemma_vals_view,
    val_view, vals_view,
};
use vstd::string::StringExecFns;

/// The character of a decimal digit.
pub open spec fn dec_digit(d: int) -> char {
    if d == 0 {
        '0'
    } else if d == 1 {
        '1'
    } else if d == 2 {
        '2'
    } else if d == 3 {
        '3'
    } else if d == 4 {
        '4'
    } else if d == 5 {
        '5'
    } else if d == 6 {
        '6'
    } else if d == 7 {
        '7'
    } else if d == 8 {
        '8'
    } else {
        '9'
    }
}

/// The decimal digits of a natural number, most significant first.
pub open spec fn nat_text(n: nat) -> Seq<char>
    decreases n,
{
    if n < 10 {
        seq![dec_digit(n as int)]
    } else {
        nat_text(n / 10).push(dec_digit((n % 10) as int))
    }
}

/// The decimal rendering of an integer, with a leading minus when negative.
pub open spec fn int_text(i: int) -> Seq<char> {
    if i < 0 {
        seq!['-'] + nat_text((-i) as nat)
    } else {
        nat_text(i as nat)
    }
}

/// How one character stands inside a string literal: `"` and `\` get a
/// backslash before them, all other characters stand as they are.
pub open spec fn esc_char(c: char) -> Seq<char> {
    if c == '"' {
        seq!['\\', '"']
    } else if c == '\\' {
        seq!['\\', '\\']
    } else {
        seq![c]
    }
}

/// The contents of a string literal, character by character.
pub open spec fn escape_text(s: Seq<char>) -> Seq<char>
    decreases s.len(),
{
    if s.len() == 0 {
        Seq::empty()
    } else {
        escape_text(s.drop_last()) + esc_char(s.last())
    }
}

/// The source text of a form.
///
/// A two-element list whose head is the symbol `quote` prints as `'x`; any
/// other list prints in parentheses with one space between elements.
pub open spec fn form_text(f: FormV) -> Seq<char>
    decreases f, 1int,
{
    match f {
        FormV::Nil => "nil"@,
        FormV::Bool(b) => if b {
            "true"@
        } else {
            "false"@
        },
        FormV::Int(i) => int_text(i as int),
        FormV::Str(s) => seq!['"'] + escape_text(s) + seq!['"'],
        FormV::Sym(s) => s,
        FormV::Key(k) => seq![':'] + k,
        FormV::List(l) => {
            if l.len() == 2 && l[0] == FormV::Sym("quote"@) {
                seq!['\''] + form_text(l[1])
            } else if l.len() == 0 {
                seq!['(', ')']
            } else {
                seq!['('] + form_text(l[0]) + forms_rest_text(l.skip(1)) + seq![')']
            }
        },
    }
}

/// The source text of a list's elements after the first, each preceded by
/// one space.
pub open spec fn forms_rest_text(l: Seq<FormV>) -> Seq<char>
    decreases l, 0int,
{
    if l.len() == 0 {
        Seq::empty()
    } else {
        seq![' '] + form_text(l[0]) + forms_rest_text(l.skip(1))
    }
}

/// The character of a decimal digit.
fn digit_char(d: u32) -> (r: char)
    requires
        d < 10,
    ensures
        r == dec_digit(d as int),
{
    if d == 0 {
        '0'
    } else if d == 1 {
        '1'
    } else if d == 2 {
        '2'
    } else if d == 3 {
        '3'
    } else if d == 4 {
        '4'
    } else if d == 5 {
        '5'
    } else if d == 6 {
        '6'
    } else if d == 7 {
        '7'
    } else if d == 8 {
        '8'
    } else {
        '9'
    }
}

/// Appends the decimal digits of a natural number.
fn push_nat_text(n: u32, out: &mut Vec<char>)
    ensures
        final(out)@ == old(out)@ + nat_text(n as nat),
    decreases n,
{
    if n < 10 {
        out.push(digit_char(n));
        proof {
            assert(final(out)@ =~= old(out)@ + nat_text(n as nat));
        }
    } else {
        push_nat_text(n / 10, out);
        out.push(digit_char(n % 10));
        proof {
            assert(final(out)@ =~= old(out)@ + nat_text(n as nat));
        }
    }
}

/// Appends the decimal rendering of an integer.
fn push_int_text(i: i32, out: &mut Vec<char>)
    ensures
        final(out)@ == old(out)@ + int_text(i as int),
{
    if i < 0 {
        out.push('-');
        let m: u32 = (-(i as i64)) as u32;
        push_nat_text(m, out);
        proof {
            assert(final(out)@ =~= old(out)@ + int_text(i as int));
        }
    } else {
        push_nat_text(i as u32, out);
    }
}

/// Appends the characters of a string slice.
fn push_lit(lit: &str, out: &mut Vec<char>)
    ensures
        final(out)@ == old(out)@ + lit@,
{
    let mut cs = str_to_chars(lit);
    out.append(&mut cs);
}

/// Appends a string's contents with `"` and `\` escaped.
fn push_escaped(s: &str, out: &mut Vec<char>)
    ensures
        final(out)@ == old(out)@ + escape_text(s@),
{
    let cs = str_to_chars(s);
    let mut j: usize = 0;
    while j < cs.len()
        invariant
            j <= cs@.len(),
            cs@ == s@,
            out@ == old(out)@ + escape_text(s@.take(j as int)),
        decreases cs@.len() - j,
    {
        let c = cs[j];
        if c == '"' {
            out.push('\\');
            out.push('"');
        } else if c == '\\' {
            out.push('\\');
            out.push('\\');
        } else {
            out.push(c);
        }
        proof {
            assert(s@.take(j as int + 1).drop_last() =~= s@.take(j as int));
            assert(s@.take(j as int + 1).last() == s@[j as int]);
            assert(out@ =~= old(out)@ + escape_text(s@.take(j as int + 1)));
        }
        j += 1;
    }
    proof {
        assert(s@.take(s@.len() as int) =~= s@);
    }
}

/// Appends the source text of a form.
fn push_form_text(f: &Form, out: &mut Vec<char>)
    ensures
        final(out)@ == old(out)@ + form_text(f@),
    decreases *f,
{
    match f {
        Form::Nil => push_lit("nil", out),
        Form::Bool(b) => {
            if *b {
                push_lit("true", out);
            } else {
                push_lit("false", out);
            }
        },
        Form::Int(i) => push_int_text(*i, out),
        Form::String(s) => {
            out.push('"');
            push_escaped(s.as_str(), out);
            out.push('"');
            proof {
                assert(final(out)@ =~= old(out)@ + form_text(f@));
            }
        },
        Form::Symbol(s) => push_lit(s.as_str(), out),
        Form::Keyword(k) => {
            out.push(':');
            push_lit(k.as_str(), out);
            proof {
                assert(final(out)@ =~= old(out)@ + form_text(f@));
            }
        },
        Form::List(l) => {
            let ghost lv = forms_view(l@);
            proof {
                broadcast use lemma_forms_view;

                assert(decreases_to!(*f => f->List_0));
                assert(decreases_to!(*l => l@));
            }
            let quoted: bool = if l.len() == 2 {
                match &l[0] {
                    Form::Symbol(s) => {
                        let q: String = "quote".to_owned();
                        s.0 == q
                    },
                    _ => false,
                }
            } else {
                false
            };
            if quoted {
                out.push('\'');
                proof {
                    assert(decreases_to!(l@ => l@[1]));
                }
                push_form_text(&l[1], out);
                proof {
                    assert(lv[0] == FormV::Sym("quote"@));
                    assert(final(out)@ =~= old(out)@ + form_text(f@));
                }
            } else if l.len() == 0 {
                out.push('(');
                out.push(')');
                proof {
                    assert(final(out)@ =~= old(out)@ + form_text(f@));
                }
            } else {
                out.push('(');
                proof {
                    assert(decreases_to!(l@ => l@[0]));
                }
                push_form_text(&l[0], out);
                let ghost head = out@;
                let mut j: usize = 1;
                while j < l.len()
                    invariant
                        1 <= j <= l@.len(),
                        *f is List,
                        f->List_0 == *l,
                        lv == forms_view(l@),
                        lv.len() == l@.len(),
                        out@ + forms_rest_text(lv.skip(j as int)) == head + forms_rest_text(
                            lv.skip(1),
                        ),
                    decreases l@.len() - j,
                {
                    proof {
                        broadcast use lemma_forms_view;

                        assert(decreases_to!(*f => f->List_0));
                        assert(decreases_to!(*l => l@));
                        assert(decreases_to!(l@ => l@[j as int]));
                        assert(decreases_to!(*f => l@[j as int]));
                        assert(lv.skip(j as int)[0] == lv[j as int]);
                        assert(lv.skip(j as int).skip(1) =~= lv.skip(j as int + 1));
                    }
                    out.push(' ');
                    push_form_text(&l[j], out);
                    proof {
                        assert(out@ + forms_rest_text(lv.skip(j as int + 1)) =~= head
                            + forms_rest_text(lv.skip(1)));
                    }
                    j += 1;
                }
                out.push(')');
                proof {
                    assert(lv.skip(l@.len() as int).len() == 0);
                    assert(final(out)@ =~= old(out)@ + form_text(f@));
                }
            }
        },
    }
}

impl Form {
    /// The source text of the form; parsing it yields the form back.
    pub fn to_string(&self) -> (r: String)
        ensures
            r@ == form_text(self@),
    {
        let mut buf: Vec<char> = Vec::new();
        push_form_text(self, &mut buf);
        chars_to_string(&buf)
    }
}

/// The message of an error, as the host sees it.
pub open spec fn error_text(e: ErrorV) -> Seq<char> {
    match e {
        ErrorV::FailedToLex(d) => "Failed to lex - "@ + d,
        ErrorV::FailedToParse(d) => "Failed to parse - "@ + d,
        ErrorV::EmptyExpression => "Empty expression"@,
        ErrorV::InvalidExpression(d) => "Invalid expression - "@ + d,
        ErrorV::UnexpectedOperator(s) => "Unexpected operator - "@ + s,
        ErrorV::InvalidFormToExpr(d) => "Invalid form to expr - "@ + d,
        ErrorV::UndefinedSymbol(s) => "Undefined symbol - "@ + s,
        ErrorV::UnexpectedArguments(d) => "Unexpected arguments - "@ + d,
        ErrorV::InvalidArgumentsToFunctionCall =>
            "Evaluation error - Invalid arguments to function call"@,
        ErrorV::InvalidOperation => "Evaluation error - Invalid operation to call"@,
        ErrorV::UnexpectedStack(d) => "Unexpected stack state - "@ + d,
        ErrorV::NoMoreBytecode => "No more bytecode"@,
        ErrorV::OutOfFuel => "Out of fuel"@,
        ErrorV::AlreadyRunning => "Fiber is already running"@,
        ErrorV::AlreadyCompleted => "Fiber is already completed"@,
    }
}

impl Error {
    /// The error's message.
    pub fn to_text(&self) -> (r: String)
        ensures
            r@ == error_text(self@),
    {
        match self {
            Error::FailedToLex(d) => {
                let mut s = String::from_str("Failed to lex - ");
                s.append(d.as_str());
                s
            },
            Error::FailedToParse(d) => {
                let mut s = String::from_str("Failed to parse - ");
                s.append(d.as_str());
                s
            },
            Error::EmptyExpression => String::from_str("Empty expression"),
            Error::InvalidExpression(d) => {
                let mut s = String::from_str("Invalid expression - ");
                s.append(d.as_str());
                s
            },
            Error::UnexpectedOperator(d) => {
                let mut s = String::from_str("Unexpected operator - ");
                s.append(d.as_str());
                s
            },
            Error::InvalidFormToExpr(d) => {
                let mut s = String::from_str("Invalid form to expr - ");
                s.append(d.as_str());
                s
            },
            Error::UndefinedSymbol(d) => {
                let mut s = String::from_str("Undefined symbol - ");
                s.append(d.as_str());
                s
            },
            Error::UnexpectedArguments(d) => {
                let mut s = String::from_str("Unexpected arguments - ");
                s.append(d.as_str());
                s
            },
            Error::InvalidArgumentsToFunctionCall => String::from_str(
                "Evaluation error - Invalid arguments to function call",
            ),
            Error::InvalidOperation => String::from_str(
                "Evaluation error - Invalid operation to call",
            ),
            Error::UnexpectedStack(d) => {
                let mut s = String::from_str("Unexpected stack state - ");
                s.append(d.as_str());
                s
            },
            Error::NoMoreBytecode => String::from_str("No more bytecode"),
            Error::OutOfFuel => String::from_str("Out of fuel"),
            Error::AlreadyRunning => String::from_str("Fiber is already running"),
            Error::AlreadyCompleted => String::from_str("Fiber is already completed"),
        }
    }
}

/// Whether a value's rendering involves no extern payload, whose text only
/// the host knows.
pub open spec fn extern_free<E>(v: ValV<E>) -> bool
    decreases v,
{
    match v {
        ValV::Ext(_) => false,
        ValV::List(l) => vals_extern_free(l),
        _ => true,
    }
}

/// Whether every value of the sequence is free of extern payloads.
pub open spec fn vals_extern_free<E>(l: Seq<ValV<E>>) -> bool
    decreases l,
{
    l.len() == 0 || (vals_extern_free(l.drop_last()) && extern_free(l.last()))
}

/// A sequence is free of extern payloads exactly when each element is.
pub broadcast proof fn lemma_vals_extern_free<E>(l: Seq<ValV<E>>)
    ensures
        #[trigger] vals_extern_free(l) <==> (forall|i: int|
            0 <= i < l.len() ==> extern_free(#[trigger] l[i])),
    decreases l,
{
    if l.len() > 0 {
        lemma_vals_extern_free(l.drop_last());
        if vals_extern_free(l) {
            assert forall|i: int| 0 <= i < l.len() implies extern_free(#[trigger] l[i]) by {
                if i < l.len() - 1 {
                    assert(l.drop_last()[i] == l[i]);
                }
            }
        }
        if forall|i: int| 0 <= i < l.len() ==> extern_free(#[trigger] l[i]) {
            assert forall|i: int|
                0 <= i < l.drop_last().len() implies extern_free(
                #[trigger] l.drop_last()[i],
            ) by {
                assert(l.drop_last()[i] == l[i]);
            }
            assert(extern_free(l.last()));
        }
    }
}

/// The text of a lambda's parameter names, separated by one space.
pub open spec fn params_text(ps: Seq<Seq<char>>) -> Seq<char>
    decreases ps.len(),
{
    if ps.len() == 0 {
        Seq::empty()
    } else if ps.len() == 1 {
        ps[0]
    } else {
        params_text(ps.drop_last()) + seq![' '] + ps.last()
    }
}

/// The printed text of a value.
///
/// Atoms and lists print as source text; a lambda prints as
/// `<lambda (params)>`, a native function as `<nativefn name>`, bytecode as
/// `<bytecode>`, an error as `<error message>`. What an extern payload
/// prints only the host knows, so the text of a value holding one is left
/// unspecified.
pub open spec fn val_text<E>(v: ValV<E>) -> Seq<char>
    decreases v, 1int,
{
    match v {
        ValV::Nil => "nil"@,
        ValV::Bool(b) => if b {
            "true"@
        } else {
            "false"@
        },
        ValV::Int(i) => int_text(i as int),
        ValV::Str(s) => seq!['"'] + escape_text(s) + seq!['"'],
        ValV::Sym(s) => s,
        ValV::Key(k) => seq![':'] + k,
        ValV::List(l) => {
            if l.len() == 2 && l[0] == ValV::Sym::<E>("quote"@) {
                seq!['\''] + val_text(l[1])
            } else if l.len() == 0 {
                seq!['(', ')']
            } else {
                seq!['('] + val_text(l[0]) + vals_rest_text(l.skip(1)) + seq![')']
            }
        },
        ValV::Lambda(lm) => "<lambda ("@ + params_text(lm.params) + ")>"@,
        ValV::Native(n) => "<nativefn "@ + n.symbol + ">"@,
        ValV::Code(_) => "<bytecode>"@,
        ValV::ErrVal(e) => "<error "@ + error_text(e) + ">"@,
        ValV::Ext(_) => arbitrary(),
    }
}

/// The printed text of a list's elements after the first, each preceded by
/// one space.
pub open spec fn vals_rest_text<E>(l: Seq<ValV<E>>) -> Seq<char>
    decreases l, 0int,
{
    if l.len() == 0 {
        Seq::empty()
    } else {
        seq![' '] + val_text(l[0]) + vals_rest_text(l.skip(1))
    }
}

/// Appends the printed text of a value. The rendering of an extern payload
/// comes from the host and is not specified.
fn push_val_text<E: Extern>(v: &Val<E>, out: &mut Vec<char>)
    ensures
        extern_free(val_view(*v)) ==> final(out)@ == old(out)@ + val_text(val_view(*v)),
    decreases *v,
{
    match v {
        Val::Nil => push_lit("nil", out),
        Val::Bool(b) => {
            if *b {
                push_lit("true", out);
            } else {
                push_lit("false", out);
            }
        },
        Val::Int(i) => push_int_text(*i, out),
        Val::String(s) => {
            out.push('"');
            push_escaped(s.as_str(), out);
            out.push('"');
            proof {
                assert(final(out)@ =~= old(out)@ + val_text(val_view(*v)));
            }
        },
        Val::Symbol(s) => push_lit(s.as_str(), out),
        Val::Keyword(k) => {
            out.push(':');
            push_lit(k.as_str(), out);
            proof {
                assert(final(out)@ =~= old(out)@ + val_text(val_view(*v)));
            }
        },
        Val::List(l) => {
            let ghost lv = vals_view(l@);
            proof {
                broadcast use lemma_vals_view;

                assert(decreases_to!(*v => v->List_0));
                assert(decreases_to!(*l => l@));
            }
            let quoted: bool = if l.len() == 2 {
                match &l[0] {
                    Val::Symbol(s) => {
                        let q: String = "quote".to_owned();
                        s.0 == q
                    },
                    _ => false,
                }
            } else {
                false
            };
            if quoted {
                out.push('\'');
                proof {
                    assert(decreases_to!(l@ => l@[1]));
                }
                push_val_text(&l[1], out);
                proof {
                    assert(lv[0] == ValV::Sym::<E>("quote"@));
                    if extern_free(val_view(*v)) {
                        lemma_vals_extern_free(lv);
                        assert(extern_free(lv[1]));
                        assert(final(out)@ =~= old(out)@ + val_text(val_view(*v)));
                    }
                }
            } else if l.len() == 0 {
                out.push('(');
                out.push(')');
                proof {
                    assert(final(out)@ =~= old(out)@ + val_text(val_view(*v)));
                }
            } else {
                out.push('(');
                proof {
                    assert(decreases_to!(l@ => l@[0]));
                    if extern_free(val_view(*v)) {
                        lemma_vals_extern_free(lv);
                        assert(extern_free(lv[0]));
                    }
                }
                push_val_text(&l[0], out);
                let ghost head = out@;
                let mut j: usize = 1;
                while j < l.len()
                    invariant
                        1 <= j <= l@.len(),
                        *v is List,
                        v->List_0 == *l,
                        lv == vals_view(l@),
                        lv.len() == l@.len(),
                        extern_free(ValV::List(lv)) ==> out@ + vals_rest_text(lv.skip(j as int))
                            == head + vals_rest_text(lv.skip(1)),
                    decreases l@.len() - j,
                {
                    proof {
                        broadcast use lemma_vals_view;

                        assert(decreases_to!(*v => v->List_0));
                        assert(decreases_to!(*l => l@));
                        assert(decreases_to!(l@ => l@[j as int]));
                        assert(decreases_to!(*v => l@[j as int]));
                        assert(lv.skip(j as int)[0] == lv[j as int]);
                        assert(lv.skip(j as int).skip(1) =~= lv.skip(j as int + 1));
                        if extern_free(ValV::List(lv)) {
                            lemma_vals_extern_free(lv);
                            assert(extern_free(lv[j as int]));
                        }
                    }
                    out.push(' ');
                    push_val_text(&l[j], out);
                    proof {
                        if extern_free(ValV::List(lv)) {
                            assert(out@ + vals_rest_text(lv.skip(j as int + 1)) =~= head
                                + vals_rest_text(lv.skip(1)));
                        }
                    }
                    j += 1;
                }
                out.push(')');
                proof {
                    assert(lv.skip(l@.len() as int).len() == 0);
                    if extern_free(val_view(*v)) {
                        assert(final(out)@ =~= old(out)@ + val_text(val_view(*v)));
                    }
                }
            }
        },
        Val::Lambda(lm) => {
            push_lit("<lambda (", out);
            let ps = &lm.params;
            let mut j: usize = 0;
            while j < ps.len()
                invariant
                    j <= ps@.len(),
                    *v is Lambda,
                    v->Lambda_0.params == *ps,
                    out@ == old(out)@ + "<lambda ("@ + params_text(
                        crate::types::syms_view(ps@).take(j as int),
                    ),
                decreases ps@.len() - j,
            {
                if j > 0 {
                    out.push(' ');
                }
                push_lit(ps[j].as_str(), out);
                proof {
                    let sv = crate::types::syms_view(ps@);
                    assert(sv.take(j as int + 1).drop_last() =~= sv.take(j as int));
                    assert(sv.take(j as int + 1).last() == sv[j as int]);
                    if j == 0 {
                        assert(sv.take(1) =~= seq![sv[0]]);
                    }
                    assert(out@ =~= old(out)@ + "<lambda ("@ + params_text(
                        sv.take(j as int + 1),
                    ));
                }
                j += 1;
            }
            push_lit(")>", out);
            proof {
                let sv = crate::types::syms_view(ps@);
                assert(sv.take(sv.len() as int) =~= sv);
                assert(final(out)@ =~= old(out)@ + val_text(val_view(*v)));
            }
        },
        Val::NativeFn(n) => {
            push_lit("<nativefn ", out);
            push_lit(n.symbol.as_str(), out);
            push_lit(">", out);
            proof {
                assert(final(out)@ =~= old(out)@ + val_text(val_view(*v)));
            }
        },
        Val::Bytecode(_) => {
            push_lit("<bytecode>", out);
        },
        Val::Error(e) => {
            push_lit("<error ", out);
            let t = e.to_text();
            push_lit(t.as_str(), out);
            push_lit(">", out);
            proof {
                assert(final(out)@ =~= old(out)@ + val_text(val_view(*v)));
            }
        },
        Val::Extern(e) => {
            push_lit("<extern ", out);
            let t = e.to_text();
            push_lit(t.as_str(), out);
            out.push('>');
        },
    }
}

impl<E: Extern> Val<E> {
    /// The printed text of the value. For a value free of extern payloads
    /// the text is exactly [`val_text`] of its model; an extern payload
    /// prints as `<extern ...>` with text the host supplies.
    pub fn to_string(&self) -> (r: String)
        ensures
            extern_free(val_view(*self)) ==> r@ == val_text(val_view(*self)),
    {
        let mut buf: Vec<char> = Vec::new();
        push_val_text(self, &mut buf);
        chars_to_string(&buf)
    }
}

} // verus!
