//! Parsing of token streams into forms.
use vstd::prelude::*;

verus! {

use crate::error::{Error, ErrorV};
use crate::lex::{Token, TokenV, lemma_toks_view, lex, lex_text, toks_view};
use crate::types::{Form, FormV, SymbolId, form_view, forms_view, lemma_forms_view};

/// The form beginning at token `i`, with the index just past it.
pub open spec fn parse_at(toks: Seq<TokenV>, i: int) -> Result<(FormV, int), ErrorV>
    decreases toks.len() - i, 0int,
        when 0 <= i <= toks.len()
{
    if i >= toks.len() {
        Err(ErrorV::FailedToParse("unexpected end of input"@))
    } else {
        match toks[i] {
            TokenV::LParen => match parse_list(toks, i + 1) {
                Ok((items, j)) => Ok((FormV::List(items), j)),
                Err(e) => Err(e),
            },
            TokenV::RParen => Err(ErrorV::FailedToParse("unexpected closing paren"@)),
            TokenV::Quote => match parse_at(toks, i + 1) {
                Ok((f, j)) => Ok((FormV::List(seq![FormV::Sym("quote"@), f]), j)),
                Err(e) => Err(e),
            },
            TokenV::Num(n) => Ok((FormV::Int(n), i + 1)),
            TokenV::Text(s) => Ok((FormV::Str(s), i + 1)),
            TokenV::Sym(s) => Ok((FormV::Sym(s), i + 1)),
            TokenV::Key(k) => Ok((FormV::Key(k), i + 1)),
            TokenV::Boolean(b) => Ok((FormV::Bool(b), i + 1)),
            TokenV::Nil => Ok((FormV::Nil, i + 1)),
        }
    }
}

/// The elements of a list up to its closing paren, with the index just past
/// that paren. (Parsing one form always advances, so the guard on `j` only
/// settles termination; see `lemma_parse_progress`.)
pub open spec fn parse_list(toks: Seq<TokenV>, i: int) -> Result<(Seq<FormV>, int), ErrorV>
    decreases toks.len() - i, 1int,
        when 0 <= i <= toks.len()
{
    if i >= toks.len() {
        Err(ErrorV::FailedToParse("missing closing paren"@))
    } else if toks[i] is RParen {
        Ok((Seq::empty(), i + 1))
    } else {
        match parse_at(toks, i) {
            Err(e) => Err(e),
            Ok((f, j)) => if i < j <= toks.len() {
                match parse_list(toks, j) {
                    Ok((rest, k)) => Ok((seq![f] + rest, k)),
                    Err(e) => Err(e),
                }
            } else {
                Err(ErrorV::FailedToParse("no progress"@))
            },
        }
    }
}

/// Parsing one form, or a list's tail, always moves past at least one token
/// and never past the end.
pub proof fn lemma_parse_progress(toks: Seq<TokenV>, i: int)
    requires
        0 <= i <= toks.len(),
    ensures
        (parse_at(toks, i) matches Ok((f, j)) ==> i < j <= toks.len()),
        (parse_list(toks, i) matches Ok((l, j)) ==> i < j <= toks.len()),
    decreases toks.len() - i, 3int,
{
    if i < toks.len() {
        match toks[i] {
            TokenV::LParen => {
                lemma_parse_progress(toks, i + 1);
            },
            TokenV::Quote => {
                lemma_parse_progress(toks, i + 1);
            },
            _ => {},
        }
        if !(toks[i] is RParen) {
            lemma_parse_progress_list(toks, i);
        }
    }
}

/// Progress for a list's tail.
proof fn lemma_parse_progress_list(toks: Seq<TokenV>, i: int)
    requires
        0 <= i < toks.len(),
        !(toks[i] is RParen),
    ensures
        (parse_list(toks, i) matches Ok((l, j)) ==> i < j <= toks.len()),
    decreases toks.len() - i, 2int,
{
    match toks[i] {
        TokenV::LParen => {
            lemma_parse_progress(toks, i + 1);
        },
        TokenV::Quote => {
            lemma_parse_progress(toks, i + 1);
        },
        _ => {},
    }
    match parse_at(toks, i) {
        Ok((f, j)) => {
            if i < j <= toks.len() {
                lemma_parse_progress(toks, j);
            }
        },
        Err(_) => {},
    }
}

/// The form a text parses to: the text's tokens must form exactly one
/// expression, with nothing left over.
pub open spec fn parse_text(s: Seq<char>) -> Result<FormV, ErrorV> {
    match lex_text(s) {
        Err(e) => Err(e),
        Ok(toks) => match parse_at(toks, 0) {
            Err(e) => Err(e),
            Ok((f, j)) => if j == toks.len() {
                Ok(f)
            } else {
                Err(ErrorV::FailedToParse("unexpected trailing input"@))
            },
        },
    }
}

/// Parses the form beginning at token `i`.
fn parse_at_exec(toks: &Vec<Token>, i: usize) -> (r: Result<(Form, usize), Error>)
    requires
        i <= toks@.len(),
    ensures
        match parse_at(toks_view(toks@), i as int) {
            Ok((f, j)) => r is Ok && r->Ok_0.0@ == f && r->Ok_0.1 == j,
            Err(e) => r is Err && r->Err_0@ == e,
        },
    decreases toks@.len() - i, 0int,
{
    broadcast use lemma_toks_view;

    let ghost tv = toks_view(toks@);
    if i >= toks.len() {
        return Err(Error::FailedToParse("unexpected end of input".to_owned()));
    }
    match &toks[i] {
        Token::LParen => {
            match parse_list_exec(toks, i + 1) {
                Ok((items, j)) => {
                    proof {
                        broadcast use lemma_forms_view;
                    }
                    Ok((Form::List(items), j))
                },
                Err(e) => Err(e),
            }
        },
        Token::RParen => Err(Error::FailedToParse("unexpected closing paren".to_owned())),
        Token::Quote => {
            match parse_at_exec(toks, i + 1) {
                Ok((f, j)) => {
                    let mut items: Vec<Form> = Vec::new();
                    items.push(Form::symbol("quote"));
                    items.push(f);
                    proof {
                        broadcast use lemma_forms_view;

                        let fv = parse_at(tv, i as int + 1)->Ok_0.0;
                        assert(forms_view(items@) =~= seq![FormV::Sym("quote"@), fv]);
                    }
                    Ok((Form::List(items), j))
                },
                Err(e) => Err(e),
            }
        },
        Token::Num(n) => Ok((Form::Int(*n), i + 1)),
        Token::Text(s) => Ok((Form::String(s.clone()), i + 1)),
        Token::Symbol(s) => Ok((Form::Symbol(s.duplicate()), i + 1)),
        Token::Keyword(k) => Ok((Form::Keyword(k.duplicate()), i + 1)),
        Token::Boolean(b) => Ok((Form::Bool(*b), i + 1)),
        Token::Nil => Ok((Form::Nil, i + 1)),
    }
}

/// Parses a list's elements up to the closing paren.
fn parse_list_exec(toks: &Vec<Token>, i: usize) -> (r: Result<(Vec<Form>, usize), Error>)
    requires
        i <= toks@.len(),
    ensures
        match parse_list(toks_view(toks@), i as int) {
            Ok((l, j)) => r is Ok && forms_view(r->Ok_0.0@) == l && r->Ok_0.1 == j,
            Err(e) => r is Err && r->Err_0@ == e,
        },
    decreases toks@.len() - i, 1int,
{
    broadcast use lemma_toks_view;
    broadcast use lemma_forms_view;

    let ghost tv = toks_view(toks@);
    if i >= toks.len() {
        return Err(Error::FailedToParse("missing closing paren".to_owned()));
    }
    let closing = match &toks[i] {
        Token::RParen => true,
        _ => false,
    };
    if closing {
        let items: Vec<Form> = Vec::new();
        proof {
            assert(forms_view(items@) =~= Seq::<FormV>::empty());
        }
        return Ok((items, i + 1));
    }
    match parse_at_exec(toks, i) {
        Err(e) => Err(e),
        Ok((f, j)) => {
            proof {
                lemma_parse_progress(tv, i as int);
            }
            match parse_list_exec(toks, j) {
                Err(e) => Err(e),
                Ok((rest, k)) => {
                    let mut rest = rest;
                    rest.insert(0, f);
                    proof {
                        let fv = parse_at(tv, i as int)->Ok_0.0;
                        let restv = parse_list(tv, j as int)->Ok_0.0;
                        assert forall|x: int| 0 <= x < rest@.len() implies forms_view(rest@)[x]
                            == (seq![fv] + restv)[x] by {
                            if x > 0 {
                                assert(rest@[x] == rest@.subrange(1, rest@.len() as int)[x - 1]);
                            }
                        }
                        assert(forms_view(rest@) =~= seq![fv] + restv);
                    }
                    Ok((rest, k))
                },
            }
        },
    }
}

/// Parses source text into a form.
///
/// The result is exactly what [`parse_text`] gives on the text's characters:
/// the same form on acceptance, the same error on rejection.
pub fn parse(src: &str) -> (r: Result<Form, Error>)
    ensures
        match parse_text(src@) {
            Ok(f) => r is Ok && r->Ok_0@ == f,
            Err(e) => r is Err && r->Err_0@ == e,
        },
{
    let toks = match lex(src) {
        Ok(ts) => ts,
        Err(e) => {
            return Err(e);
        },
    };
    proof {
        lemma_toks_view(toks@);
    }
    match parse_at_exec(&toks, 0) {
        Err(e) => Err(e),
        Ok((f, j)) => {
            if j == toks.len() {
                proof {
                    lemma_toks_view(toks@);
                }
                Ok(f)
            } else {
                Err(Error::FailedToParse("unexpected trailing input".to_owned()))
            }
        },
    }
}

/// The tokens a form prints to.
pub open spec fn form_toks(f: FormV) -> Seq<TokenV>
    decreases f, 1int,
{
    match f {
        FormV::Nil => seq![TokenV::Nil],
        FormV::Bool(b) => seq![TokenV::Boolean(b)],
        FormV::Int(i) => seq![TokenV::Num(i)],
        FormV::Str(s) => seq![TokenV::Text(s)],
        FormV::Sym(s) => seq![TokenV::Sym(s)],
        FormV::Key(k) => seq![TokenV::Key(k)],
        FormV::List(l) => {
            if l.len() == 2 && l[0] == FormV::Sym("quote"@) {
                seq![TokenV::Quote] + form_toks(l[1])
            } else {
                seq![TokenV::LParen] + forms_toks(l) + seq![TokenV::RParen]
            }
        },
    }
}

/// The tokens of a sequence of forms, concatenated.
pub open spec fn forms_toks(l: Seq<FormV>) -> Seq<TokenV>
    decreases l, 0int,
{
    if l.len() == 0 {
        Seq::empty()
    } else {
        form_toks(l[0]) + forms_toks(l.skip(1))
    }
}

/// A form's tokens never begin with a closing paren, and never are empty.
proof fn lemma_form_toks_head(f: FormV)
    ensures
        form_toks(f).len() >= 1,
        !(form_toks(f)[0] is RParen),
    decreases f,
{
}

/// Parsing a form's tokens in any surrounding token stream yields the form
/// back, ending just past it.
pub proof fn lemma_parse_form_toks(f: FormV, toks: Seq<TokenV>, i: int)
    requires
        0 <= i,
        i + form_toks(f).len() <= toks.len(),
        toks.subrange(i, i + form_toks(f).len() as int) == form_toks(f),
    ensures
        parse_at(toks, i) == Ok::<(FormV, int), ErrorV>((f, i + form_toks(f).len())),
    decreases f, 1int,
{
    let ft = form_toks(f);
    assert(toks.subrange(i, i + ft.len() as int)[0] == ft[0]);
    assert(toks[i] == ft[0]);
    match f {
        FormV::List(l) => {
            if l.len() == 2 && l[0] == FormV::Sym("quote"@) {
                assert(toks[i] == TokenV::Quote);
                let inner = form_toks(l[1]);
                assert(ft == seq![TokenV::Quote] + inner);
                assert forall|x: int|
                    0 <= x < inner.len() implies toks.subrange(
                    i + 1,
                    i + 1 + inner.len() as int,
                )[x] == inner[x] by {
                    assert(toks.subrange(i, i + ft.len() as int)[x + 1] == ft[x + 1]);
                }
                assert(toks.subrange(i + 1, i + 1 + inner.len() as int) =~= inner);
                lemma_parse_form_toks(l[1], toks, i + 1);
                assert(seq![FormV::Sym("quote"@), parse_at(toks, i + 1)->Ok_0.0] =~= l);
            } else {
                assert(toks[i] == TokenV::LParen);
                let body = forms_toks(l);
                assert(ft == seq![TokenV::LParen] + body + seq![TokenV::RParen]);
                assert forall|x: int|
                    0 <= x < body.len() implies toks.subrange(
                    i + 1,
                    i + 1 + body.len() as int,
                )[x] == body[x] by {
                    assert(toks.subrange(i, i + ft.len() as int)[x + 1] == ft[x + 1]);
                    assert(ft[x + 1] == body[x]);
                }
                assert(toks.subrange(i + 1, i + 1 + body.len() as int) =~= body);
                assert(toks.subrange(i, i + ft.len() as int)[ft.len() - 1] == ft[ft.len() - 1]);
                assert(toks[i + 1 + body.len()] == TokenV::RParen);
                lemma_parse_forms_toks(l, toks, i + 1);
            }
        },
        _ => {},
    }
}

/// Parsing the concatenated tokens of a list's elements, followed by a
/// closing paren, yields the elements back, ending just past that paren.
proof fn lemma_parse_forms_toks(l: Seq<FormV>, toks: Seq<TokenV>, i: int)
    requires
        0 <= i,
        i + forms_toks(l).len() < toks.len(),
        toks.subrange(i, i + forms_toks(l).len() as int) == forms_toks(l),
        toks[i + forms_toks(l).len()] is RParen,
    ensures
        parse_list(toks, i) == Ok::<(Seq<FormV>, int), ErrorV>(
            (l, i + forms_toks(l).len() + 1),
        ),
    decreases l, 0int,
{
    if l.len() == 0 {
        assert(toks[i] is RParen);
        assert(parse_list(toks, i) == Ok::<(Seq<FormV>, int), ErrorV>((Seq::empty(), i + 1)));
        assert(l =~= Seq::<FormV>::empty());
    } else {
        let total = forms_toks(l);
        let ht = form_toks(l[0]);
        let rt = forms_toks(l.skip(1));
        assert(total == ht + rt);
        lemma_form_toks_head(l[0]);
        assert(toks.subrange(i, i + total.len() as int)[0] == total[0]);
        assert(total[0] == ht[0]);
        assert(toks[i] == ht[0]);
        assert(!(toks[i] is RParen));
        assert forall|x: int|
            0 <= x < ht.len() implies toks.subrange(i, i + ht.len() as int)[x] == ht[x] by {
            assert(toks.subrange(i, i + total.len() as int)[x] == total[x]);
            assert(total[x] == ht[x]);
        }
        assert(toks.subrange(i, i + ht.len() as int) =~= ht);
        lemma_parse_form_toks(l[0], toks, i);
        let j = i + ht.len();
        assert forall|x: int|
            0 <= x < rt.len() implies toks.subrange(j, j + rt.len() as int)[x] == rt[x] by {
            assert(toks.subrange(i, i + total.len() as int)[x + ht.len()] == total[x + ht.len()]);
            assert(total[x + ht.len()] == rt[x]);
        }
        assert(toks.subrange(j, j + rt.len() as int) =~= rt);
        assert(toks[j + rt.len()] is RParen);
        lemma_parse_forms_toks(l.skip(1), toks, j);
        assert(seq![l[0]] + l.skip(1) =~= l);
    }
}

/// A form parses back from its own token sequence: printing loses nothing
/// at the token level.
pub proof fn lemma_form_tokens_round_trip(f: FormV)
    ensures
        parse_at(form_toks(f), 0) == Ok::<(FormV, int), ErrorV>(
            (f, form_toks(f).len() as int),
        ),
{
    let toks = form_toks(f);
    assert(toks.subrange(0, toks.len() as int) =~= toks);
    lemma_parse_form_toks(f, toks, 0);
}

} // verus!
