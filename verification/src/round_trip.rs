//! The law of parsing and printing: printing a parsed form and parsing it
//! again yields the same form.
use vstd::prelude::*;

verus! {

use crate::error::ErrorV;
use crate::lex::{
    TokenV, all_digits, all_kw_chars, classify_run, digit_val, digits_val, int_run_val,
    int_shaped, is_delim, is_digit, is_kw_char, is_kw_start, kw_name_ok, lemma_all_digits,
    lemma_all_kw_chars, lex_comment, lex_cons, lex_run, lex_string, lex_text,
};
use crate::parse::{form_toks, forms_toks, lemma_parse_form_toks, parse_at, parse_list, parse_text};
use crate::print::{dec_digit, esc_char, escape_text, form_text, forms_rest_text, int_text, nat_text};
use crate::types::FormV;

/// No character of the sequence ends a run.
pub open spec fn no_delims(s: Seq<char>) -> bool
    decreases s.len(),
{
    s.len() == 0 || (no_delims(s.drop_last()) && !is_delim(s.last()))
}

/// A sequence is free of delimiters exactly when each character is.
pub broadcast proof fn lemma_no_delims(s: Seq<char>)
    ensures
        #[trigger] no_delims(s) <==> (forall|i: int| 0 <= i < s.len() ==> !is_delim(#[trigger] s[i])),
    decreases s.len(),
{
    if s.len() > 0 {
        lemma_no_delims(s.drop_last());
        if no_delims(s) {
            assert forall|i: int| 0 <= i < s.len() implies !is_delim(#[trigger] s[i]) by {
                if i < s.len() - 1 {
                    assert(s.drop_last()[i] == s[i]);
                }
            }
        }
        if forall|i: int| 0 <= i < s.len() ==> !is_delim(#[trigger] s[i]) {
            assert forall|i: int|
                0 <= i < s.drop_last().len() implies !is_delim(#[trigger] s.drop_last()[i]) by {
                assert(s.drop_last()[i] == s[i]);
            }
        }
    }
}

/// A symbol that prints and lexes as itself: nonempty, free of delimiters,
/// and classified back to the same symbol.
pub open spec fn wf_sym(s: Seq<char>) -> bool {
    &&& s.len() >= 1
    &&& no_delims(s)
    &&& classify_run(s) == Ok::<TokenV, ErrorV>(TokenV::Sym(s))
}

/// A form whose printed text lexes back to its own tokens: every symbol in
/// it is well formed and every keyword name is acceptable.
pub open spec fn wf_form(f: FormV) -> bool
    decreases f,
{
    match f {
        FormV::Sym(s) => wf_sym(s),
        FormV::Key(k) => kw_name_ok(k),
        FormV::List(l) => wf_forms(l),
        _ => true,
    }
}

/// Every form of the sequence is well formed.
pub open spec fn wf_forms(l: Seq<FormV>) -> bool
    decreases l,
{
    l.len() == 0 || (wf_forms(l.drop_last()) && wf_form(l.last()))
}

/// A sequence of forms is well formed exactly when each form is.
pub broadcast proof fn lemma_wf_forms(l: Seq<FormV>)
    ensures
        #[trigger] wf_forms(l) <==> (forall|i: int| 0 <= i < l.len() ==> wf_form(#[trigger] l[i])),
    decreases l.len(),
{
    if l.len() > 0 {
        lemma_wf_forms(l.drop_last());
        if wf_forms(l) {
            assert forall|i: int| 0 <= i < l.len() implies wf_form(#[trigger] l[i]) by {
                if i < l.len() - 1 {
                    assert(l.drop_last()[i] == l[i]);
                }
            }
        }
        if forall|i: int| 0 <= i < l.len() ==> wf_form(#[trigger] l[i]) {
            assert forall|i: int|
                0 <= i < l.drop_last().len() implies wf_form(#[trigger] l.drop_last()[i]) by {
                assert(l.drop_last()[i] == l[i]);
            }
        }
    }
}

/// The tokens of a lexing with one token put in front.
pub open spec fn prepend_toks(ts: Seq<TokenV>, r: Result<Seq<TokenV>, ErrorV>) -> Result<
    Seq<TokenV>,
    ErrorV,
> {
    match r {
        Ok(us) => Ok(ts + us),
        Err(e) => Err(e),
    }
}

/// Reading a run: the lexer collects exactly the delimiter-free characters
/// in front of a delimiter (or the end), then classifies them after what it
/// already held.
proof fn lemma_lex_run_collect(run_rest: Seq<char>, acc: Seq<char>, rest: Seq<char>)
    requires
        no_delims(run_rest),
        rest.len() == 0 || is_delim(rest[0]),
    ensures
        lex_run(run_rest + rest, acc) == (match classify_run(acc + run_rest) {
            Ok(t) => lex_cons(t, lex_text(rest)),
            Err(e) => Err::<Seq<TokenV>, ErrorV>(e),
        }),
    decreases run_rest.len(),
{
    broadcast use lemma_no_delims;

    if run_rest.len() == 0 {
        assert(run_rest + rest =~= rest);
        assert(acc + run_rest =~= acc);
    } else {
        let s = run_rest + rest;
        assert(s[0] == run_rest[0]);
        assert(!is_delim(s[0]));
        assert(s.len() > 0);
        assert(s.skip(1) =~= run_rest.skip(1) + rest);
        assert(acc.push(s[0]) =~= acc + seq![run_rest[0]]);
        assert(no_delims(run_rest.skip(1))) by {
            assert forall|i: int|
                0 <= i < run_rest.skip(1).len() implies !is_delim(
                #[trigger] run_rest.skip(1)[i],
            ) by {
                assert(run_rest.skip(1)[i] == run_rest[i + 1]);
            }
        }
        lemma_lex_run_collect(run_rest.skip(1), acc.push(s[0]), rest);
        assert((acc + seq![run_rest[0]]) + run_rest.skip(1) =~= acc + run_rest);
    }
}

/// Lexing a delimiter-free run in front of a delimiter (or the end)
/// classifies exactly that run.
proof fn lemma_lex_atom(text: Seq<char>, rest: Seq<char>)
    requires
        text.len() >= 1,
        no_delims(text),
        rest.len() == 0 || is_delim(rest[0]),
    ensures
        lex_text(text + rest) == (match classify_run(text) {
            Ok(t) => lex_cons(t, lex_text(rest)),
            Err(e) => Err::<Seq<TokenV>, ErrorV>(e),
        }),
{
    broadcast use lemma_no_delims;

    let s = text + rest;
    assert(s[0] == text[0]);
    assert(!is_delim(s[0]));
    assert(s.skip(1) =~= text.skip(1) + rest);
    assert(no_delims(text.skip(1))) by {
        assert forall|i: int|
            0 <= i < text.skip(1).len() implies !is_delim(#[trigger] text.skip(1)[i]) by {
            assert(text.skip(1)[i] == text[i + 1]);
        }
    }
    assert(lex_text(s) == lex_run(s.skip(1), seq![s[0]]));
    lemma_lex_run_collect(text.skip(1), seq![text[0]], rest);
    assert(seq![text[0]] + text.skip(1) =~= text);
}

/// Each decimal digit's character carries its value and is a digit.
proof fn lemma_dec_digit(d: int)
    requires
        0 <= d < 10,
    ensures
        is_digit(dec_digit(d)),
        digit_val(dec_digit(d)) == d,
        !is_delim(dec_digit(d)),
{
}

/// The decimal text of a natural number is a nonempty run of digits that is
/// worth the number itself.
proof fn lemma_nat_text(n: nat)
    ensures
        nat_text(n).len() >= 1,
        all_digits(nat_text(n)),
        no_delims(nat_text(n)),
        digits_val(nat_text(n)) == n,
        is_digit(nat_text(n)[0]),
    decreases n,
{
    broadcast use lemma_no_delims;
    broadcast use lemma_all_digits;

    if n < 10 {
        lemma_dec_digit(n as int);
        let w = nat_text(n);
        assert(w =~= seq![dec_digit(n as int)]);
        assert(w.drop_last() =~= Seq::<char>::empty());
        assert(w.last() == dec_digit(n as int));
        assert(digits_val(w) == digits_val(w.drop_last()) * 10 + digit_val(w.last()));
        assert(digits_val(w.drop_last()) == 0);
    } else {
        lemma_nat_text(n / 10);
        lemma_dec_digit((n % 10) as int);
        let w = nat_text(n);
        assert(w == nat_text(n / 10).push(dec_digit((n % 10) as int)));
        assert(w.drop_last() =~= nat_text(n / 10));
        assert(digits_val(w) == digits_val(nat_text(n / 10)) * 10 + digit_val(
            dec_digit((n % 10) as int),
        ));
        assert((n / 10) * 10 + n % 10 == n) by {
            vstd::arithmetic::div_mod::lemma_fundamental_div_mod(n as int, 10);
        }
        assert(w[0] == nat_text(n / 10)[0]);
        assert forall|i: int| 0 <= i < w.len() implies is_digit(#[trigger] w[i]) by {
            if i < w.len() - 1 {
                assert(w[i] == nat_text(n / 10)[i]);
            }
        }
        assert forall|i: int| 0 <= i < w.len() implies !is_delim(#[trigger] w[i]) by {
            if i < w.len() - 1 {
                assert(w[i] == nat_text(n / 10)[i]);
            }
        }
    }
}

/// The decimal text of a 32-bit integer classifies back to its number token.
proof fn lemma_int_text_classify(i: i32)
    ensures
        int_text(i as int).len() >= 1,
        no_delims(int_text(i as int)),
        classify_run(int_text(i as int)) == Ok::<TokenV, ErrorV>(TokenV::Num(i)),
{
    broadcast use lemma_no_delims;
    broadcast use lemma_all_digits;

    let t = int_text(i as int);
    reveal_strlit("nil");
    reveal_strlit("true");
    reveal_strlit("false");
    if i < 0 {
        lemma_nat_text((-(i as int)) as nat);
        let d = nat_text((-(i as int)) as nat);
        assert(t == seq!['-'] + d);
        assert(t[0] == '-');
        assert(t.skip(1) =~= d);
        assert forall|k: int| 0 <= k < t.len() implies !is_delim(#[trigger] t[k]) by {
            if k > 0 {
                assert(t[k] == d[k - 1]);
            }
        }
        assert(t != "nil"@ && t != "true"@ && t != "false"@) by {
            assert("nil"@[0] == 'n' && "true"@[0] == 't' && "false"@[0] == 'f');
        }
        assert(int_shaped(t));
        assert(int_run_val(t) == -digits_val(d));
        assert(int_run_val(t) == i as int);
        assert(i32::MIN <= int_run_val(t) <= i32::MAX);
    } else {
        lemma_nat_text((i as int) as nat);
        assert(t == nat_text((i as int) as nat));
        assert(t != "nil"@ && t != "true"@ && t != "false"@) by {
            assert("nil"@[0] == 'n' && "true"@[0] == 't' && "false"@[0] == 'f');
            assert(is_digit(t[0]));
        }
        assert(t[0] != '-') by {
            assert(is_digit(t[0]));
        }
        assert(int_shaped(t));
        assert(int_run_val(t) == i as int);
    }
}

/// The escaped text of a string unfolds from the front, one character's
/// escape at a time.
proof fn lemma_escape_unfold(s: Seq<char>)
    requires
        s.len() >= 1,
    ensures
        escape_text(s) == esc_char(s[0]) + escape_text(s.skip(1)),
    decreases s.len(),
{
    if s.len() == 1 {
        assert(s.drop_last() =~= Seq::<char>::empty());
        assert(s.skip(1) =~= Seq::<char>::empty());
        assert(escape_text(s) == escape_text(s.drop_last()) + esc_char(s.last()));
        assert(Seq::<char>::empty() + esc_char(s[0]) =~= esc_char(s[0]));
        assert(esc_char(s[0]) + escape_text(s.skip(1)) =~= esc_char(s[0]));
    } else {
        let dl = s.drop_last();
        lemma_escape_unfold(dl);
        assert(dl[0] == s[0]);
        assert(escape_text(s) == escape_text(dl) + esc_char(s.last()));
        assert(escape_text(dl) == esc_char(s[0]) + escape_text(dl.skip(1)));
        assert(dl.skip(1) =~= s.skip(1).drop_last());
        assert(s.skip(1).last() == s.last());
        assert(escape_text(s.skip(1)) == escape_text(s.skip(1).drop_last()) + esc_char(s.last()));
        assert((esc_char(s[0]) + escape_text(dl.skip(1))) + esc_char(s.last()) =~= esc_char(s[0])
            + (escape_text(s.skip(1).drop_last()) + esc_char(s.last())));
    }
}

/// Reading a string literal: the lexer undoes the escaping and collects
/// exactly the string's characters up to the closing quote.
proof fn lemma_lex_string_print(s: Seq<char>, acc: Seq<char>, rest: Seq<char>)
    ensures
        lex_string(escape_text(s) + (seq!['"'] + rest), acc) == lex_cons(
            TokenV::Text(acc + s),
            lex_text(rest),
        ),
    decreases s.len(),
{
    if s.len() == 0 {
        assert(escape_text(s) + (seq!['"'] + rest) =~= seq!['"'] + rest);
        let t = seq!['"'] + rest;
        assert(t[0] == '"');
        assert(t.skip(1) =~= rest);
        assert(acc + s =~= acc);
    } else {
        lemma_escape_unfold(s);
        let t = escape_text(s) + (seq!['"'] + rest);
        let c = s[0];
        assert(t =~= esc_char(c) + (escape_text(s.skip(1)) + (seq!['"'] + rest)));
        let t2 = escape_text(s.skip(1)) + (seq!['"'] + rest);
        if c == '"' || c == '\\' {
            assert(esc_char(c) == seq!['\\', c]);
            assert(t[0] == '\\');
            assert(t.len() >= 2);
            assert(t[1] == c);
            assert(t.skip(2) =~= t2);
            lemma_lex_string_print(s.skip(1), acc.push(c), rest);
            assert(acc.push(c) + s.skip(1) =~= acc + s);
        } else {
            assert(esc_char(c) == seq![c]);
            assert(t[0] == c);
            assert(t.skip(1) =~= t2);
            lemma_lex_string_print(s.skip(1), acc.push(c), rest);
            assert(acc.push(c) + s.skip(1) =~= acc + s);
        }
    }
}

/// A keyword's characters end no run.
proof fn lemma_kw_char_not_delim(c: char)
    requires
        is_kw_char(c),
    ensures
        !is_delim(c),
{
}

/// Lexing the printed text of a well-formed form, in front of a delimiter or
/// the end of input, yields the form's tokens followed by the rest of the
/// lexing.
#[verifier::rlimit(100)]
#[verifier::spinoff_prover]
pub proof fn lemma_lex_print(f: FormV, rest: Seq<char>)
    requires
        wf_form(f),
        rest.len() == 0 || is_delim(rest[0]),
    ensures
        lex_text(form_text(f) + rest) == prepend_toks(form_toks(f), lex_text(rest)),
    decreases f, 1int,
{
    broadcast use lemma_no_delims;

    reveal_strlit("nil");
    reveal_strlit("true");
    reveal_strlit("false");
    match f {
        FormV::Nil => {
            assert(no_delims("nil"@)) by {
                assert forall|i: int| 0 <= i < "nil"@.len() implies !is_delim(
                    #[trigger] "nil"@[i],
                ) by {}
            }
            lemma_lex_atom("nil"@, rest);
            assert(classify_run("nil"@) == Ok::<TokenV, ErrorV>(TokenV::Nil));
        },
        FormV::Bool(b) => {
            if b {
                assert(no_delims("true"@)) by {
                    assert forall|i: int| 0 <= i < "true"@.len() implies !is_delim(
                        #[trigger] "true"@[i],
                    ) by {}
                }
                lemma_lex_atom("true"@, rest);
                assert("true"@ != "nil"@);
                assert(classify_run("true"@) == Ok::<TokenV, ErrorV>(TokenV::Boolean(true)));
            } else {
                assert(no_delims("false"@)) by {
                    assert forall|i: int| 0 <= i < "false"@.len() implies !is_delim(
                        #[trigger] "false"@[i],
                    ) by {}
                }
                lemma_lex_atom("false"@, rest);
                assert("false"@ != "nil"@ && "false"@ != "true"@);
                assert(classify_run("false"@) == Ok::<TokenV, ErrorV>(TokenV::Boolean(false)));
            }
        },
        FormV::Int(i) => {
            lemma_int_text_classify(i);
            lemma_lex_atom(int_text(i as int), rest);
        },
        FormV::Str(st) => {
            let text = form_text(f);
            assert(text == seq!['"'] + escape_text(st) + seq!['"']);
            let total = text + rest;
            assert(total[0] == '"');
            assert(!crate::lex::is_ws(total[0]) && total[0] != ';' && total[0] != '(' && total[0] != ')'
                && total[0] != '\'');
            assert(total.skip(1) =~= escape_text(st) + (seq!['"'] + rest));
            assert(lex_text(total) == lex_string(total.skip(1), Seq::empty()));
            lemma_lex_string_print(st, Seq::empty(), rest);
            assert(Seq::<char>::empty() + st =~= st);
        },
        FormV::Sym(sy) => {
            lemma_lex_atom(sy, rest);
        },
        FormV::Key(k) => {
            let text = form_text(f);
            assert(text == seq![':'] + k);
            assert(text.len() >= 1 && text[0] == ':');
            assert(no_delims(text)) by {
                crate::lex::lemma_all_kw_chars(k.skip(1));
                assert(all_kw_chars(k.skip(1)));
                assert forall|i: int| 0 <= i < text.len() implies !is_delim(
                    #[trigger] text[i],
                ) by {
                    if i == 0 {
                    } else if i == 1 {
                        assert(text[i] == k[0]);
                        assert(is_kw_start(k[0]));
                        lemma_kw_start_not_delim(k[0]);
                    } else {
                        assert(text[i] == k[i - 1]);
                        assert(k.skip(1)[i - 2] == k[i - 1]);
                        assert(is_kw_char(k[i - 1]));
                        lemma_kw_char_not_delim(k[i - 1]);
                    }
                }
            }
            lemma_lex_atom(text, rest);
            assert(text != "nil"@ && text != "true"@ && text != "false"@) by {
                assert("nil"@[0] == 'n' && "true"@[0] == 't' && "false"@[0] == 'f');
            }
            assert(text[0] != '-' && !is_digit(text[0]));
            assert(text.skip(1) =~= k);
            assert(classify_run(text) == Ok::<TokenV, ErrorV>(TokenV::Key(k)));
        },
        FormV::List(l) => {
            lemma_wf_forms(l);
            let text = form_text(f);
            if l.len() == 2 && l[0] == FormV::Sym("quote"@) {
                assert(text == seq!['\''] + form_text(l[1]));
                let total = text + rest;
                assert(total[0] == '\'');
                assert(total.skip(1) =~= form_text(l[1]) + rest);
                assert(lex_text(total) == lex_cons(TokenV::Quote, lex_text(total.skip(1))));
                assert(wf_form(l[1]));
                lemma_lex_print(l[1], rest);
                match lex_text(rest) {
                    Ok(ts) => {
                        assert(seq![TokenV::Quote] + (form_toks(l[1]) + ts) =~= (seq![
                            TokenV::Quote,
                        ] + form_toks(l[1])) + ts);
                    },
                    Err(_) => {},
                }
            } else if l.len() == 0 {
                assert(text == seq!['(', ')']);
                let total = text + rest;
                assert(total[0] == '(');
                assert(total.skip(1) =~= seq![')'] + rest);
                assert((seq![')'] + rest)[0] == ')');
                assert((seq![')'] + rest).skip(1) =~= rest);
                assert(forms_toks(l) =~= Seq::<TokenV>::empty());
                match lex_text(rest) {
                    Ok(ts) => {
                        assert(seq![TokenV::LParen] + (seq![TokenV::RParen] + ts) =~= (seq![
                            TokenV::LParen,
                        ] + forms_toks(l) + seq![TokenV::RParen]) + ts);
                    },
                    Err(_) => {},
                }
            } else {
                assert(text == seq!['('] + form_text(l[0]) + forms_rest_text(l.skip(1)) + seq![
                    ')',
                ]);
                let total = text + rest;
                assert(total[0] == '(');
                let after = form_text(l[0]) + (forms_rest_text(l.skip(1)) + (seq![')'] + rest));
                assert(total.skip(1) =~= after);
                assert(lex_text(total) == lex_cons(TokenV::LParen, lex_text(after)));
                let mid = forms_rest_text(l.skip(1)) + (seq![')'] + rest);
                assert(mid.len() >= 1);
                if l.skip(1).len() == 0 {
                    assert(forms_rest_text(l.skip(1)) =~= Seq::<char>::empty());
                    assert(mid =~= seq![')'] + rest);
                    assert(is_delim(mid[0]));
                } else {
                    assert(forms_rest_text(l.skip(1))[0] == ' ');
                    assert(mid[0] == ' ');
                    assert(is_delim(mid[0]));
                }
                assert(wf_form(l[0]));
                lemma_lex_print(l[0], mid);
                lemma_wf_forms(l.skip(1));
                assert(wf_forms(l.skip(1))) by {
                    assert forall|i: int| 0 <= i < l.skip(1).len() implies wf_form(
                        #[trigger] l.skip(1)[i],
                    ) by {
                        assert(l.skip(1)[i] == l[i + 1]);
                    }
                }
                lemma_lex_print_elems(l.skip(1), seq![')'] + rest);
                assert((seq![')'] + rest)[0] == ')');
                assert((seq![')'] + rest).skip(1) =~= rest);
                assert(lex_text(seq![')'] + rest) == lex_cons(TokenV::RParen, lex_text(rest)));
                assert(forms_toks(l) == form_toks(l[0]) + forms_toks(l.skip(1)));
                match lex_text(rest) {
                    Ok(ts) => {
                        assert(seq![TokenV::LParen] + (form_toks(l[0]) + (forms_toks(l.skip(1))
                            + (seq![TokenV::RParen] + ts))) =~= (seq![TokenV::LParen] + forms_toks(
                            l,
                        ) + seq![TokenV::RParen]) + ts);
                    },
                    Err(_) => {},
                }
            }
        },
    }
}

/// A keyword's first character ends no run.
proof fn lemma_kw_start_not_delim(c: char)
    requires
        is_kw_start(c),
    ensures
        !is_delim(c),
{
}

/// Lexing the printed text of well-formed list elements, each preceded by a
/// space and followed by a delimiter, yields their tokens in order.
proof fn lemma_lex_print_elems(l: Seq<FormV>, rest: Seq<char>)
    requires
        wf_forms(l),
        rest.len() >= 1,
        is_delim(rest[0]),
    ensures
        lex_text(forms_rest_text(l) + rest) == prepend_toks(forms_toks(l), lex_text(rest)),
    decreases l, 0int,
{
    lemma_wf_forms(l);

    if l.len() == 0 {
        assert(forms_rest_text(l) + rest =~= rest);
        assert(forms_toks(l) =~= Seq::<TokenV>::empty());
        match lex_text(rest) {
            Ok(ts) => {
                assert(Seq::<TokenV>::empty() + ts =~= ts);
            },
            Err(_) => {},
        }
    } else {
        let text = forms_rest_text(l) + rest;
        assert(forms_rest_text(l) == seq![' '] + form_text(l[0]) + forms_rest_text(l.skip(1)));
        assert(text[0] == ' ');
        let after = form_text(l[0]) + (forms_rest_text(l.skip(1)) + rest);
        assert(text.skip(1) =~= after);
        assert(lex_text(text) == lex_text(after));
        assert(wf_form(l[0]));
        let mid = forms_rest_text(l.skip(1)) + rest;
        if l.skip(1).len() == 0 {
            assert(mid =~= rest);
        } else {
            assert(forms_rest_text(l.skip(1))[0] == ' ');
            assert(mid[0] == ' ');
        }
        lemma_lex_print(l[0], mid);
        lemma_wf_forms(l.skip(1));
        assert(wf_forms(l.skip(1))) by {
            assert forall|i: int| 0 <= i < l.skip(1).len() implies wf_form(
                #[trigger] l.skip(1)[i],
            ) by {
                assert(l.skip(1)[i] == l[i + 1]);
            }
        }
        lemma_lex_print_elems(l.skip(1), rest);
        assert(forms_toks(l) == form_toks(l[0]) + forms_toks(l.skip(1)));
        match lex_text(rest) {
            Ok(ts) => {
                assert(form_toks(l[0]) + (forms_toks(l.skip(1)) + ts) =~= forms_toks(l) + ts);
            },
            Err(_) => {},
        }
    }
}

/// The printed text of a well-formed form parses back to the form itself.
pub proof fn lemma_print_parse_round_trip(f: FormV)
    requires
        wf_form(f),
    ensures
        parse_text(form_text(f)) == Ok::<FormV, ErrorV>(f),
{
    lemma_lex_print(f, Seq::empty());
    assert(form_text(f) + Seq::<char>::empty() =~= form_text(f));
    assert(lex_text(Seq::<char>::empty()) == Ok::<Seq<TokenV>, ErrorV>(Seq::empty()));
    assert(form_toks(f) + Seq::<TokenV>::empty() =~= form_toks(f));
    assert(lex_text(form_text(f)) == Ok::<Seq<TokenV>, ErrorV>(form_toks(f)));
    crate::parse::lemma_form_tokens_round_trip(f);
}

/// A token whose payload prints and lexes as itself.
pub open spec fn tok_wf(t: TokenV) -> bool {
    match t {
        TokenV::Sym(s) => wf_sym(s),
        TokenV::Key(k) => kw_name_ok(k),
        _ => true,
    }
}

/// Every token of the sequence is well formed.
pub open spec fn toks_wf(ts: Seq<TokenV>) -> bool
    decreases ts.len(),
{
    ts.len() == 0 || (toks_wf(ts.drop_last()) && tok_wf(ts.last()))
}

/// A sequence of tokens is well formed exactly when each token is.
proof fn lemma_toks_wf(ts: Seq<TokenV>)
    ensures
        toks_wf(ts) <==> (forall|i: int| 0 <= i < ts.len() ==> tok_wf(#[trigger] ts[i])),
    decreases ts.len(),
{
    if ts.len() > 0 {
        lemma_toks_wf(ts.drop_last());
        if toks_wf(ts) {
            assert forall|i: int| 0 <= i < ts.len() implies tok_wf(#[trigger] ts[i]) by {
                if i < ts.len() - 1 {
                    assert(ts.drop_last()[i] == ts[i]);
                }
            }
        }
        if forall|i: int| 0 <= i < ts.len() ==> tok_wf(#[trigger] ts[i]) {
            assert forall|i: int|
                0 <= i < ts.drop_last().len() implies tok_wf(#[trigger] ts.drop_last()[i]) by {
                assert(ts.drop_last()[i] == ts[i]);
            }
        }
    }
}

/// A well-formed token in front of well-formed tokens.
proof fn lemma_toks_wf_cons(t: TokenV, ts: Seq<TokenV>)
    requires
        tok_wf(t),
        toks_wf(ts),
    ensures
        toks_wf(seq![t] + ts),
{
    lemma_toks_wf(ts);
    lemma_toks_wf(seq![t] + ts);
    assert forall|i: int| 0 <= i < (seq![t] + ts).len() implies tok_wf(
        #[trigger] (seq![t] + ts)[i],
    ) by {
        if i > 0 {
            assert((seq![t] + ts)[i] == ts[i - 1]);
        }
    }
}

/// Every token the lexer accepts is well formed.
proof fn lemma_lex_text_wf(s: Seq<char>)
    ensures
        lex_text(s) matches Ok(ts) ==> toks_wf(ts),
    decreases s.len(), 0int,
{
    broadcast use lemma_no_delims;

    if s.len() == 0 {
    } else if crate::lex::is_ws(s[0]) {
        lemma_lex_text_wf(s.skip(1));
    } else if s[0] == ';' {
        lemma_lex_comment_wf(s.skip(1));
    } else if s[0] == '(' || s[0] == ')' || s[0] == '\'' {
        lemma_lex_text_wf(s.skip(1));
        match lex_text(s.skip(1)) {
            Ok(ts) => {
                lemma_toks_wf_cons(TokenV::LParen, ts);
                lemma_toks_wf_cons(TokenV::RParen, ts);
                lemma_toks_wf_cons(TokenV::Quote, ts);
            },
            Err(_) => {},
        }
    } else if s[0] == '"' {
        lemma_lex_string_wf(s.skip(1), Seq::empty());
    } else {
        assert(no_delims(seq![s[0]])) by {
            assert forall|i: int| 0 <= i < seq![s[0]].len() implies !is_delim(
                #[trigger] seq![s[0]][i],
            ) by {}
        }
        lemma_lex_run_wf(s.skip(1), seq![s[0]]);
    }
}

/// Inside a comment the lexer adds no tokens.
proof fn lemma_lex_comment_wf(s: Seq<char>)
    ensures
        lex_comment(s) matches Ok(ts) ==> toks_wf(ts),
    decreases s.len(), 1int,
{
    if s.len() == 0 {
    } else if s[0] == '\n' {
        lemma_lex_text_wf(s.skip(1));
    } else {
        lemma_lex_comment_wf(s.skip(1));
    }
}

/// Inside a string literal the lexer adds one text token, which is always
/// well formed.
proof fn lemma_lex_string_wf(s: Seq<char>, acc: Seq<char>)
    ensures
        lex_string(s, acc) matches Ok(ts) ==> toks_wf(ts),
    decreases s.len(), 1int,
{
    if s.len() == 0 {
    } else if s[0] == '"' {
        lemma_lex_text_wf(s.skip(1));
        match lex_text(s.skip(1)) {
            Ok(ts) => {
                lemma_toks_wf_cons(TokenV::Text(acc), ts);
            },
            Err(_) => {},
        }
    } else if s[0] == '\\' {
        if s.len() >= 2 {
            lemma_lex_string_wf(s.skip(2), acc.push(s[1]));
        }
    } else {
        lemma_lex_string_wf(s.skip(1), acc.push(s[0]));
    }
}

/// Inside a run the lexer adds one token that classifies the collected
/// characters; a symbol token collected this way is well formed.
proof fn lemma_lex_run_wf(s: Seq<char>, acc: Seq<char>)
    requires
        acc.len() >= 1,
        no_delims(acc),
    ensures
        lex_run(s, acc) matches Ok(ts) ==> toks_wf(ts),
    decreases s.len(), 1int,
{
    broadcast use lemma_no_delims;

    if s.len() == 0 || is_delim(s[0]) {
        match classify_run(acc) {
            Ok(t) => {
                assert(tok_wf(t)) by {
                    if t is Sym {
                        assert(t == TokenV::Sym(acc));
                        assert(wf_sym(acc));
                    }
                }
                lemma_lex_text_wf(s);
                match lex_text(s) {
                    Ok(ts) => {
                        lemma_toks_wf_cons(t, ts);
                    },
                    Err(_) => {},
                }
            },
            Err(_) => {},
        }
    } else {
        assert(no_delims(acc.push(s[0]))) by {
            assert forall|i: int| 0 <= i < acc.push(s[0]).len() implies !is_delim(
                #[trigger] acc.push(s[0])[i],
            ) by {
                if i < acc.len() {
                    assert(acc.push(s[0])[i] == acc[i]);
                }
            }
        }
        lemma_lex_run_wf(s.skip(1), acc.push(s[0]));
    }
}

/// The symbol `quote`, which the parser writes for the reader macro, is well
/// formed.
proof fn lemma_wf_quote_sym()
    ensures
        wf_sym("quote"@),
{
    broadcast use lemma_no_delims;

    reveal_strlit("quote");
    reveal_strlit("nil");
    reveal_strlit("true");
    reveal_strlit("false");
    let q = "quote"@;
    assert(no_delims(q)) by {
        assert forall|i: int| 0 <= i < q.len() implies !is_delim(#[trigger] q[i]) by {}
    }
    assert(q != "nil"@ && q != "true"@ && q != "false"@) by {
        assert(q[0] == 'q');
        assert("nil"@[0] == 'n' && "true"@[0] == 't' && "false"@[0] == 'f');
    }
    assert(q[0] != '-' && !is_digit(q[0]) && q[0] != ':');
    assert(classify_run(q) == Ok::<TokenV, ErrorV>(TokenV::Sym(q)));
}

/// Every form parsed from well-formed tokens is well formed.
proof fn lemma_parse_wf(toks: Seq<TokenV>, i: int)
    requires
        toks_wf(toks),
        0 <= i <= toks.len(),
    ensures
        (parse_at(toks, i) matches Ok((f, j)) ==> wf_form(f)),
    decreases toks.len() - i, 1int,
{
    lemma_toks_wf(toks);
    if i < toks.len() {
        match toks[i] {
            TokenV::LParen => {
                lemma_parse_list_wf(toks, i + 1);
                match parse_list(toks, i + 1) {
                    Ok((items, _)) => {
                        assert(wf_form(FormV::List(items)));
                    },
                    Err(_) => {},
                }
            },
            TokenV::Quote => {
                lemma_parse_wf(toks, i + 1);
                match parse_at(toks, i + 1) {
                    Ok((f, _)) => {
                        lemma_wf_quote_sym();
                        let l = seq![FormV::Sym("quote"@), f];
                        lemma_wf_forms(l);
                        assert forall|k: int| 0 <= k < l.len() implies wf_form(
                            #[trigger] l[k],
                        ) by {}
                        assert(wf_forms(l));
                    },
                    Err(_) => {},
                }
            },
            TokenV::Sym(sy) => {
                assert(tok_wf(toks[i]));
                assert(wf_sym(sy));
            },
            TokenV::Key(k) => {
                assert(tok_wf(toks[i]));
            },
            _ => {},
        }
    }
}

/// Every list parsed from well-formed tokens holds well-formed forms.
proof fn lemma_parse_list_wf(toks: Seq<TokenV>, i: int)
    requires
        toks_wf(toks),
        0 <= i <= toks.len(),
    ensures
        (parse_list(toks, i) matches Ok((l, j)) ==> wf_forms(l)),
    decreases toks.len() - i, 2int,
{
    if i < toks.len() && !(toks[i] is RParen) {
        lemma_parse_wf(toks, i);
        match parse_at(toks, i) {
            Ok((f, j)) => {
                if i < j <= toks.len() {
                    lemma_parse_list_wf(toks, j);
                    match parse_list(toks, j) {
                        Ok((rest, _)) => {
                            lemma_wf_forms(rest);
                            let l = seq![f] + rest;
                            lemma_wf_forms(l);
                            assert forall|k: int| 0 <= k < l.len() implies wf_form(
                                #[trigger] l[k],
                            ) by {
                                if k > 0 {
                                    assert(l[k] == rest[k - 1]);
                                }
                            }
                            assert(wf_forms(l));
                        },
                        Err(_) => {},
                    }
                }
            },
            Err(_) => {},
        }
    }
}

/// The law of parsing and printing: any parsed form is well formed, and
/// printing it and parsing that text yields the form back.
pub proof fn lemma_parse_print_round_trip(src: Seq<char>, f: FormV)
    requires
        parse_text(src) == Ok::<FormV, ErrorV>(f),
    ensures
        wf_form(f),
        parse_text(form_text(f)) == Ok::<FormV, ErrorV>(f),
{
    match lex_text(src) {
        Ok(toks) => {
            lemma_lex_text_wf(src);
            lemma_parse_wf(toks, 0);
            lemma_print_parse_round_trip(f);
        },
        Err(_) => {
            assert(false);
        },
    }
}

} // verus!
