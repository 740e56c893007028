//! Tokenization of source text.
use vstd::prelude::*;

verus! {

use crate::chars::{chars_to_string, str_to_chars};
use crate::error::{Error, ErrorV};
use crate::types::{KeywordId, SymbolId};

/// A token of source text.
#[derive(Debug, PartialEq)]
pub enum Token {
    LParen,
    RParen,
    Quote,
    Num(i32),
    Text(String),
    Symbol(SymbolId),
    Keyword(KeywordId),
    Boolean(bool),
    Nil,
}

/// The mathematical model of a [`Token`].
pub enum TokenV {
    LParen,
    RParen,
    Quote,
    Num(i32),
    Text(Seq<char>),
    Sym(Seq<char>),
    Key(Seq<char>),
    Boolean(bool),
    Nil,
}

impl View for Token {
    type V = TokenV;

    open spec fn view(&self) -> TokenV {
        match self {
            Token::LParen => TokenV::LParen,
            Token::RParen => TokenV::RParen,
            Token::Quote => TokenV::Quote,
            Token::Num(n) => TokenV::Num(*n),
            Token::Text(s) => TokenV::Text(s@),
            Token::Symbol(s) => TokenV::Sym(s@),
            Token::Keyword(k) => TokenV::Key(k@),
            Token::Boolean(b) => TokenV::Boolean(*b),
            Token::Nil => TokenV::Nil,
        }
    }
}

/// Model of a sequence of tokens.
pub open spec fn toks_view(l: Seq<Token>) -> Seq<TokenV>
    decreases l,
{
    if l.len() == 0 {
        Seq::empty()
    } else {
        toks_view(l.drop_last()).push(l.last()@)
    }
}

/// The element of `toks_view` at each index is the model of the element of
/// the underlying sequence at that index.
pub broadcast proof fn lemma_toks_view(l: Seq<Token>)
    ensures
        (#[trigger] toks_view(l)).len() == l.len(),
        forall|i: int| 0 <= i < l.len() ==> toks_view(l)[i] == l[i]@,
    decreases l,
{
    if l.len() > 0 {
        lemma_toks_view(l.drop_last());
    }
}

/// Whitespace between tokens.
pub open spec fn is_ws(c: char) -> bool {
    c == ' ' || c == '\t' || c == '\n' || c == '\r'
}

/// A character that ends a symbol or number run.
pub open spec fn is_delim(c: char) -> bool {
    is_ws(c) || c == '(' || c == ')' || c == '\'' || c == '"' || c == ';'
}

/// A decimal digit.
pub open spec fn is_digit(c: char) -> bool {
    '0' <= c <= '9'
}

/// The value of a decimal digit.
pub open spec fn digit_val(c: char) -> int {
    c as int - '0' as int
}

/// A character that may start a keyword name.
pub open spec fn is_kw_start(c: char) -> bool {
    ('A' <= c <= 'Z') || ('a' <= c <= 'z') || c == '_'
}

/// A character that may continue a keyword name.
pub open spec fn is_kw_char(c: char) -> bool {
    is_kw_start(c) || is_digit(c) || c == '-'
}

/// Whether every character is a decimal digit.
pub open spec fn all_digits(s: Seq<char>) -> bool
    decreases s.len(),
{
    s.len() == 0 || (all_digits(s.drop_last()) && is_digit(s.last()))
}

/// Every character of the sequence is a digit exactly when `all_digits`.
pub broadcast proof fn lemma_all_digits(s: Seq<char>)
    ensures
        #[trigger] all_digits(s) <==> (forall|i: int| 0 <= i < s.len() ==> is_digit(#[trigger] s[i])),
    decreases s.len(),
{
    if s.len() > 0 {
        lemma_all_digits(s.drop_last());
        if all_digits(s) {
            assert forall|i: int| 0 <= i < s.len() implies is_digit(#[trigger] s[i]) by {
                if i < s.len() - 1 {
                    assert(s.drop_last()[i] == s[i]);
                }
            }
        }
        if forall|i: int| 0 <= i < s.len() ==> is_digit(#[trigger] s[i]) {
            assert forall|i: int|
                0 <= i < s.drop_last().len() implies is_digit(#[trigger] s.drop_last()[i]) by {
                assert(s.drop_last()[i] == s[i]);
            }
        }
    }
}

/// Whether every character may continue a keyword name.
pub open spec fn all_kw_chars(s: Seq<char>) -> bool
    decreases s.len(),
{
    s.len() == 0 || (all_kw_chars(s.drop_last()) && is_kw_char(s.last()))
}

/// Every character of the sequence may continue a keyword name exactly when
/// `all_kw_chars`.
pub broadcast proof fn lemma_all_kw_chars(s: Seq<char>)
    ensures
        #[trigger] all_kw_chars(s) <==> (forall|i: int|
            0 <= i < s.len() ==> is_kw_char(#[trigger] s[i])),
    decreases s.len(),
{
    if s.len() > 0 {
        lemma_all_kw_chars(s.drop_last());
        if all_kw_chars(s) {
            assert forall|i: int| 0 <= i < s.len() implies is_kw_char(#[trigger] s[i]) by {
                if i < s.len() - 1 {
                    assert(s.drop_last()[i] == s[i]);
                }
            }
        }
        if forall|i: int| 0 <= i < s.len() ==> is_kw_char(#[trigger] s[i]) {
            assert forall|i: int|
                0 <= i < s.drop_last().len() implies is_kw_char(#[trigger] s.drop_last()[i]) by {
                assert(s.drop_last()[i] == s[i]);
            }
        }
    }
}

/// The value of a run of decimal digits.
pub open spec fn digits_val(s: Seq<char>) -> int
    decreases s.len(),
{
    if s.len() == 0 {
        0
    } else {
        digits_val(s.drop_last()) * 10 + digit_val(s.last())
    }
}

/// A prefix of a digit run is worth no more than the whole run.
pub proof fn lemma_digits_val_prefix(s: Seq<char>, j: int)
    requires
        0 <= j <= s.len(),
        all_digits(s),
        forall|i: int| 0 <= i < s.len() ==> is_digit(#[trigger] s[i]),
    ensures
        0 <= digits_val(s.take(j)) <= digits_val(s),
    decreases s.len(),
{
    lemma_digits_val_nonneg(s.take(j));
    lemma_digits_val_nonneg(s);
    if j < s.len() {
        assert(s.take(j) =~= s.drop_last().take(j));
        assert forall|i: int| 0 <= i < s.drop_last().len() implies is_digit(
            #[trigger] s.drop_last()[i],
        ) by {
            assert(s.drop_last()[i] == s[i]);
        }
        lemma_all_digits(s.drop_last());
        lemma_digits_val_prefix(s.drop_last(), j);
        assert(digit_val(s.last()) >= 0);
        assert(digits_val(s) >= digits_val(s.drop_last()));
    } else {
        assert(s.take(j) =~= s);
    }
}

/// A run of digits is worth at least zero.
pub proof fn lemma_digits_val_nonneg(s: Seq<char>)
    ensures
        all_digits(s) ==> digits_val(s) >= 0,
    decreases s.len(),
{
    if s.len() > 0 {
        lemma_digits_val_nonneg(s.drop_last());
    }
}

/// The token a run of non-delimiter characters stands for: `nil`, a boolean,
/// an integer literal, a keyword, or a symbol.
///
/// A run that begins with a digit or a minus must be an integer literal
/// whose value fits 32 signed bits; a keyword whose name is malformed is a
/// lexing error too.
pub open spec fn classify_run(run: Seq<char>) -> Result<TokenV, ErrorV> {
    if run == "nil"@ {
        Ok(TokenV::Nil)
    } else if run == "true"@ {
        Ok(TokenV::Boolean(true))
    } else if run == "false"@ {
        Ok(TokenV::Boolean(false))
    } else if run.len() >= 1 && (run[0] == '-' || is_digit(run[0])) {
        if int_shaped(run) {
            let v = int_run_val(run);
            if i32::MIN <= v <= i32::MAX {
                Ok(TokenV::Num(v as i32))
            } else {
                Err(ErrorV::FailedToLex("integer literal out of range"@))
            }
        } else {
            Err(ErrorV::FailedToLex("malformed integer literal"@))
        }
    } else if run.len() >= 1 && run[0] == ':' {
        if kw_name_ok(run.skip(1)) {
            Ok(TokenV::Key(run.skip(1)))
        } else {
            Err(ErrorV::FailedToLex("malformed keyword"@))
        }
    } else {
        Ok(TokenV::Sym(run))
    }
}

/// Whether the run has the shape of an integer literal: digits, with an
/// optional leading minus.
pub open spec fn int_shaped(run: Seq<char>) -> bool {
    (run.len() >= 1 && all_digits(run)) || (run.len() >= 2 && run[0] == '-' && all_digits(
        run.skip(1),
    ))
}

/// The value of an integer-shaped run.
pub open spec fn int_run_val(run: Seq<char>) -> int {
    if run.len() >= 1 && run[0] == '-' {
        -digits_val(run.skip(1))
    } else {
        digits_val(run)
    }
}

/// Whether the name is acceptable for a keyword.
pub open spec fn kw_name_ok(s: Seq<char>) -> bool {
    s.len() >= 1 && is_kw_start(s[0]) && all_kw_chars(s.skip(1))
}

/// The tokens of the text, or the error that rejects it, reading from a
/// position between tokens.
pub open spec fn lex_text(s: Seq<char>) -> Result<Seq<TokenV>, ErrorV>
    decreases s.len(), 0int,
{
    if s.len() == 0 {
        Ok(Seq::empty())
    } else if is_ws(s[0]) {
        lex_text(s.skip(1))
    } else if s[0] == ';' {
        lex_comment(s.skip(1))
    } else if s[0] == '(' {
        lex_cons(TokenV::LParen, lex_text(s.skip(1)))
    } else if s[0] == ')' {
        lex_cons(TokenV::RParen, lex_text(s.skip(1)))
    } else if s[0] == '\'' {
        lex_cons(TokenV::Quote, lex_text(s.skip(1)))
    } else if s[0] == '"' {
        lex_string(s.skip(1), Seq::empty())
    } else {
        lex_run(s.skip(1), seq![s[0]])
    }
}

/// A token followed by the rest of a lexing.
pub open spec fn lex_cons(t: TokenV, rest: Result<Seq<TokenV>, ErrorV>) -> Result<
    Seq<TokenV>,
    ErrorV,
> {
    match rest {
        Ok(ts) => Ok(seq![t] + ts),
        Err(e) => Err(e),
    }
}

/// The tokens of the text, reading inside a `;` comment.
pub open spec fn lex_comment(s: Seq<char>) -> Result<Seq<TokenV>, ErrorV>
    decreases s.len(), 1int,
{
    if s.len() == 0 {
        Ok(Seq::empty())
    } else if s[0] == '\n' {
        lex_text(s.skip(1))
    } else {
        lex_comment(s.skip(1))
    }
}

/// The tokens of the text, reading inside a string literal whose unescaped
/// content so far is `acc`. A backslash takes the next character as it is;
/// an unterminated literal is a lexing error.
pub open spec fn lex_string(s: Seq<char>, acc: Seq<char>) -> Result<Seq<TokenV>, ErrorV>
    decreases s.len(), 1int,
{
    if s.len() == 0 {
        Err(ErrorV::FailedToLex("unterminated string"@))
    } else if s[0] == '"' {
        lex_cons(TokenV::Text(acc), lex_text(s.skip(1)))
    } else if s[0] == '\\' {
        if s.len() >= 2 {
            lex_string(s.skip(2), acc.push(s[1]))
        } else {
            Err(ErrorV::FailedToLex("unterminated string"@))
        }
    } else {
        lex_string(s.skip(1), acc.push(s[0]))
    }
}

/// The tokens of the text, reading inside a run of non-delimiter characters
/// collected so far in `acc`.
pub open spec fn lex_run(s: Seq<char>, acc: Seq<char>) -> Result<Seq<TokenV>, ErrorV>
    decreases s.len(), 1int,
{
    if s.len() == 0 || is_delim(s[0]) {
        match classify_run(acc) {
            Ok(t) => lex_cons(t, lex_text(s)),
            Err(e) => Err(e),
        }
    } else {
        lex_run(s.skip(1), acc.push(s[0]))
    }
}

/// Whether the character ends a run.
fn is_delim_exec(c: char) -> (r: bool)
    ensures
        r == is_delim(c),
{
    c == ' ' || c == '\t' || c == '\n' || c == '\r' || c == '(' || c == ')' || c == '\'' || c
        == '"' || c == ';'
}

/// Whether the character vector holds exactly the literal's characters.
fn eq_lit(v: &Vec<char>, lit: &str) -> (r: bool)
    ensures
        r == (v@ == lit@),
{
    let lc = str_to_chars(lit);
    if v.len() != lc.len() {
        proof {
            assert(v@.len() != lit@.len());
        }
        return false;
    }
    let mut j: usize = 0;
    while j < v.len()
        invariant
            j <= v@.len(),
            v@.len() == lc@.len(),
            lc@ == lit@,
            forall|k: int| 0 <= k < j ==> v@[k] == lit@[k],
        decreases v@.len() - j,
    {
        if v[j] != lc[j] {
            return false;
        }
        j += 1;
    }
    proof {
        assert(v@ =~= lit@);
    }
    true
}

/// The numeric value of a digit character.
fn digit_value(c: char) -> (d: u64)
    requires
        is_digit(c),
    ensures
        d as int == digit_val(c),
{
    if c == '0' {
        0
    } else if c == '1' {
        1
    } else if c == '2' {
        2
    } else if c == '3' {
        3
    } else if c == '4' {
        4
    } else if c == '5' {
        5
    } else if c == '6' {
        6
    } else if c == '7' {
        7
    } else if c == '8' {
        8
    } else {
        9
    }
}

/// Classifies a completed run.
fn classify_token(acc: &Vec<char>) -> (r: Result<Token, Error>)
    requires
        acc@.len() >= 1,
    ensures
        match classify_run(acc@) {
            Ok(t) => r is Ok && r->Ok_0@ == t,
            Err(e) => r is Err && r->Err_0@ == e,
        },
{
    if eq_lit(acc, "nil") {
        return Ok(Token::Nil);
    }
    if eq_lit(acc, "true") {
        return Ok(Token::Boolean(true));
    }
    if eq_lit(acc, "false") {
        return Ok(Token::Boolean(false));
    }
    let c0 = acc[0];
    let neg = c0 == '-';
    let numeric_start = neg || ('0' <= c0 && c0 <= '9');
    let dstart: usize = if neg {
        1
    } else {
        0
    };
    let mut digits_ok = numeric_start && acc.len() > dstart;
    let mut j = dstart;
    while j < acc.len()
        invariant
            dstart <= j <= acc@.len(),
            digits_ok ==> (acc@.len() > dstart && forall|k: int|
                dstart <= k < j ==> is_digit(#[trigger] acc@[k])),
            !digits_ok ==> !int_shaped(acc@) || !numeric_start,
            numeric_start == (acc@[0] == '-' || is_digit(acc@[0])),
            neg == (acc@[0] == '-'),
            dstart == (if neg {
                1int
            } else {
                0int
            }),
            acc@.len() >= 1,
        decreases acc@.len() - j,
    {
        if digits_ok {
            let c = acc[j];
            if '0' <= c && c <= '9' {
                proof {
                    assert(is_digit(acc@[j as int]));
                }
            } else {
                proof {
                    assert(!is_digit(acc@[j as int]));
                    if int_shaped(acc@) {
                        lemma_all_digits(acc@);
                        lemma_all_digits(acc@.skip(1));
                        if all_digits(acc@) {
                            assert(is_digit(acc@[j as int]));
                            assert(false);
                        } else {
                            assert(acc@[0] == '-');
                            assert(j >= 1);
                            assert(acc@.skip(1)[j - 1] == acc@[j as int]);
                            assert(is_digit(acc@[j as int]));
                            assert(false);
                        }
                    }
                }
                digits_ok = false;
            }
        }
        j += 1;
    }
    if numeric_start && !digits_ok {
        proof {
            if int_shaped(acc@) {
                lemma_all_digits(acc@);
                if !all_digits(acc@) {
                    assert(acc@[0] == '-');
                    assert(acc@.len() >= 2);
                }
            }
        }
        return Err(Error::FailedToLex("malformed integer literal".to_owned()));
    }
    if digits_ok {
        proof {
            lemma_all_digits(acc@);
            lemma_all_digits(acc@.skip(1));
            if neg {
                assert forall|k: int|
                    0 <= k < acc@.skip(1).len() implies is_digit(#[trigger] acc@.skip(1)[k]) by {
                    assert(acc@.skip(1)[k] == acc@[k + 1]);
                }
                assert(all_digits(acc@.skip(1)));
                assert(int_shaped(acc@));
            } else {
                assert(all_digits(acc@));
                assert(int_shaped(acc@));
            }
        }
        let ghost ds = if neg {
            acc@.skip(1)
        } else {
            acc@
        };
        proof {
            lemma_all_digits(ds);
        }
        let mut val: u64 = 0;
        let mut k = dstart;
        let mut too_big = false;
        while k < acc.len()
            invariant
                dstart <= k <= acc@.len(),
                dstart == (if neg {
                    1int
                } else {
                    0int
                }),
                neg == (acc@[0] == '-'),
                ds == (if neg {
                    acc@.skip(1)
                } else {
                    acc@
                }),
                ds.len() == acc@.len() - dstart,
                all_digits(ds),
                forall|i: int| 0 <= i < ds.len() ==> is_digit(#[trigger] ds[i]),
                !too_big ==> val <= 0x8000_0000u64 && val as int == digits_val(
                    ds.take(k - dstart),
                ),
                too_big ==> digits_val(ds) > 0x8000_0000,
            decreases acc@.len() - k,
        {
            if too_big {
                k += 1;
            } else {
                let c = acc[k];
                proof {
                    if neg {
                        assert(ds[k - dstart] == acc@[k as int]);
                    }
                    assert(is_digit(ds[k - dstart]));
                }
                let d: u64 = digit_value(c);
                let next: u64 = val * 10 + d;
                proof {
                    assert(ds.take(k - dstart + 1).drop_last() =~= ds.take(k - dstart));
                    assert(ds.take(k - dstart + 1).last() == ds[k - dstart]);
                    assert(digits_val(ds.take(k - dstart + 1)) == digits_val(ds.take(k - dstart))
                        * 10 + digit_val(ds[k - dstart]));
                }
                if next > 0x8000_0000u64 {
                    proof {
                        lemma_digits_val_prefix(ds, k - dstart + 1);
                    }
                    too_big = true;
                } else {
                    val = next;
                }
                k += 1;
            }
        }
        proof {
            if !too_big {
                assert(ds.take(ds.len() as int) =~= ds);
            }
            lemma_digits_val_nonneg(ds);
        }
        if too_big {
            return Err(Error::FailedToLex("integer literal out of range".to_owned()));
        }
        if neg {
            let out: i32 = (-(val as i64)) as i32;
            proof {
                assert(int_run_val(acc@) == -(val as int));
            }
            return Ok(Token::Num(out));
        } else {
            if val > 0x7fff_ffffu64 {
                return Err(Error::FailedToLex("integer literal out of range".to_owned()));
            }
            let out: i32 = val as i32;
            proof {
                assert(int_run_val(acc@) == val as int);
            }
            return Ok(Token::Num(out));
        }
    }
    if acc[0] == ':' {
        let mut name: Vec<char> = Vec::new();
        let mut j: usize = 1;
        while j < acc.len()
            invariant
                1 <= j <= acc@.len(),
                acc@.len() >= 1,
                name@ =~= acc@.skip(1).take(j - 1),
            decreases acc@.len() - j,
        {
            name.push(acc[j]);
            proof {
                assert(acc@.skip(1)[j - 1] == acc@[j as int]);
                assert(name@ =~= acc@.skip(1).take(j as int));
            }
            j += 1;
        }
        proof {
            assert(name@ =~= acc@.skip(1));
        }
        let mut ok: bool;
        if name.len() == 0 {
            ok = false;
            proof {
                assert(!kw_name_ok(name@));
            }
        } else {
            let c0 = name[0];
            if ('A' <= c0 && c0 <= 'Z') || ('a' <= c0 && c0 <= 'z') || c0 == '_' {
                proof {
                    assert(is_kw_start(name@[0]));
                }
                ok = true;
                let mut t: usize = 1;
                while t < name.len()
                    invariant
                        1 <= t <= name@.len(),
                        name@.len() >= 1,
                        is_kw_start(name@[0]),
                        ok ==> forall|k: int| 1 <= k < t ==> is_kw_char(#[trigger] name@[k]),
                        !ok ==> !kw_name_ok(name@),
                    decreases name@.len() - t,
                {
                    if ok {
                        let c = name[t];
                        if ('A' <= c && c <= 'Z') || ('a' <= c && c <= 'z') || c == '_' || ('0'
                            <= c && c <= '9') || c == '-' {
                            proof {
                                assert(is_kw_char(name@[t as int]));
                            }
                        } else {
                            proof {
                                assert(!is_kw_char(name@[t as int]));
                                if kw_name_ok(name@) {
                                    lemma_all_kw_chars(name@.skip(1));
                                    assert(name@.skip(1)[t - 1] == name@[t as int]);
                                    assert(is_kw_char(name@[t as int]));
                                    assert(false);
                                }
                            }
                            ok = false;
                        }
                    }
                    t += 1;
                }
                proof {
                    if ok {
                        assert forall|k: int|
                            0 <= k < name@.skip(1).len() implies is_kw_char(
                            #[trigger] name@.skip(1)[k],
                        ) by {
                            assert(name@.skip(1)[k] == name@[k + 1]);
                        }
                        lemma_all_kw_chars(name@.skip(1));
                        assert(all_kw_chars(name@.skip(1)));
                        assert(kw_name_ok(name@));
                    }
                }
            } else {
                ok = false;
                proof {
                    assert(!is_kw_start(name@[0]));
                    assert(!kw_name_ok(name@));
                }
            }
        }
        if ok {
            return Ok(Token::Keyword(KeywordId(chars_to_string(&name))));
        } else {
            return Err(Error::FailedToLex("malformed keyword".to_owned()));
        }
    }
    Ok(Token::Symbol(SymbolId(chars_to_string(acc))))
}

/// Tokenizes source text.
///
/// The result is exactly what [`lex_text`] gives on the text's characters:
/// the same tokens on acceptance, the same error on rejection.
pub fn lex(src: &str) -> (r: Result<Vec<Token>, Error>)
    ensures
        match lex_text(src@) {
            Ok(ts) => r is Ok && toks_view(r->Ok_0@) == ts,
            Err(e) => r is Err && r->Err_0@ == e,
        },
{
    let cs = str_to_chars(src);
    let mut out: Vec<Token> = Vec::new();
    let mut i: usize = 0;
    proof {
        assert(cs@.skip(0) =~= cs@);
        if lex_text(cs@) is Ok {
            assert(toks_view(out@) + lex_text(cs@)->Ok_0 =~= lex_text(cs@)->Ok_0);
        }
    }
    loop
        invariant
            i <= cs@.len(),
            cs@ == src@,
            match lex_text(cs@.skip(i as int)) {
                Ok(ts) => lex_text(cs@) == Ok::<Seq<TokenV>, ErrorV>(toks_view(out@) + ts),
                Err(e) => lex_text(cs@) == Err::<Seq<TokenV>, ErrorV>(e),
            },
        decreases cs@.len() - i,
    {
        proof {
            broadcast use lemma_toks_view;
        }
        if i >= cs.len() {
            proof {
                assert(cs@.skip(i as int).len() == 0);
                assert(toks_view(out@) + Seq::<TokenV>::empty() =~= toks_view(out@));
            }
            return Ok(out);
        }
        let ghost istart = i;
        let ghost tail = cs@.skip(i as int);
        proof {
            assert(tail.len() > 0);
            assert(tail[0] == cs@[i as int]);
            assert(tail.skip(1) =~= cs@.skip(i as int + 1));
        }
        let c = cs[i];
        if c == ' ' || c == '\t' || c == '\n' || c == '\r' {
            i += 1;
            proof {
                assert(lex_text(tail) == lex_text(cs@.skip(i as int)));
            }
        } else if c == ';' {
            i += 1;
            proof {
                assert(lex_text(tail) == lex_comment(cs@.skip(i as int)));
            }
            while i < cs.len() && cs[i] != '\n'
                invariant
                    istart < i <= cs@.len(),
                    cs@ == src@,
                    match lex_comment(cs@.skip(i as int)) {
                        Ok(ts) => lex_text(cs@) == Ok::<Seq<TokenV>, ErrorV>(
                            toks_view(out@) + ts,
                        ),
                        Err(e) => lex_text(cs@) == Err::<Seq<TokenV>, ErrorV>(e),
                    },
                decreases cs@.len() - i,
            {
                proof {
                    assert(cs@.skip(i as int)[0] == cs@[i as int]);
                    assert(cs@.skip(i as int).skip(1) =~= cs@.skip(i as int + 1));
                    assert(lex_comment(cs@.skip(i as int)) == lex_comment(
                        cs@.skip(i as int + 1),
                    ));
                }
                i += 1;
            }
            if i < cs.len() {
                proof {
                    assert(cs@.skip(i as int)[0] == cs@[i as int]);
                    assert(cs@.skip(i as int).skip(1) =~= cs@.skip(i as int + 1));
                    assert(lex_comment(cs@.skip(i as int)) == lex_text(cs@.skip(i as int + 1)));
                }
                i += 1;
            } else {
                proof {
                    assert(cs@.skip(i as int).len() == 0);
                    assert(lex_comment(cs@.skip(i as int)) == lex_text(cs@.skip(i as int)));
                }
            }
        } else if c == '(' || c == ')' || c == '\'' {
            let t: Token = if c == '(' {
                Token::LParen
            } else if c == ')' {
                Token::RParen
            } else {
                Token::Quote
            };
            let ghost tv = t@;
            proof {
                assert(lex_text(tail) == lex_cons(tv, lex_text(tail.skip(1))));
            }
            let ghost outold = out@;
            out.push(t);
            i += 1;
            proof {
                assert((outold.push(t)).drop_last() =~= outold);
                assert(toks_view(out@) == toks_view(outold).push(tv));
                if lex_text(cs@.skip(i as int)) is Ok {
                    let ts = lex_text(cs@.skip(i as int))->Ok_0;
                    assert(toks_view(outold) + (seq![tv] + ts) =~= toks_view(out@) + ts);
                }
            }
        } else if c == '"' {
            i += 1;
            let mut acc: Vec<char> = Vec::new();
            proof {
                assert(acc@ =~= Seq::<char>::empty());
                assert(lex_text(tail) == lex_string(cs@.skip(i as int), acc@));
            }
            loop
                invariant_except_break
                    istart < i <= cs@.len(),
                    cs@ == src@,
                    match lex_string(cs@.skip(i as int), acc@) {
                        Ok(ts) => lex_text(cs@) == Ok::<Seq<TokenV>, ErrorV>(
                            toks_view(out@) + ts,
                        ),
                        Err(e) => lex_text(cs@) == Err::<Seq<TokenV>, ErrorV>(e),
                    },
                ensures
                    istart < i <= cs@.len(),
                    cs@ == src@,
                    match lex_text(cs@.skip(i as int)) {
                        Ok(ts) => lex_text(cs@) == Ok::<Seq<TokenV>, ErrorV>(
                            toks_view(out@) + ts,
                        ),
                        Err(e) => lex_text(cs@) == Err::<Seq<TokenV>, ErrorV>(e),
                    },
                decreases cs@.len() - i,
            {
                proof {
                    broadcast use lemma_toks_view;
                }
                if i >= cs.len() {
                    proof {
                        assert(cs@.skip(i as int).len() == 0);
                    }
                    return Err(Error::FailedToLex("unterminated string".to_owned()));
                }
                let ghost stail = cs@.skip(i as int);
                proof {
                    assert(stail[0] == cs@[i as int]);
                    assert(stail.skip(1) =~= cs@.skip(i as int + 1));
                }
                let d = cs[i];
                if d == '"' {
                    i += 1;
                    let ghost acc0 = acc@;
                    proof {
                        assert(lex_string(stail, acc0) == lex_cons(
                            TokenV::Text(acc0),
                            lex_text(cs@.skip(i as int)),
                        ));
                    }
                    let t = Token::Text(chars_to_string(&acc));
                    let ghost outold = out@;
                    out.push(t);
                    proof {
                        assert((outold.push(t)).drop_last() =~= outold);
                        assert(toks_view(out@) == toks_view(outold).push(TokenV::Text(acc0)));
                        if lex_text(cs@.skip(i as int)) is Ok {
                            let ts = lex_text(cs@.skip(i as int))->Ok_0;
                            assert(toks_view(outold) + (seq![TokenV::Text(acc0)] + ts)
                                =~= toks_view(out@) + ts);
                        }
                    }
                    break;
                } else if d == '\\' {
                    if i + 1 >= cs.len() {
                        proof {
                            assert(stail.len() == 1);
                        }
                        return Err(Error::FailedToLex("unterminated string".to_owned()));
                    }
                    proof {
                        assert(stail.len() >= 2);
                        assert(stail[1] == cs@[i as int + 1]);
                        assert(stail.skip(2) =~= cs@.skip(i as int + 2));
                    }
                    let ghost accold = acc@;
                    acc.push(cs[i + 1]);
                    i += 2;
                    proof {
                        assert(acc@ == accold.push(stail[1]));
                        assert(lex_string(stail, accold) == lex_string(
                            cs@.skip(i as int),
                            acc@,
                        ));
                    }
                } else {
                    let ghost accold = acc@;
                    acc.push(d);
                    i += 1;
                    proof {
                        assert(acc@ == accold.push(stail[0]));
                        assert(lex_string(stail, accold) == lex_string(
                            cs@.skip(i as int),
                            acc@,
                        ));
                    }
                }
            }
        } else {
            let mut acc: Vec<char> = Vec::new();
            acc.push(c);
            i += 1;
            proof {
                assert(!is_ws(tail[0]) && tail[0] != ';' && tail[0] != '(' && tail[0] != ')'
                    && tail[0] != '\'' && tail[0] != '"');
                assert(acc@ =~= seq![tail[0]]);
                assert(lex_text(tail) == lex_run(cs@.skip(i as int), acc@));
            }
            loop
                invariant_except_break
                    istart < i <= cs@.len(),
                    cs@ == src@,
                    acc@.len() >= 1,
                    match lex_run(cs@.skip(i as int), acc@) {
                        Ok(ts) => lex_text(cs@) == Ok::<Seq<TokenV>, ErrorV>(
                            toks_view(out@) + ts,
                        ),
                        Err(e) => lex_text(cs@) == Err::<Seq<TokenV>, ErrorV>(e),
                    },
                ensures
                    istart < i <= cs@.len(),
                    cs@ == src@,
                    match lex_text(cs@.skip(i as int)) {
                        Ok(ts) => lex_text(cs@) == Ok::<Seq<TokenV>, ErrorV>(
                            toks_view(out@) + ts,
                        ),
                        Err(e) => lex_text(cs@) == Err::<Seq<TokenV>, ErrorV>(e),
                    },
                decreases cs@.len() - i,
            {
                proof {
                    broadcast use lemma_toks_view;
                }
                let ghost rtail = cs@.skip(i as int);
                let done: bool = if i >= cs.len() {
                    proof {
                        assert(rtail.len() == 0);
                    }
                    true
                } else {
                    proof {
                        assert(rtail[0] == cs@[i as int]);
                        assert(rtail.skip(1) =~= cs@.skip(i as int + 1));
                    }
                    is_delim_exec(cs[i])
                };
                if done {
                    proof {
                        assert(lex_run(rtail, acc@) == (match classify_run(acc@) {
                            Ok(t) => lex_cons(t, lex_text(rtail)),
                            Err(e) => Err(e),
                        }));
                    }
                    match classify_token(&acc) {
                        Ok(t) => {
                            let ghost tv = t@;
                            let ghost outold = out@;
                            out.push(t);
                            proof {
                                assert((outold.push(t)).drop_last() =~= outold);
                                assert(toks_view(out@) == toks_view(outold).push(tv));
                                if lex_text(cs@.skip(i as int)) is Ok {
                                    let ts = lex_text(cs@.skip(i as int))->Ok_0;
                                    assert(toks_view(outold) + (seq![tv] + ts) =~= toks_view(out@)
                                        + ts);
                                }
                            }
                            break;
                        },
                        Err(e) => {
                            return Err(e);
                        },
                    }
                } else {
                    let ghost accold = acc@;
                    acc.push(cs[i]);
                    i += 1;
                    proof {
                        assert(acc@ == accold.push(rtail[0]));
                        assert(lex_run(rtail, accold) == lex_run(cs@.skip(i as int), acc@));
                    }
                }
            }
        }
    }
}

} // verus!
