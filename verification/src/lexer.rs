//! Turns a query string into a flat token stream.

use vstd::prelude::*;
use crate::error::{QErr, QueryError};
use crate::text::{collect_range, push_char, push_str};
use crate::token::{
    Tok, Token, chars_of, is_digit, is_ident_part, is_ident_start, is_space, spec_ident_part,
    spec_ident_start, spec_is_digit, spec_is_space, toks,
};

verus! {

// ---------------------------------------------------------------------------
// The token grammar.
// ---------------------------------------------------------------------------

/// The character at `i`, if there is one.
pub open spec fn char_at(c: Seq<char>, i: int) -> Option<char> {
    if 0 <= i < c.len() {
        Some(c[i])
    } else {
        None
    }
}

/// The token a one-character punctuator stands for.
pub open spec fn single_token(ch: char) -> Option<Tok> {
    if ch == '(' {
        Some(Tok::LParen)
    } else if ch == ')' {
        Some(Tok::RParen)
    } else if ch == '{' {
        Some(Tok::LBrace)
    } else if ch == '}' {
        Some(Tok::RBrace)
    } else if ch == '[' {
        Some(Tok::LBracket)
    } else if ch == ']' {
        Some(Tok::RBracket)
    } else if ch == ',' {
        Some(Tok::Comma)
    } else if ch == '+' {
        Some(Tok::Plus)
    } else if ch == '-' {
        Some(Tok::Minus)
    } else if ch == '*' {
        Some(Tok::Star)
    } else if ch == '/' {
        Some(Tok::Slash)
    } else {
        None
    }
}

/// The end of the run of identifier characters starting at `i`.
pub open spec fn ident_end(c: Seq<char>, i: nat) -> nat
    decreases c.len() - i,
{
    if i < c.len() && spec_ident_part(c[i as int]) {
        ident_end(c, i + 1)
    } else {
        i
    }
}

/// The end of the run of digits starting at `i`.
pub open spec fn digit_end(c: Seq<char>, i: nat) -> nat
    decreases c.len() - i,
{
    if i < c.len() && spec_is_digit(c[i as int]) {
        digit_end(c, i + 1)
    } else {
        i
    }
}

/// Scan the body of a string quoted by `quote`, from `i`, having read `out`
/// so far: the string's characters (a backslash takes the next character
/// literally) and the position after the closing quote, or `None` if the
/// input ends first.
pub open spec fn string_scan(c: Seq<char>, quote: char, i: nat, out: Seq<char>) -> Option<(Seq<char>, nat)>
    decreases c.len() - i,
{
    if i >= c.len() {
        None
    } else if c[i as int] == quote {
        Some((out, i + 1))
    } else if c[i as int] == '\\' && i + 1 < c.len() {
        string_scan(c, quote, i + 2, out.push(c[i + 1int]))
    } else {
        string_scan(c, quote, i + 1, out.push(c[i as int]))
    }
}

/// The duration unit at `p`: milliseconds per unit and the unit's length.
pub open spec fn duration_unit(c: Seq<char>, p: int) -> Option<(u64, nat)> {
    if char_at(c, p) == Some('m') && char_at(c, p + 1) == Some('s') {
        Some((1, 2))
    } else if char_at(c, p) == Some('s') {
        Some((1_000, 1))
    } else if char_at(c, p) == Some('m') {
        Some((60_000, 1))
    } else if char_at(c, p) == Some('h') {
        Some((3_600_000, 1))
    } else if char_at(c, p) == Some('d') {
        Some((86_400_000, 1))
    } else if char_at(c, p) == Some('w') {
        Some((604_800_000, 1))
    } else {
        None
    }
}

/// The value of a run of decimal digits.
pub open spec fn digits_value(s: Seq<char>) -> nat
    decreases s.len(),
{
    if s.len() == 0 {
        0
    } else {
        digits_value(s.drop_last()) * 10 + (s.last() as nat - 48) as nat
    }
}

/// The count a duration's digits give: their value, or zero when it does
/// not fit in a `u64`.
pub open spec fn duration_count(s: Seq<char>) -> u64 {
    if digits_value(s) <= u64::MAX {
        digits_value(s) as u64
    } else {
        0
    }
}

/// Lex a number starting at the digit at `start`: an integer immediately
/// followed by a unit is a duration (in milliseconds, wrapping on overflow);
/// anything else is a number literal, with an optional fractional part.
pub open spec fn number_scan(c: Seq<char>, start: nat) -> (Tok, nat) {
    let p = digit_end(c, start);
    if p >= c.len() || c[p as int] != '.' {
        match duration_unit(c, p as int) {
            Some((ms, len)) => (
                Tok::Duration(
                    duration_count(c.subrange(start as int, p as int)).wrapping_mul(ms),
                ),
                p + len,
            ),
            None => (Tok::Number(c.subrange(start as int, p as int)), p),
        }
    } else {
        let q = digit_end(c, p + 1);
        (Tok::Number(c.subrange(start as int, q as int)), q)
    }
}

pub open spec fn msg_bang() -> Seq<char> {
    "expected '=' or '~' after '!'"@
}

pub open spec fn msg_unterminated() -> Seq<char> {
    "unterminated string"@
}

pub open spec fn msg_unexpected(ch: char) -> Seq<char> {
    "unexpected character '"@ + seq![ch] + "'"@
}

pub proof fn lemma_ident_end(c: Seq<char>, i: nat)
    ensures
        ident_end(c, i) >= i,
        ident_end(c, i) <= c.len() || ident_end(c, i) == i,
    decreases c.len() - i,
{
    if i < c.len() && spec_ident_part(c[i as int]) {
        lemma_ident_end(c, i + 1);
    }
}

pub proof fn lemma_digit_end(c: Seq<char>, i: nat)
    ensures
        digit_end(c, i) >= i,
        digit_end(c, i) <= c.len() || digit_end(c, i) == i,
    decreases c.len() - i,
{
    if i < c.len() && spec_is_digit(c[i as int]) {
        lemma_digit_end(c, i + 1);
    }
}

pub proof fn lemma_string_scan(c: Seq<char>, quote: char, i: nat, out: Seq<char>)
    ensures
        string_scan(c, quote, i, out) matches Some((_, next)) ==> i < next <= c.len(),
    decreases c.len() - i,
{
    if i < c.len() && c[i as int] != quote {
        if c[i as int] == '\\' && i + 1 < c.len() {
            lemma_string_scan(c, quote, i + 2, out.push(c[i + 1int]));
        } else {
            lemma_string_scan(c, quote, i + 1, out.push(c[i as int]));
        }
    }
}

pub proof fn lemma_number_scan(c: Seq<char>, start: nat)
    requires
        start < c.len(),
        spec_is_digit(c[start as int]),
    ensures
        start < number_scan(c, start).1 <= c.len(),
{
    lemma_digit_end(c, start + 1);
    let p = digit_end(c, start);
    if p < c.len() && c[p as int] == '.' {
        lemma_digit_end(c, p + 1);
    }
}

/// The tokens of `c` from position `i` on, after the tokens `acc`: the whole
/// stream ends with `Eof`, or lexing stops at the first error.
pub open spec fn lex_from(c: Seq<char>, i: nat, acc: Seq<Tok>) -> Result<Seq<Tok>, Seq<char>>
    decreases c.len() - i,
{
    if i >= c.len() {
        Ok(acc.push(Tok::Eof))
    } else {
        let ch = c[i as int];
        if spec_is_space(ch) {
            lex_from(c, i + 1, acc)
        } else if single_token(ch) is Some {
            lex_from(c, i + 1, acc.push(single_token(ch)->0))
        } else if ch == '=' {
            if char_at(c, i + 1int) == Some('~') {
                lex_from(c, i + 2, acc.push(Tok::EqRegex))
            } else {
                lex_from(c, i + 1, acc.push(Tok::Eq))
            }
        } else if ch == '!' {
            if char_at(c, i + 1int) == Some('=') {
                lex_from(c, i + 2, acc.push(Tok::Ne))
            } else if char_at(c, i + 1int) == Some('~') {
                lex_from(c, i + 2, acc.push(Tok::NeRegex))
            } else {
                Err(msg_bang())
            }
        } else if ch == '"' || ch == '\'' {
            match string_scan(c, ch, i + 1, Seq::empty()) {
                Some((s, next)) => {
                    proof {
                        lemma_string_scan(c, ch, i + 1, Seq::empty());
                    }
                    lex_from(c, next, acc.push(Tok::Str(s)))
                },
                None => Err(msg_unterminated()),
            }
        } else if spec_is_digit(ch) {
            proof {
                lemma_number_scan(c, i);
            }
            lex_from(c, number_scan(c, i).1, acc.push(number_scan(c, i).0))
        } else if spec_ident_start(ch) {
            proof {
                lemma_ident_end(c, i + 1);
            }
            lex_from(c, ident_end(c, i), acc.push(Tok::Ident(c.subrange(i as int, ident_end(c, i) as int))))
        } else {
            Err(msg_unexpected(ch))
        }
    }
}

/// The token stream of a query string.
pub open spec fn spec_lex(c: Seq<char>) -> Result<Seq<Tok>, Seq<char>> {
    lex_from(c, 0, Seq::empty())
}

/// Lexing from `i` after tokens without `Eof` ends with `Eof`, and with no
/// other `Eof`.
proof fn lemma_lex_from_eof(c: Seq<char>, i: nat, acc: Seq<Tok>)
    requires
        forall|j: int| 0 <= j < acc.len() ==> acc[j] != Tok::Eof,
    ensures
        lex_from(c, i, acc) matches Ok(t) ==> {
            &&& t.len() > 0
            &&& t.last() == Tok::Eof
            &&& forall|j: int| 0 <= j < t.len() - 1 ==> t[j] != Tok::Eof
        },
    decreases c.len() - i,
{
    if i < c.len() {
        let ch = c[i as int];
        if spec_is_space(ch) {
            lemma_lex_from_eof(c, i + 1, acc);
        } else if single_token(ch) is Some {
            let a = acc.push(single_token(ch)->0);
            assert(forall|j: int| 0 <= j < a.len() ==> a[j] != Tok::Eof);
            lemma_lex_from_eof(c, i + 1, a);
        } else if ch == '=' {
            if char_at(c, i + 1int) == Some('~') {
                let a = acc.push(Tok::EqRegex);
                assert(forall|j: int| 0 <= j < a.len() ==> a[j] != Tok::Eof);
                lemma_lex_from_eof(c, i + 2, a);
            } else {
                let a = acc.push(Tok::Eq);
                assert(forall|j: int| 0 <= j < a.len() ==> a[j] != Tok::Eof);
                lemma_lex_from_eof(c, i + 1, a);
            }
        } else if ch == '!' {
            if char_at(c, i + 1int) == Some('=') {
                let a = acc.push(Tok::Ne);
                assert(forall|j: int| 0 <= j < a.len() ==> a[j] != Tok::Eof);
                lemma_lex_from_eof(c, i + 2, a);
            } else if char_at(c, i + 1int) == Some('~') {
                let a = acc.push(Tok::NeRegex);
                assert(forall|j: int| 0 <= j < a.len() ==> a[j] != Tok::Eof);
                lemma_lex_from_eof(c, i + 2, a);
            }
        } else if ch == '"' || ch == '\'' {
            match string_scan(c, ch, i + 1, Seq::empty()) {
                Some((str, next)) => {
                    lemma_string_scan(c, ch, i + 1, Seq::empty());
                    let a = acc.push(Tok::Str(str));
                    assert(forall|j: int| 0 <= j < a.len() ==> a[j] != Tok::Eof);
                    lemma_lex_from_eof(c, next, a);
                },
                None => {},
            }
        } else if spec_is_digit(ch) {
            lemma_number_scan(c, i);
            let a = acc.push(number_scan(c, i).0);
            assert(forall|j: int| 0 <= j < a.len() ==> a[j] != Tok::Eof);
            lemma_lex_from_eof(c, number_scan(c, i).1, a);
        } else if spec_ident_start(ch) {
            lemma_ident_end(c, i + 1);
            let a = acc.push(Tok::Ident(c.subrange(i as int, ident_end(c, i) as int)));
            assert(forall|j: int| 0 <= j < a.len() ==> a[j] != Tok::Eof);
            lemma_lex_from_eof(c, ident_end(c, i), a);
        }
    }
}

/// A query string that lexes gives a token stream that ends with `Eof`, the
/// only `Eof` in it.
pub proof fn lemma_lex_ends_with_eof(c: Seq<char>)
    ensures
        spec_lex(c) matches Ok(t) ==> {
            &&& t.len() > 0
            &&& t.last() == Tok::Eof
            &&& forall|j: int| 0 <= j < t.len() - 1 ==> t[j] != Tok::Eof
        },
{
    lemma_lex_from_eof(c, 0, Seq::empty());
}

// ---------------------------------------------------------------------------
// The lexer.
// ---------------------------------------------------------------------------

/// Lex a query string into tokens, ending with `Eof`.
pub fn lex(input: &str) -> (r: Result<Vec<Token>, QueryError>)
    ensures
        r is Ok <==> spec_lex(input@) is Ok,
        r matches Ok(ts) ==> toks(ts@) == spec_lex(input@)->Ok_0,
        r matches Ok(ts) ==> ts@.len() <= input@.len() + 1,
        r matches Err(e) ==> e@ == QErr::Lex(spec_lex(input@)->Err_0),
{
    let chars = chars_of(input);
    let ghost c = chars@;
    let mut tokens: Vec<Token> = Vec::new();
    let mut pos: usize = 0;
    assert(toks(tokens@) =~= Seq::<Tok>::empty());
    while pos < chars.len()
        invariant
            c == chars@,
            c == input@,
            pos <= c.len(),
            tokens@.len() <= pos,
            spec_lex(c) == lex_from(c, pos as nat, toks(tokens@)),
        decreases c.len() - pos,
    {
        let ghost acc = toks(tokens@);
        let ch = chars[pos];
        if is_space(ch) {
            pos = pos + 1;
            continue;
        }
        let single = single_char_token(ch);
        match single {
            Some(t) => {
                tokens.push(t);
                pos = pos + 1;
                proof {
                    assert(toks(tokens@) =~= acc.push(single_token(ch)->0));
                }
                continue;
            },
            None => {},
        }
        if ch == '=' {
            if pos + 1 < chars.len() && chars[pos + 1] == '~' {
                tokens.push(Token::EqRegex);
                pos = pos + 2;
                assert(toks(tokens@) =~= acc.push(Tok::EqRegex));
            } else {
                tokens.push(Token::Eq);
                pos = pos + 1;
                assert(toks(tokens@) =~= acc.push(Tok::Eq));
            }
        } else if ch == '!' {
            if pos + 1 < chars.len() && chars[pos + 1] == '=' {
                tokens.push(Token::Ne);
                pos = pos + 2;
                assert(toks(tokens@) =~= acc.push(Tok::Ne));
            } else if pos + 1 < chars.len() && chars[pos + 1] == '~' {
                tokens.push(Token::NeRegex);
                pos = pos + 2;
                assert(toks(tokens@) =~= acc.push(Tok::NeRegex));
            } else {
                return Err(QueryError::Lex("expected '=' or '~' after '!'".to_owned()));
            }
        } else if ch == '"' || ch == '\'' {
            proof {
                lemma_string_scan(c, ch, pos as nat + 1, Seq::empty());
            }
            match lex_string(&chars, pos) {
                Some((s, next)) => {
                    tokens.push(Token::Str(s));
                    assert(toks(tokens@) =~= acc.push(Tok::Str(s@)));
                    pos = next;
                },
                None => {
                    return Err(QueryError::Lex("unterminated string".to_owned()));
                },
            }
        } else if is_digit(ch) {
            let (t, next) = lex_number(&chars, pos);
            tokens.push(t);
            assert(toks(tokens@) =~= acc.push(t@));
            pos = next;
        } else if is_ident_start(ch) {
            proof {
                lemma_ident_end(c, pos as nat + 1);
            }
            let end = lex_ident_end(&chars, pos);
            let ident = collect_range(&chars, pos, end);
            tokens.push(Token::Ident(ident));
            assert(toks(tokens@) =~= acc.push(Tok::Ident(ident@)));
            pos = end;
        } else {
            let mut m = "unexpected character '".to_owned();
            push_char(&mut m, ch);
            push_str(&mut m, "'");
            assert(m@ =~= msg_unexpected(ch));
            return Err(QueryError::Lex(m));
        }
    }
    tokens.push(Token::Eof);
    assert(toks(tokens@) =~= spec_lex(c)->Ok_0);
    Ok(tokens)
}

/// The token for a one-character punctuator.
fn single_char_token(ch: char) -> (t: Option<Token>)
    ensures
        t matches Some(tok) ==> single_token(ch) == Some(tok@),
        t is None ==> single_token(ch) is None,
{
    match ch {
        '(' => Some(Token::LParen),
        ')' => Some(Token::RParen),
        '{' => Some(Token::LBrace),
        '}' => Some(Token::RBrace),
        '[' => Some(Token::LBracket),
        ']' => Some(Token::RBracket),
        ',' => Some(Token::Comma),
        '+' => Some(Token::Plus),
        '-' => Some(Token::Minus),
        '*' => Some(Token::Star),
        '/' => Some(Token::Slash),
        _ => None,
    }
}

/// The end of the identifier starting at `start`.
fn lex_ident_end(chars: &Vec<char>, start: usize) -> (end: usize)
    requires
        start < chars@.len(),
    ensures
        end == ident_end(chars@, start as nat),
        start <= end <= chars@.len(),
{
    let mut pos = start;
    while pos < chars.len() && is_ident_part(chars[pos])
        invariant
            start <= pos <= chars@.len(),
            ident_end(chars@, start as nat) == ident_end(chars@, pos as nat),
        decreases chars@.len() - pos,
    {
        pos = pos + 1;
    }
    pos
}

/// The end of the run of digits starting at `start`.
fn digits_end(chars: &Vec<char>, start: usize) -> (end: usize)
    requires
        start <= chars@.len(),
    ensures
        end == digit_end(chars@, start as nat),
        start <= end <= chars@.len(),
{
    let mut pos = start;
    while pos < chars.len() && is_digit(chars[pos])
        invariant
            start <= pos <= chars@.len(),
            digit_end(chars@, start as nat) == digit_end(chars@, pos as nat),
        decreases chars@.len() - pos,
    {
        pos = pos + 1;
    }
    pos
}

/// Lex the string whose opening quote is at `start`: its characters and the
/// position after the closing quote, or `None` if it is unterminated.
fn lex_string(chars: &Vec<char>, start: usize) -> (r: Option<(String, usize)>)
    requires
        start < chars@.len(),
    ensures
        r matches Some((s, next)) ==> string_scan(chars@, chars@[start as int], start as nat + 1, Seq::empty())
            == Some((s@, next as nat)),
        r is None ==> string_scan(chars@, chars@[start as int], start as nat + 1, Seq::empty()) is None,
{
    let quote = chars[start];
    let n = chars.len();
    let mut pos = start + 1;
    let mut out = String::new();
    while pos < chars.len()
        invariant
            start < pos,
            quote == chars@[start as int],
            string_scan(chars@, quote, start as nat + 1, Seq::empty()) == string_scan(
                chars@,
                quote,
                pos as nat,
                out@,
            ),
        decreases chars@.len() - pos,
    {
        let c = chars[pos];
        if c == quote {
            return Some((out, pos + 1));
        } else if c == '\\' && pos + 1 < chars.len() {
            push_char(&mut out, chars[pos + 1]);
            pos = pos + 2;
        } else {
            push_char(&mut out, c);
            pos = pos + 1;
        }
    }
    None
}

/// The value of `chars[start..end]` (all digits), or zero when it does not
/// fit in a `u64`.
fn parse_count(chars: &Vec<char>, start: usize, end: usize) -> (n: u64)
    requires
        start <= end <= chars@.len(),
        forall|i: int| start <= i < end ==> spec_is_digit(#[trigger] chars@[i]),
    ensures
        n == duration_count(chars@.subrange(start as int, end as int)),
{
    let mut value: u64 = 0;
    let mut i = start;
    while i < end
        invariant
            start <= i <= end <= chars@.len(),
            forall|i: int| start <= i < end ==> spec_is_digit(#[trigger] chars@[i]),
            value == digits_value(chars@.subrange(start as int, i as int)),
        decreases end - i,
    {
        let d = ((chars[i] as u32) - 48) as u64;
        let ghost s = chars@.subrange(start as int, i + 1);
        assert(s.drop_last() =~= chars@.subrange(start as int, i as int));
        assert(s.last() == chars@[i as int]);
        match value.checked_mul(10) {
            Some(v10) => match v10.checked_add(d) {
                Some(v) => {
                    value = v;
                },
                None => {
                    proof {
                        lemma_digits_value_monotone(chars@.subrange(start as int, end as int), i + 1 - start);
                        assert(chars@.subrange(start as int, end as int).take(i + 1 - start) =~= s);
                    }
                    return 0;
                },
            },
            None => {
                proof {
                    lemma_digits_value_monotone(chars@.subrange(start as int, end as int), i + 1 - start);
                    assert(chars@.subrange(start as int, end as int).take(i + 1 - start) =~= s);
                }
                return 0;
            },
        }
        i = i + 1;
    }
    value
}

/// A prefix of a run of digits is worth no more than the whole run.
proof fn lemma_digits_value_monotone(s: Seq<char>, n: int)
    requires
        0 <= n <= s.len(),
        forall|i: int| 0 <= i < s.len() ==> spec_is_digit(#[trigger] s[i]),
    ensures
        digits_value(s.take(n)) <= digits_value(s),
    decreases s.len(),
{
    if n < s.len() {
        assert(s.drop_last().take(n) =~= s.take(n));
        lemma_digits_value_monotone(s.drop_last(), n);
        assert(digits_value(s) == digits_value(s.drop_last()) * 10 + (s.last() as nat - 48) as nat);
        assert(digits_value(s.drop_last()) <= digits_value(s.drop_last()) * 10) by (nonlinear_arith);
    } else {
        assert(s.take(n) =~= s);
    }
}

/// The unit at `pos`, if any: milliseconds per unit and the unit's length.
fn lex_duration_unit(chars: &Vec<char>, pos: usize) -> (r: Option<(u64, usize)>)
    requires
        pos <= chars@.len(),
    ensures
        r matches Some((ms, len)) ==> duration_unit(chars@, pos as int) == Some((ms, len as nat)),
        r is None ==> duration_unit(chars@, pos as int) is None,
{
    if pos >= chars.len() {
        return None;
    }
    let c0 = chars[pos];
    let m_then_s = c0 == 'm' && pos + 1 < chars.len() && chars[pos + 1] == 's';
    if m_then_s {
        Some((1, 2))
    } else if c0 == 's' {
        Some((1_000, 1))
    } else if c0 == 'm' {
        Some((60_000, 1))
    } else if c0 == 'h' {
        Some((3_600_000, 1))
    } else if c0 == 'd' {
        Some((86_400_000, 1))
    } else if c0 == 'w' {
        Some((604_800_000, 1))
    } else {
        None
    }
}

/// Lex a number, or a duration when an integer is immediately followed by a
/// unit (`ms`, `s`, `m`, `h`, `d`, `w`).
fn lex_number(chars: &Vec<char>, start: usize) -> (r: (Token, usize))
    requires
        start < chars@.len(),
        spec_is_digit(chars@[start as int]),
    ensures
        (r.0@, r.1 as nat) == number_scan(chars@, start as nat),
        start < r.1 <= chars@.len(),
{
    proof {
        lemma_number_scan(chars@, start as nat);
    }
    let p = digits_end(chars, start);
    proof {
        lemma_digits_run(chars@, start as nat);
    }
    let is_integer = p >= chars.len() || chars[p] != '.';
    if is_integer {
        match lex_duration_unit(chars, p) {
            Some((ms, len)) => {
                let count = parse_count(chars, start, p);
                return (Token::Duration(count.wrapping_mul(ms)), p + len);
            },
            None => {
                return (Token::Number(collect_range(chars, start, p)), p);
            },
        }
    }
    let q = digits_end(chars, p + 1);
    (Token::Number(collect_range(chars, start, q)), q)
}

/// Every character of a run of digits is a digit.
proof fn lemma_digits_run(c: Seq<char>, i: nat)
    ensures
        forall|j: int| i <= j < digit_end(c, i) ==> spec_is_digit(#[trigger] c[j]),
        digit_end(c, i) >= i,
    decreases c.len() - i,
{
    if i < c.len() && spec_is_digit(c[i as int]) {
        lemma_digits_run(c, i + 1);
    }
}

} // verus!
