//! Lexical tokens of the query language.

use vstd::prelude::*;
use vstd::std_specs::iter::IteratorSpec;
use crate::text::{decimal, push_char, push_decimal, push_str};

verus! {

/// A lexical token.
#[derive(Debug, PartialEq)]
pub enum Token {
    /// A metric name, label key, function, or keyword (`by`/`without`).
    Ident(String),
    /// A number literal, as written (`0.95`, `2`, `5.`).
    Number(String),
    /// A quoted label value, with its escapes resolved.
    Str(String),
    /// A duration literal, normalized to milliseconds (`5m` → `300000`).
    Duration(u64),
    LParen,
    RParen,
    LBrace,
    RBrace,
    LBracket,
    RBracket,
    Comma,
    Eq,
    Ne,
    EqRegex,
    NeRegex,
    Plus,
    Minus,
    Star,
    Slash,
    Eof,
}

/// A token as a mathematical value.
pub ghost enum Tok {
    Ident(Seq<char>),
    Number(Seq<char>),
    Str(Seq<char>),
    Duration(u64),
    LParen,
    RParen,
    LBrace,
    RBrace,
    LBracket,
    RBracket,
    Comma,
    Eq,
    Ne,
    EqRegex,
    NeRegex,
    Plus,
    Minus,
    Star,
    Slash,
    Eof,
}

impl View for Token {
    type V = Tok;

    open spec fn view(&self) -> Tok {
        match self {
            Token::Ident(s) => Tok::Ident(s@),
            Token::Number(s) => Tok::Number(s@),
            Token::Str(s) => Tok::Str(s@),
            Token::Duration(ms) => Tok::Duration(*ms),
            Token::LParen => Tok::LParen,
            Token::RParen => Tok::RParen,
            Token::LBrace => Tok::LBrace,
            Token::RBrace => Tok::RBrace,
            Token::LBracket => Tok::LBracket,
            Token::RBracket => Tok::RBracket,
            Token::Comma => Tok::Comma,
            Token::Eq => Tok::Eq,
            Token::Ne => Tok::Ne,
            Token::EqRegex => Tok::EqRegex,
            Token::NeRegex => Tok::NeRegex,
            Token::Plus => Tok::Plus,
            Token::Minus => Tok::Minus,
            Token::Star => Tok::Star,
            Token::Slash => Tok::Slash,
            Token::Eof => Tok::Eof,
        }
    }
}

/// The tokens of a list, as values.
pub open spec fn toks(v: Seq<Token>) -> Seq<Tok> {
    v.map_values(|t: Token| t@)
}

/// The characters of `s`, in order.
pub fn chars_of(s: &str) -> (v: Vec<char>)
    ensures
        v@ == s@,
{
    broadcast use vstd::string::axiom_spec_iter, vstd::string::next_postcondition;

    let mut it = s.chars();
    let mut v: Vec<char> = Vec::new();
    loop
        invariant
            v@ + it.remaining() == s@,
            it.obeys_prophetic_iter_laws(),
            it.decrease() is Some,
        ensures
            v@ == s@,
        decreases it.decrease()->0,
    {
        match it.next() {
            Some(c) => {
                v.push(c);
            },
            None => {
                assert(v@ + it.remaining() =~= v@);
                break;
            },
        }
    }
    v
}

// ---------------------------------------------------------------------------
// Character classes.
// ---------------------------------------------------------------------------

/// Unicode `White_Space`, the property `char::is_whitespace` tests.
pub open spec fn spec_is_space(c: char) -> bool {
    ||| '\u{9}' <= c <= '\u{d}'
    ||| c == ' '
    ||| c == '\u{85}'
    ||| c == '\u{a0}'
    ||| c == '\u{1680}'
    ||| '\u{2000}' <= c <= '\u{200a}'
    ||| c == '\u{2028}'
    ||| c == '\u{2029}'
    ||| c == '\u{202f}'
    ||| c == '\u{205f}'
    ||| c == '\u{3000}'
}

pub fn is_space(c: char) -> (b: bool)
    ensures
        b == spec_is_space(c),
{
    ('\u{9}' <= c && c <= '\u{d}') || c == ' ' || c == '\u{85}' || c == '\u{a0}' || c
        == '\u{1680}' || ('\u{2000}' <= c && c <= '\u{200a}') || c == '\u{2028}' || c
        == '\u{2029}' || c == '\u{202f}' || c == '\u{205f}' || c == '\u{3000}'
}

/// An ASCII decimal digit.
pub open spec fn spec_is_digit(c: char) -> bool {
    '0' <= c <= '9'
}

pub fn is_digit(c: char) -> (b: bool)
    ensures
        b == spec_is_digit(c),
{
    '0' <= c && c <= '9'
}

/// An ASCII letter.
pub open spec fn spec_is_alpha(c: char) -> bool {
    ('a' <= c <= 'z') || ('A' <= c <= 'Z')
}

/// A character that may begin an identifier.
pub open spec fn spec_ident_start(c: char) -> bool {
    spec_is_alpha(c) || c == '_' || c == ':'
}

/// A character that may continue an identifier.
pub open spec fn spec_ident_part(c: char) -> bool {
    spec_is_alpha(c) || spec_is_digit(c) || c == '_' || c == ':'
}

pub fn is_ident_start(c: char) -> (b: bool)
    ensures
        b == spec_ident_start(c),
{
    ('a' <= c && c <= 'z') || ('A' <= c && c <= 'Z') || c == '_' || c == ':'
}

pub fn is_ident_part(c: char) -> (b: bool)
    ensures
        b == spec_ident_part(c),
{
    ('a' <= c && c <= 'z') || ('A' <= c && c <= 'Z') || ('0' <= c && c <= '9') || c == '_' || c
        == ':'
}

// ---------------------------------------------------------------------------
// Rendering tokens in messages.
// ---------------------------------------------------------------------------

/// How a character is written inside a quoted string in a message.
pub open spec fn escape_char(c: char) -> Seq<char> {
    if c == '"' {
        seq!['\\', '"']
    } else if c == '\\' {
        seq!['\\', '\\']
    } else if c == '\n' {
        seq!['\\', 'n']
    } else if c == '\r' {
        seq!['\\', 'r']
    } else if c == '\t' {
        seq!['\\', 't']
    } else if c == '\0' {
        seq!['\\', '0']
    } else {
        seq![c]
    }
}

/// The escaped characters of a string.
pub open spec fn escape_str(s: Seq<char>) -> Seq<char>
    decreases s.len(),
{
    if s.len() == 0 {
        Seq::empty()
    } else {
        escape_str(s.drop_last()) + escape_char(s.last())
    }
}

/// A string in double quotes, escaped.
pub open spec fn quoted(s: Seq<char>) -> Seq<char> {
    seq!['"'] + escape_str(s) + seq!['"']
}

/// How a token is written in a message.
pub open spec fn tok_debug(t: Tok) -> Seq<char> {
    match t {
        Tok::Ident(s) => "Ident("@ + quoted(s) + ")"@,
        Tok::Number(s) => "Number("@ + s + ")"@,
        Tok::Str(s) => "Str("@ + quoted(s) + ")"@,
        Tok::Duration(ms) => "Duration("@ + decimal(ms as nat) + ")"@,
        Tok::LParen => "LParen"@,
        Tok::RParen => "RParen"@,
        Tok::LBrace => "LBrace"@,
        Tok::RBrace => "RBrace"@,
        Tok::LBracket => "LBracket"@,
        Tok::RBracket => "RBracket"@,
        Tok::Comma => "Comma"@,
        Tok::Eq => "Eq"@,
        Tok::Ne => "Ne"@,
        Tok::EqRegex => "EqRegex"@,
        Tok::NeRegex => "NeRegex"@,
        Tok::Plus => "Plus"@,
        Tok::Minus => "Minus"@,
        Tok::Star => "Star"@,
        Tok::Slash => "Slash"@,
        Tok::Eof => "Eof"@,
    }
}

/// Append `s`, quoted and escaped.
fn push_quoted(out: &mut String, s: &str)
    ensures
        final(out)@ == old(out)@ + quoted(s@),
{
    let chars = chars_of(s);
    push_char(out, '"');
    let ghost start = out@;
    let mut i: usize = 0;
    while i < chars.len()
        invariant
            chars@ == s@,
            i <= chars@.len(),
            out@ == start + escape_str(chars@.take(i as int)),
        decreases chars@.len() - i,
    {
        let c = chars[i];
        if c == '"' {
            push_str(out, "\\\"");
        } else if c == '\\' {
            push_str(out, "\\\\");
        } else if c == '\n' {
            push_str(out, "\\n");
        } else if c == '\r' {
            push_str(out, "\\r");
        } else if c == '\t' {
            push_str(out, "\\t");
        } else if c == '\0' {
            push_str(out, "\\0");
        } else {
            push_char(out, c);
        }
        proof {
            reveal_strlit("\\\"");
            reveal_strlit("\\\\");
            reveal_strlit("\\n");
            reveal_strlit("\\r");
            reveal_strlit("\\t");
            reveal_strlit("\\0");
            assert(chars@.take(i + 1).drop_last() =~= chars@.take(i as int));
            assert(out@ =~= start + escape_str(chars@.take(i + 1)));
        }
        i = i + 1;
    }
    push_char(out, '"');
    assert(chars@.take(chars@.len() as int) =~= chars@);
    assert(out@ =~= old(out)@ + quoted(s@));
}

/// Append how `t` is written in a message.
pub fn push_token_debug(out: &mut String, t: &Token)
    ensures
        final(out)@ == old(out)@ + tok_debug(t@),
{
    let ghost before = out@;
    match t {
        Token::Ident(s) => {
            push_str(out, "Ident(");
            push_quoted(out, s.as_str());
            push_str(out, ")");
        },
        Token::Number(s) => {
            push_str(out, "Number(");
            push_str(out, s.as_str());
            push_str(out, ")");
        },
        Token::Str(s) => {
            push_str(out, "Str(");
            push_quoted(out, s.as_str());
            push_str(out, ")");
        },
        Token::Duration(ms) => {
            push_str(out, "Duration(");
            push_decimal(out, *ms);
            push_str(out, ")");
        },
        Token::LParen => push_str(out, "LParen"),
        Token::RParen => push_str(out, "RParen"),
        Token::LBrace => push_str(out, "LBrace"),
        Token::RBrace => push_str(out, "RBrace"),
        Token::LBracket => push_str(out, "LBracket"),
        Token::RBracket => push_str(out, "RBracket"),
        Token::Comma => push_str(out, "Comma"),
        Token::Eq => push_str(out, "Eq"),
        Token::Ne => push_str(out, "Ne"),
        Token::EqRegex => push_str(out, "EqRegex"),
        Token::NeRegex => push_str(out, "NeRegex"),
        Token::Plus => push_str(out, "Plus"),
        Token::Minus => push_str(out, "Minus"),
        Token::Star => push_str(out, "Star"),
        Token::Slash => push_str(out, "Slash"),
        Token::Eof => push_str(out, "Eof"),
    }
    assert(out@ =~= before + tok_debug(t@));
}

/// Whether two tokens are the same.
pub fn same_token(a: &Token, b: &Token) -> (r: bool)
    ensures
        r == (a@ == b@),
{
    match (a, b) {
        (Token::Ident(x), Token::Ident(y)) => crate::labels::same_str(x.as_str(), y.as_str()),
        (Token::Number(x), Token::Number(y)) => crate::labels::same_str(x.as_str(), y.as_str()),
        (Token::Str(x), Token::Str(y)) => crate::labels::same_str(x.as_str(), y.as_str()),
        (Token::Duration(x), Token::Duration(y)) => *x == *y,
        (Token::LParen, Token::LParen) => true,
        (Token::RParen, Token::RParen) => true,
        (Token::LBrace, Token::LBrace) => true,
        (Token::RBrace, Token::RBrace) => true,
        (Token::LBracket, Token::LBracket) => true,
        (Token::RBracket, Token::RBracket) => true,
        (Token::Comma, Token::Comma) => true,
        (Token::Eq, Token::Eq) => true,
        (Token::Ne, Token::Ne) => true,
        (Token::EqRegex, Token::EqRegex) => true,
        (Token::NeRegex, Token::NeRegex) => true,
        (Token::Plus, Token::Plus) => true,
        (Token::Minus, Token::Minus) => true,
        (Token::Star, Token::Star) => true,
        (Token::Slash, Token::Slash) => true,
        (Token::Eof, Token::Eof) => true,
        _ => false,
    }
}

} // verus!
