//! Turns tokens into an AST (recursive descent + precedence climbing).

use vstd::prelude::*;
use crate::ast::{AggOp, BinOp, Expr, ExprV, Grouping, GroupingV, Matcher, MatcherV, Selector, SelectorV, exprs_view, matchers_view, strings_view};
use crate::error::{QErr, QueryError};
use crate::lexer::{lex, spec_lex};
use crate::text::push_str;
use crate::token::{Tok, Token, push_token_debug, same_token, tok_debug, toks};

verus! {

// ---------------------------------------------------------------------------
// The grammar, over token values. Each rule reads from position `p` and
// gives what it parsed and the position after it, or the first error.
// Positions past the end read as `Eof`.
// ---------------------------------------------------------------------------

pub open spec fn tok_at(t: Seq<Tok>, p: int) -> Tok {
    if 0 <= p < t.len() {
        t[p]
    } else {
        Tok::Eof
    }
}

/// The operator a token stands for, with its binding power.
pub open spec fn binary_op(t: Tok) -> Option<(BinOp, u8)> {
    match t {
        Tok::Plus => Some((BinOp::Add, 10)),
        Tok::Minus => Some((BinOp::Sub, 10)),
        Tok::Star => Some((BinOp::Mul, 20)),
        Tok::Slash => Some((BinOp::Div, 20)),
        _ => None,
    }
}

pub open spec fn perr(m: Seq<char>) -> QErr {
    QErr::Parse(m)
}

pub open spec fn found(prefix: Seq<char>, t: Tok) -> QErr {
    perr(prefix + tok_debug(t))
}

pub open spec fn msg_expected(want: Tok, got: Tok) -> Seq<char> {
    "expected "@ + tok_debug(want) + ", found "@ + tok_debug(got)
}

/// Consume the token `want`.
pub open spec fn p_expect(t: Seq<Tok>, p: int, want: Tok) -> Result<int, QErr> {
    if tok_at(t, p) == want {
        Ok(p + 1)
    } else {
        Err(perr(msg_expected(want, tok_at(t, p))))
    }
}

/// The label names of a parenthesized list whose `(` has been read; commas
/// between names are optional.
pub open spec fn p_labels(t: Seq<Tok>, p: int, acc: Seq<Seq<char>>) -> Result<(Seq<Seq<char>>, int), QErr>
    decreases t.len() - p,
{
    if tok_at(t, p) == Tok::RParen {
        Ok((acc, p + 1))
    } else {
        match tok_at(t, p) {
            Tok::Ident(name) => {
                let q = if tok_at(t, p + 1) == Tok::Comma {
                    p + 2
                } else {
                    p + 1
                };
                p_labels(t, q, acc.push(name))
            },
            other => Err(found("expected label name, found "@, other)),
        }
    }
}

/// An optional `by (...)` or `without (...)` clause.
pub open spec fn p_grouping(t: Seq<Tok>, p: int) -> Result<(GroupingV, int), QErr> {
    match tok_at(t, p) {
        Tok::Ident(n) => {
            if n == "by"@ || n == "without"@ {
                match p_expect(t, p + 1, Tok::LParen) {
                    Ok(q) => match p_labels(t, q, Seq::empty()) {
                        Ok((ls, r)) => Ok(
                            (
                                if n == "by"@ {
                                    GroupingV::By(ls)
                                } else {
                                    GroupingV::Without(ls)
                                },
                                r,
                            ),
                        ),
                        Err(e) => Err(e),
                    },
                    Err(e) => Err(e),
                }
            } else {
                Ok((GroupingV::Ungrouped, p))
            }
        },
        _ => Ok((GroupingV::Ungrouped, p)),
    }
}

/// The matcher kind an operator token stands for.
pub open spec fn matcher_kind(t: Tok) -> Option<nat> {
    match t {
        Tok::Eq => Some(0),
        Tok::Ne => Some(1),
        Tok::EqRegex => Some(2),
        Tok::NeRegex => Some(3),
        _ => None,
    }
}

/// The matchers of a brace list whose `{` has been read; commas between
/// matchers are optional.
pub open spec fn p_matchers(t: Seq<Tok>, p: int, acc: Seq<MatcherV>) -> Result<(Seq<MatcherV>, int), QErr>
    decreases t.len() - p,
{
    if tok_at(t, p) == Tok::RBrace {
        Ok((acc, p + 1))
    } else {
        match tok_at(t, p) {
            Tok::Ident(label) => {
                let op = tok_at(t, p + 1);
                match tok_at(t, p + 2) {
                    Tok::Str(value) => match matcher_kind(op) {
                        Some(kind) => {
                            let q = if tok_at(t, p + 3) == Tok::Comma {
                                p + 4
                            } else {
                                p + 3
                            };
                            p_matchers(t, q, acc.push(MatcherV { kind, label, value }))
                        },
                        None => Err(found("expected matcher operator, found "@, op)),
                    },
                    other => Err(found("expected string value, found "@, other)),
                }
            },
            other => Err(found("expected label, found "@, other)),
        }
    }
}

/// A duration token.
pub open spec fn p_duration(t: Seq<Tok>, p: int) -> Result<(u64, int), QErr> {
    match tok_at(t, p) {
        Tok::Duration(ms) => Ok((ms, p + 1)),
        other => Err(found("expected a duration like [5m], found "@, other)),
    }
}

/// A selector whose metric name has been read: optional matchers in braces,
/// then an optional range in brackets.
pub open spec fn p_selector(t: Seq<Tok>, metric: Seq<char>, p: int) -> Result<(ExprV, int), QErr> {
    let ms = if tok_at(t, p) == Tok::LBrace {
        p_matchers(t, p + 1, Seq::empty())
    } else {
        Ok((Seq::empty(), p))
    };
    match ms {
        Err(e) => Err(e),
        Ok((matchers, p1)) => {
            if tok_at(t, p1) == Tok::LBracket {
                match p_duration(t, p1 + 1) {
                    Ok((d, p2)) => match p_expect(t, p2, Tok::RBracket) {
                        Ok(p3) => Ok(
                            (
                                ExprV::Selector(
                                    SelectorV { metric, matchers, range_ms: Some(d) },
                                ),
                                p3,
                            ),
                        ),
                        Err(e) => Err(e),
                    },
                    Err(e) => Err(e),
                }
            } else {
                Ok((ExprV::Selector(SelectorV { metric, matchers, range_ms: None }), p1))
            }
        },
    }
}

pub proof fn lemma_labels_bounds(t: Seq<Tok>, p: int, acc: Seq<Seq<char>>)
    ensures
        p_labels(t, p, acc) matches Ok((_, q)) ==> p < q && (q <= t.len() || q == p + 1),
    decreases t.len() - p,
{
    if tok_at(t, p) != Tok::RParen {
        if let Tok::Ident(name) = tok_at(t, p) {
            let q = if tok_at(t, p + 1) == Tok::Comma {
                p + 2
            } else {
                p + 1
            };
            lemma_labels_bounds(t, q, acc.push(name));
        }
    }
}

pub proof fn lemma_grouping_bounds(t: Seq<Tok>, p: int)
    requires
        0 <= p <= t.len(),
    ensures
        p_grouping(t, p) matches Ok((_, q)) ==> p <= q <= t.len(),
{
    if let Tok::Ident(n) = tok_at(t, p) {
        if n == "by"@ || n == "without"@ {
            lemma_labels_bounds(t, p + 2, Seq::empty());
        }
    }
}

pub proof fn lemma_matchers_bounds(t: Seq<Tok>, p: int, acc: Seq<MatcherV>)
    ensures
        p_matchers(t, p, acc) matches Ok((_, q)) ==> p < q && (q <= t.len() || q == p + 1),
    decreases t.len() - p,
{
    if tok_at(t, p) != Tok::RBrace {
        if let Tok::Ident(label) = tok_at(t, p) {
            if let Tok::Str(value) = tok_at(t, p + 2) {
                if let Some(kind) = matcher_kind(tok_at(t, p + 1)) {
                    let q = if tok_at(t, p + 3) == Tok::Comma {
                        p + 4
                    } else {
                        p + 3
                    };
                    lemma_matchers_bounds(t, q, acc.push(MatcherV { kind, label, value }));
                }
            }
        }
    }
}

pub proof fn lemma_selector_bounds(t: Seq<Tok>, metric: Seq<char>, p: int)
    requires
        0 <= p <= t.len(),
    ensures
        p_selector(t, metric, p) matches Ok((_, q)) ==> p <= q <= t.len(),
{
    if tok_at(t, p) == Tok::LBrace {
        lemma_matchers_bounds(t, p + 1, Seq::empty());
    }
}

/// An expression whose operators all bind at least as tightly as `min_bp`.
pub open spec fn p_expr(t: Seq<Tok>, p: int, min_bp: u8) -> Result<(ExprV, int), QErr>
    decreases t.len() + 1 - p, 6int,
{
    match p_unary(t, p) {
        Err(e) => Err(e),
        Ok((lhs, p1)) => {
            if p < p1 <= t.len() {
                p_ops(t, lhs, p1, min_bp)
            } else {
                Ok((lhs, p1))
            }
        },
    }
}

/// Fold the operators that follow `lhs` (precedence climbing): each binds
/// its right operand at one more than its own power, so equal powers
/// associate to the left.
pub open spec fn p_ops(t: Seq<Tok>, lhs: ExprV, p: int, min_bp: u8) -> Result<(ExprV, int), QErr>
    decreases t.len() + 1 - p, 5int,
{
    match binary_op(tok_at(t, p)) {
        Some((op, bp)) => {
            if bp < min_bp {
                Ok((lhs, p))
            } else {
                match p_expr(t, p + 1, (bp + 1) as u8) {
                    Err(e) => Err(e),
                    Ok((rhs, p2)) => {
                        let b = ExprV::Binary(op, Box::new(lhs), Box::new(rhs));
                        if p < p2 <= t.len() {
                            p_ops(t, b, p2, min_bp)
                        } else {
                            Ok((b, p2))
                        }
                    },
                }
            }
        },
        None => Ok((lhs, p)),
    }
}

/// Prefix negation, or a primary expression.
pub open spec fn p_unary(t: Seq<Tok>, p: int) -> Result<(ExprV, int), QErr>
    decreases t.len() + 1 - p, 4int,
{
    if tok_at(t, p) == Tok::Minus {
        match p_unary(t, p + 1) {
            Ok((e, q)) => Ok((ExprV::Neg(Box::new(e)), q)),
            Err(e) => Err(e),
        }
    } else {
        p_primary(t, p)
    }
}

/// A number, a parenthesized expression, an aggregation, a function call or
/// a selector.
pub open spec fn p_primary(t: Seq<Tok>, p: int) -> Result<(ExprV, int), QErr>
    decreases t.len() + 1 - p, 3int,
{
    match tok_at(t, p) {
        Tok::Number(v) => Ok((ExprV::Number(v), p + 1)),
        Tok::LParen => match p_expr(t, p + 1, 0) {
            Ok((inner, q)) => match p_expect(t, q, Tok::RParen) {
                Ok(r) => Ok((inner, r)),
                Err(e) => Err(e),
            },
            Err(e) => Err(e),
        },
        Tok::Ident(name) => match AggOp::spec_from_name(name) {
            Some(op) => p_aggregation(t, op, p + 1),
            None => if tok_at(t, p + 1) == Tok::LParen {
                p_call(t, name, p + 1)
            } else {
                p_selector(t, name, p + 1)
            },
        },
        other => Err(found("unexpected token "@, other)),
    }
}

/// A call whose function name has been read.
pub open spec fn p_call(t: Seq<Tok>, name: Seq<char>, p: int) -> Result<(ExprV, int), QErr>
    decreases t.len() + 1 - p, 2int,
{
    match p_expect(t, p, Tok::LParen) {
        Ok(q) => match p_args(t, q, Seq::empty()) {
            Ok((args, r)) => Ok((ExprV::Call(name, args), r)),
            Err(e) => Err(e),
        },
        Err(e) => Err(e),
    }
}

/// An aggregation whose operator has been read: optional grouping, then the
/// arguments (`quantile` takes a parameter before its vector).
pub open spec fn p_aggregation(t: Seq<Tok>, op: AggOp, p: int) -> Result<(ExprV, int), QErr>
    decreases t.len() + 1 - p, 2int,
{
    if 0 <= p <= t.len() {
        match p_grouping(t, p) {
            Err(e) => Err(e),
            Ok((g, p1)) => {
                proof {
                    lemma_grouping_bounds(t, p);
                }
                match p_expect(t, p1, Tok::LParen) {
                    Err(e) => Err(e),
                    Ok(p2) => match p_args(t, p2, Seq::empty()) {
                        Err(e) => Err(e),
                        Ok((args, p3)) => {
                            if op == AggOp::Quantile {
                                if args.len() != 2 {
                                    Err(perr("quantile expects (scalar, vector)"@))
                                } else {
                                    Ok(
                                        (
                                            ExprV::Aggregate(
                                                op,
                                                g,
                                                Some(Box::new(args[0])),
                                                Box::new(args[1]),
                                            ),
                                            p3,
                                        ),
                                    )
                                }
                            } else {
                                if args.len() != 1 {
                                    Err(perr(op.spec_name() + " expects one argument"@))
                                } else {
                                    Ok((ExprV::Aggregate(op, g, None, Box::new(args[0])), p3))
                                }
                            }
                        },
                    },
                }
            },
        }
    } else {
        Err(perr(msg_expected(Tok::LParen, Tok::Eof)))
    }
}

/// The arguments of a call whose `(` has been read, separated by commas.
pub open spec fn p_args(t: Seq<Tok>, p: int, acc: Seq<ExprV>) -> Result<(Seq<ExprV>, int), QErr>
    decreases t.len() + 1 - p, 7int,
{
    if tok_at(t, p) == Tok::RParen {
        Ok((acc, p + 1))
    } else {
        match p_expr(t, p, 0) {
            Err(e) => Err(e),
            Ok((e, q)) => {
                if tok_at(t, q) == Tok::Comma {
                    if p < q {
                        p_args(t, q + 1, acc.push(e))
                    } else {
                        Ok((acc, q))
                    }
                } else {
                    match p_expect(t, q, Tok::RParen) {
                        Ok(r) => Ok((acc.push(e), r)),
                        Err(err) => Err(err),
                    }
                }
            },
        }
    }
}

/// The expression a token stream spells, which must be followed by `Eof`.
pub open spec fn spec_parse(t: Seq<Tok>) -> Result<ExprV, QErr> {
    match p_expr(t, 0, 0) {
        Ok((e, q)) => match p_expect(t, q, Tok::Eof) {
            Ok(_) => Ok(e),
            Err(err) => Err(err),
        },
        Err(e) => Err(e),
    }
}

/// The operator an additive token (`+`, `-`) or a multiplicative token
/// (`*`, `/`) spells.
pub open spec fn arith_op(t: Tok) -> BinOp {
    match t {
        Tok::Plus => BinOp::Add,
        Tok::Minus => BinOp::Sub,
        Tok::Star => BinOp::Mul,
        _ => BinOp::Div,
    }
}

/// The binding power of an operator token.
pub open spec fn bp_of(t: Tok) -> u8 {
    match binary_op(t) {
        Some((_, bp)) => bp,
        None => 0,
    }
}

/// The operator of an operator token.
pub open spec fn op_of(t: Tok) -> BinOp {
    match binary_op(t) {
        Some((op, _)) => op,
        None => BinOp::Add,
    }
}

/// A number literal as an expression.
pub open spec fn num(v: Seq<char>) -> ExprV {
    ExprV::Number(v)
}

/// `l op r` as an expression.
pub open spec fn bin(op: BinOp, l: ExprV, r: ExprV) -> ExprV {
    ExprV::Binary(op, Box::new(l), Box::new(r))
}

/// The three numbers `a x b y c` as a token stream.
pub open spec fn three_numbers(a: Seq<char>, x: Tok, b: Seq<char>, y: Tok, c: Seq<char>) -> Seq<
    Tok,
> {
    seq![Tok::Number(a), x, Tok::Number(b), y, Tok::Number(c), Tok::Eof]
}

/// Operator precedence: `*` and `/` bind tighter than `+` and `-`, whichever
/// side they stand on (`a + b / c` is `a + (b / c)`, and `a / b + c` is
/// `(a / b) + c`), and operators of the same precedence associate to the
/// left (`a - b + c` is `(a - b) + c`, `a / b * c` is `(a / b) * c`).
pub proof fn lemma_precedence(
    a: Seq<char>,
    b: Seq<char>,
    c: Seq<char>,
    add: Tok,
    add2: Tok,
    mul: Tok,
    mul2: Tok,
)
    requires
        add == Tok::Plus || add == Tok::Minus,
        add2 == Tok::Plus || add2 == Tok::Minus,
        mul == Tok::Star || mul == Tok::Slash,
        mul2 == Tok::Star || mul2 == Tok::Slash,
    ensures
        spec_parse(three_numbers(a, add, b, mul, c)) == Ok::<ExprV, QErr>(
            bin(arith_op(add), num(a), bin(arith_op(mul), num(b), num(c))),
        ),
        spec_parse(three_numbers(a, mul, b, add, c)) == Ok::<ExprV, QErr>(
            bin(arith_op(add), bin(arith_op(mul), num(a), num(b)), num(c)),
        ),
        spec_parse(three_numbers(a, add, b, add2, c)) == Ok::<ExprV, QErr>(
            bin(arith_op(add2), bin(arith_op(add), num(a), num(b)), num(c)),
        ),
        spec_parse(three_numbers(a, mul, b, mul2, c)) == Ok::<ExprV, QErr>(
            bin(arith_op(mul2), bin(arith_op(mul), num(a), num(b)), num(c)),
        ),
{
    lemma_right_binds(a, b, c, add, mul);
    lemma_left_binds(a, b, c, mul, add);
    lemma_left_binds(a, b, c, add, add2);
    lemma_left_binds(a, b, c, mul, mul2);
}

/// `a x b y c` where `y` binds tighter than `x`.
proof fn lemma_right_binds(a: Seq<char>, b: Seq<char>, c: Seq<char>, x: Tok, y: Tok)
    requires
        binary_op(x) is Some,
        binary_op(y) is Some,
        bp_of(y) > bp_of(x),
        bp_of(y) < 255,
    ensures
        spec_parse(three_numbers(a, x, b, y, c)) == Ok::<ExprV, QErr>(
            bin(op_of(x), num(a), bin(op_of(y), num(b), num(c))),
        ),
{
    let t = three_numbers(a, x, b, y, c);
    let ox = op_of(x);
    let bx = bp_of(x);
    let oy = op_of(y);
    let by = bp_of(y);
    assert(t.len() == 6);
    assert(tok_at(t, 0) == Tok::Number(a));
    assert(tok_at(t, 1) == x);
    assert(tok_at(t, 2) == Tok::Number(b));
    assert(tok_at(t, 3) == y);
    assert(tok_at(t, 4) == Tok::Number(c));
    assert(tok_at(t, 5) == Tok::Eof);
    assert(p_primary(t, 4) == Ok::<(ExprV, int), QErr>((num(c), 5)));
    assert(p_unary(t, 4) == Ok::<(ExprV, int), QErr>((num(c), 5)));
    assert(p_ops(t, num(c), 5, (by + 1) as u8) == Ok::<(ExprV, int), QErr>((num(c), 5)));
    assert(p_expr(t, 4, (by + 1) as u8) == Ok::<(ExprV, int), QErr>((num(c), 5)));
    let r = bin(oy, num(b), num(c));
    assert(p_ops(t, r, 5, (bx + 1) as u8) == Ok::<(ExprV, int), QErr>((r, 5)));
    assert(p_ops(t, num(b), 3, (bx + 1) as u8) == Ok::<(ExprV, int), QErr>((r, 5)));
    assert(p_primary(t, 2) == Ok::<(ExprV, int), QErr>((num(b), 3)));
    assert(p_unary(t, 2) == Ok::<(ExprV, int), QErr>((num(b), 3)));
    assert(p_expr(t, 2, (bx + 1) as u8) == Ok::<(ExprV, int), QErr>((r, 5)));
    let whole = bin(ox, num(a), r);
    assert(p_ops(t, whole, 5, 0) == Ok::<(ExprV, int), QErr>((whole, 5)));
    assert(p_ops(t, num(a), 1, 0) == Ok::<(ExprV, int), QErr>((whole, 5)));
    assert(p_primary(t, 0) == Ok::<(ExprV, int), QErr>((num(a), 1)));
    assert(p_unary(t, 0) == Ok::<(ExprV, int), QErr>((num(a), 1)));
    assert(p_expr(t, 0, 0) == Ok::<(ExprV, int), QErr>((whole, 5)));
}

/// `a x b y c` where `y` binds no tighter than `x`.
proof fn lemma_left_binds(a: Seq<char>, b: Seq<char>, c: Seq<char>, x: Tok, y: Tok)
    requires
        binary_op(x) is Some,
        binary_op(y) is Some,
        bp_of(y) <= bp_of(x),
        bp_of(x) < 255,
    ensures
        spec_parse(three_numbers(a, x, b, y, c)) == Ok::<ExprV, QErr>(
            bin(op_of(y), bin(op_of(x), num(a), num(b)), num(c)),
        ),
{
    let t = three_numbers(a, x, b, y, c);
    let ox = op_of(x);
    let bx = bp_of(x);
    let oy = op_of(y);
    let by = bp_of(y);
    assert(t.len() == 6);
    assert(tok_at(t, 0) == Tok::Number(a));
    assert(tok_at(t, 1) == x);
    assert(tok_at(t, 2) == Tok::Number(b));
    assert(tok_at(t, 3) == y);
    assert(tok_at(t, 4) == Tok::Number(c));
    assert(tok_at(t, 5) == Tok::Eof);
    assert(p_primary(t, 4) == Ok::<(ExprV, int), QErr>((num(c), 5)));
    assert(p_unary(t, 4) == Ok::<(ExprV, int), QErr>((num(c), 5)));
    assert(p_ops(t, num(c), 5, (by + 1) as u8) == Ok::<(ExprV, int), QErr>((num(c), 5)));
    assert(p_expr(t, 4, (by + 1) as u8) == Ok::<(ExprV, int), QErr>((num(c), 5)));
    assert(p_ops(t, num(b), 3, (bx + 1) as u8) == Ok::<(ExprV, int), QErr>((num(b), 3)));
    assert(p_primary(t, 2) == Ok::<(ExprV, int), QErr>((num(b), 3)));
    assert(p_unary(t, 2) == Ok::<(ExprV, int), QErr>((num(b), 3)));
    assert(p_expr(t, 2, (bx + 1) as u8) == Ok::<(ExprV, int), QErr>((num(b), 3)));
    let l = bin(ox, num(a), num(b));
    let whole = bin(oy, l, num(c));
    assert(p_ops(t, whole, 5, 0) == Ok::<(ExprV, int), QErr>((whole, 5)));
    assert(p_ops(t, l, 3, 0) == Ok::<(ExprV, int), QErr>((whole, 5)));
    assert(p_ops(t, num(a), 1, 0) == Ok::<(ExprV, int), QErr>((whole, 5)));
    assert(p_primary(t, 0) == Ok::<(ExprV, int), QErr>((num(a), 1)));
    assert(p_unary(t, 0) == Ok::<(ExprV, int), QErr>((num(a), 1)));
    assert(p_expr(t, 0, 0) == Ok::<(ExprV, int), QErr>((whole, 5)));
}

// ---------------------------------------------------------------------------
// Facts about expression lists.
// ---------------------------------------------------------------------------

pub proof fn lemma_exprs_view(v: Seq<Expr>, n: nat)
    requires
        n <= v.len(),
    ensures
        exprs_view(v, n).len() == n,
        forall|i: int| 0 <= i < n ==> #[trigger] exprs_view(v, n)[i] == v[i]@,
    decreases n,
{
    if n > 0 {
        lemma_exprs_view(v, (n - 1) as nat);
    }
}

pub proof fn lemma_exprs_view_push(v: Seq<Expr>, e: Expr)
    ensures
        exprs_view(v.push(e), v.len() + 1) == exprs_view(v, v.len()).push(e@),
{
    lemma_exprs_view(v.push(e), v.len() + 1);
    lemma_exprs_view(v, v.len());
    assert forall|i: int| 0 <= i < v.len() implies #[trigger] exprs_view(v.push(e), v.len() + 1)[i]
        == exprs_view(v, v.len()).push(e@)[i] by {
        assert(v.push(e)[i] == v[i]);
    }
    assert(exprs_view(v.push(e), v.len() + 1) =~= exprs_view(v, v.len()).push(e@));
}

// ---------------------------------------------------------------------------
// The parser.
// ---------------------------------------------------------------------------

/// The token at `p`, or `Eof` past the end.
fn at(t: &Vec<Token>, p: usize) -> (r: &Token)
    ensures
        r@ == tok_at(toks(t@), p as int),
{
    if p < t.len() {
        &t[p]
    } else {
        &Token::Eof
    }
}

/// A parse error: `prefix` followed by how `t` is written.
fn found_err(prefix: &str, t: &Token) -> (e: QueryError)
    ensures
        e@ == found(prefix@, t@),
{
    let mut m = prefix.to_owned();
    push_token_debug(&mut m, t);
    QueryError::Parse(m)
}

/// Consume the token `want`.
fn expect(t: &Vec<Token>, p: usize, want: &Token) -> (r: Result<usize, QueryError>)
    requires
        p < usize::MAX,
    ensures
        match r {
            Ok(q) => p_expect(toks(t@), p as int, want@) == Ok::<int, QErr>(q as int),
            Err(e) => p_expect(toks(t@), p as int, want@) == Err::<int, QErr>(e@),
        },
{
    let actual = at(t, p);
    if same_token(actual, want) {
        Ok(p + 1)
    } else {
        let mut m = "expected ".to_owned();
        push_token_debug(&mut m, want);
        push_str(&mut m, ", found ");
        push_token_debug(&mut m, actual);
        assert(m@ =~= msg_expected(want@, actual@));
        Err(QueryError::Parse(m))
    }
}

/// The label names of a parenthesized list whose `(` has been read.
fn labels(t: &Vec<Token>, p0: usize) -> (r: Result<(Vec<String>, usize), QueryError>)
    requires
        p0 <= t@.len(),
        t@.len() < usize::MAX - 8,
    ensures
        match r {
            Ok((ls, q)) => p_labels(toks(t@), p0 as int, Seq::empty()) == Ok::<(Seq<Seq<char>>, int), QErr>(
                (strings_view(ls@), q as int),
            ) && p0 < q <= t@.len(),
            Err(e) => p_labels(toks(t@), p0 as int, Seq::empty()) == Err::<(Seq<Seq<char>>, int), QErr>(e@),
        },
{
    let ghost tv = toks(t@);
    let mut ls: Vec<String> = Vec::new();
    let mut p = p0;
    assert(strings_view(ls@) =~= Seq::<Seq<char>>::empty());
    while !matches!(at(t, p), Token::RParen)
        invariant
            tv == toks(t@),
            p0 <= p <= t@.len(),
            t@.len() < usize::MAX - 8,
            p_labels(tv, p0 as int, Seq::empty()) == p_labels(tv, p as int, strings_view(ls@)),
        decreases t@.len() - p,
    {
        match at(t, p) {
            Token::Ident(name) => {
                let ghost before = ls@;
                ls.push(name.clone());
                assert(strings_view(ls@) =~= strings_view(before).push(name@));
                if matches!(at(t, p + 1), Token::Comma) {
                    p = p + 2;
                } else {
                    p = p + 1;
                }
            },
            other => {
                return Err(found_err("expected label name, found ", other));
            },
        }
    }
    Ok((ls, p + 1))
}

/// An optional `by (...)` or `without (...)` clause.
fn grouping(t: &Vec<Token>, p: usize) -> (r: Result<(Grouping, usize), QueryError>)
    requires
        p <= t@.len(),
        t@.len() < usize::MAX - 8,
    ensures
        match r {
            Ok((g, q)) => p_grouping(toks(t@), p as int) == Ok::<(GroupingV, int), QErr>((g@, q as int))
                && p <= q <= t@.len(),
            Err(e) => p_grouping(toks(t@), p as int) == Err::<(GroupingV, int), QErr>(e@),
        },
{
    let keyword = match at(t, p) {
        Token::Ident(name) => {
            let by = crate::labels::same_str(name.as_str(), "by");
            let without = crate::labels::same_str(name.as_str(), "without");
            if by || without {
                Some(by)
            } else {
                None
            }
        },
        _ => None,
    };
    match keyword {
        None => Ok((Grouping::Ungrouped, p)),
        Some(by) => {
            let q = expect(t, p + 1, &Token::LParen)?;
            let (ls, r) = labels(t, q)?;
            if by {
                Ok((Grouping::By(ls), r))
            } else {
                Ok((Grouping::Without(ls), r))
            }
        },
    }
}

/// The matchers of a brace list whose `{` has been read.
fn matchers(t: &Vec<Token>, p0: usize) -> (r: Result<(Vec<Matcher>, usize), QueryError>)
    requires
        p0 <= t@.len(),
        t@.len() < usize::MAX - 8,
    ensures
        match r {
            Ok((ms, q)) => p_matchers(toks(t@), p0 as int, Seq::empty()) == Ok::<(Seq<MatcherV>, int), QErr>(
                (matchers_view(ms@), q as int),
            ) && p0 < q <= t@.len(),
            Err(e) => p_matchers(toks(t@), p0 as int, Seq::empty()) == Err::<(Seq<MatcherV>, int), QErr>(e@),
        },
{
    let ghost tv = toks(t@);
    let mut ms: Vec<Matcher> = Vec::new();
    let mut p = p0;
    assert(matchers_view(ms@) =~= Seq::<MatcherV>::empty());
    while !matches!(at(t, p), Token::RBrace)
        invariant
            tv == toks(t@),
            p0 <= p <= t@.len(),
            t@.len() < usize::MAX - 8,
            p_matchers(tv, p0 as int, Seq::empty()) == p_matchers(tv, p as int, matchers_view(ms@)),
        decreases t@.len() - p,
    {
        let label = match at(t, p) {
            Token::Ident(name) => name,
            other => {
                return Err(found_err("expected label, found ", other));
            },
        };
        let op = at(t, p + 1);
        let value = match at(t, p + 2) {
            Token::Str(v) => v,
            other => {
                return Err(found_err("expected string value, found ", other));
            },
        };
        let m = match op {
            Token::Eq => Matcher::Eq(label.clone(), value.clone()),
            Token::Ne => Matcher::Ne(label.clone(), value.clone()),
            Token::EqRegex => Matcher::ReEq(label.clone(), value.clone()),
            Token::NeRegex => Matcher::ReNe(label.clone(), value.clone()),
            other => {
                return Err(found_err("expected matcher operator, found ", other));
            },
        };
        let ghost before = ms@;
        ms.push(m);
        assert(matchers_view(ms@) =~= matchers_view(before).push(m@));
        if matches!(at(t, p + 3), Token::Comma) {
            p = p + 4;
        } else {
            p = p + 3;
        }
    }
    Ok((ms, p + 1))
}

/// A selector whose metric name has been read.
fn selector(t: &Vec<Token>, metric: String, p: usize) -> (r: Result<(Expr, usize), QueryError>)
    requires
        p <= t@.len(),
        t@.len() < usize::MAX - 8,
    ensures
        match r {
            Ok((e, q)) => p_selector(toks(t@), metric@, p as int) == Ok::<(ExprV, int), QErr>((e@, q as int))
                && p <= q <= t@.len(),
            Err(e) => p_selector(toks(t@), metric@, p as int) == Err::<(ExprV, int), QErr>(e@),
        },
{
    let mut ms: Vec<Matcher> = Vec::new();
    let mut p1 = p;
    if matches!(at(t, p), Token::LBrace) {
        let (m, q) = matchers(t, p + 1)?;
        ms = m;
        p1 = q;
    }
    assert(matchers_view(Seq::<Matcher>::empty()) =~= Seq::<MatcherV>::empty());
    if matches!(at(t, p1), Token::LBracket) {
        let d = match at(t, p1 + 1) {
            Token::Duration(ms) => *ms,
            other => {
                return Err(found_err("expected a duration like [5m], found ", other));
            },
        };
        let p3 = expect(t, p1 + 2, &Token::RBracket)?;
        let sel = Selector { metric, matchers: ms, range_ms: Some(d) };
        Ok((Expr::Selector(sel), p3))
    } else {
        let sel = Selector { metric, matchers: ms, range_ms: None };
        Ok((Expr::Selector(sel), p1))
    }
}

/// The operator a token stands for, with its binding power.
fn token_binary_op(t: &Token) -> (r: Option<(BinOp, u8)>)
    ensures
        r == binary_op(t@),
{
    match t {
        Token::Plus => Some((BinOp::Add, 10)),
        Token::Minus => Some((BinOp::Sub, 10)),
        Token::Star => Some((BinOp::Mul, 20)),
        Token::Slash => Some((BinOp::Div, 20)),
        _ => None,
    }
}

/// An expression whose operators all bind at least as tightly as `min_bp`.
fn expr(t: &Vec<Token>, p0: usize, min_bp: u8) -> (r: Result<(Expr, usize), QueryError>)
    requires
        p0 <= t@.len(),
        t@.len() < usize::MAX - 8,
    ensures
        match r {
            Ok((e, q)) => p_expr(toks(t@), p0 as int, min_bp) == Ok::<(ExprV, int), QErr>((e@, q as int))
                && p0 < q <= t@.len(),
            Err(e) => p_expr(toks(t@), p0 as int, min_bp) == Err::<(ExprV, int), QErr>(e@),
        },
    decreases t@.len() + 1 - p0, 6int,
{
    let ghost tv = toks(t@);
    let (mut lhs, mut p) = unary(t, p0)?;
    loop
        invariant
            tv == toks(t@),
            p0 < p <= t@.len(),
            t@.len() < usize::MAX - 8,
            p_expr(tv, p0 as int, min_bp) == p_ops(tv, lhs@, p as int, min_bp),
        decreases t@.len() - p,
    {
        match token_binary_op(at(t, p)) {
            Some((op, bp)) => {
                if bp < min_bp {
                    return Ok((lhs, p));
                }
                let (rhs, p2) = expr(t, p + 1, bp + 1)?;
                lhs = Expr::Binary { op, lhs: Box::new(lhs), rhs: Box::new(rhs) };
                p = p2;
            },
            None => {
                return Ok((lhs, p));
            },
        }
    }
}

/// Prefix negation, or a primary expression.
fn unary(t: &Vec<Token>, p: usize) -> (r: Result<(Expr, usize), QueryError>)
    requires
        p <= t@.len(),
        t@.len() < usize::MAX - 8,
    ensures
        match r {
            Ok((e, q)) => p_unary(toks(t@), p as int) == Ok::<(ExprV, int), QErr>((e@, q as int))
                && p < q <= t@.len(),
            Err(e) => p_unary(toks(t@), p as int) == Err::<(ExprV, int), QErr>(e@),
        },
    decreases t@.len() + 1 - p, 4int,
{
    if matches!(at(t, p), Token::Minus) {
        let (inner, q) = unary(t, p + 1)?;
        return Ok((Expr::Neg(Box::new(inner)), q));
    }
    primary(t, p)
}

/// A number, a parenthesized expression, an aggregation, a call or a
/// selector.
fn primary(t: &Vec<Token>, p: usize) -> (r: Result<(Expr, usize), QueryError>)
    requires
        p <= t@.len(),
        t@.len() < usize::MAX - 8,
    ensures
        match r {
            Ok((e, q)) => p_primary(toks(t@), p as int) == Ok::<(ExprV, int), QErr>((e@, q as int))
                && p < q <= t@.len(),
            Err(e) => p_primary(toks(t@), p as int) == Err::<(ExprV, int), QErr>(e@),
        },
    decreases t@.len() + 1 - p, 3int,
{
    match at(t, p) {
        Token::Number(v) => Ok((Expr::Number(v.clone()), p + 1)),
        Token::LParen => {
            let (inner, q) = expr(t, p + 1, 0)?;
            let r = expect(t, q, &Token::RParen)?;
            Ok((inner, r))
        },
        Token::Ident(name) => {
            match AggOp::from_name(name.as_str()) {
                Some(op) => aggregation(t, op, p + 1),
                None => {
                    if matches!(at(t, p + 1), Token::LParen) {
                        call(t, name.clone(), p + 1)
                    } else {
                        proof {
                            lemma_selector_bounds(toks(t@), name@, p + 1);
                        }
                        selector(t, name.clone(), p + 1)
                    }
                },
            }
        },
        other => Err(found_err("unexpected token ", other)),
    }
}

/// A call whose function name has been read.
fn call(t: &Vec<Token>, func: String, p: usize) -> (r: Result<(Expr, usize), QueryError>)
    requires
        p <= t@.len(),
        t@.len() < usize::MAX - 8,
    ensures
        match r {
            Ok((e, q)) => p_call(toks(t@), func@, p as int) == Ok::<(ExprV, int), QErr>((e@, q as int))
                && p < q <= t@.len(),
            Err(e) => p_call(toks(t@), func@, p as int) == Err::<(ExprV, int), QErr>(e@),
        },
    decreases t@.len() + 1 - p, 2int,
{
    let q = expect(t, p, &Token::LParen)?;
    let (args, r) = args(t, q)?;
    Ok((Expr::Call { func, args }, r))
}

/// An aggregation whose operator has been read.
fn aggregation(t: &Vec<Token>, op: AggOp, p: usize) -> (r: Result<(Expr, usize), QueryError>)
    requires
        p <= t@.len(),
        t@.len() < usize::MAX - 8,
    ensures
        match r {
            Ok((e, q)) => p_aggregation(toks(t@), op, p as int) == Ok::<(ExprV, int), QErr>((e@, q as int))
                && p < q <= t@.len(),
            Err(e) => p_aggregation(toks(t@), op, p as int) == Err::<(ExprV, int), QErr>(e@),
        },
    decreases t@.len() + 1 - p, 2int,
{
    proof {
        lemma_grouping_bounds(toks(t@), p as int);
    }
    let (g, p1) = grouping(t, p)?;
    let p2 = expect(t, p1, &Token::LParen)?;
    let (mut args, p3) = args(t, p2)?;
    proof {
        lemma_exprs_view(args@, args@.len());
    }
    if matches!(op, AggOp::Quantile) {
        if args.len() != 2 {
            return Err(QueryError::Parse("quantile expects (scalar, vector)".to_owned()));
        }
        let ghost all = args@;
        let arg = args.pop().unwrap();
        let param = args.pop().unwrap();
        assert(all[0] == param && all[1] == arg);
        Ok((Expr::Aggregate { op, grouping: g, param: Some(Box::new(param)), arg: Box::new(arg) }, p3))
    } else {
        if args.len() != 1 {
            let mut m = op.name().to_owned();
            push_str(&mut m, " expects one argument");
            return Err(QueryError::Parse(m));
        }
        let ghost all = args@;
        let arg = args.pop().unwrap();
        assert(all[0] == arg);
        Ok((Expr::Aggregate { op, grouping: g, param: None, arg: Box::new(arg) }, p3))
    }
}

/// The arguments of a call whose `(` has been read, separated by commas.
fn args(t: &Vec<Token>, p0: usize) -> (r: Result<(Vec<Expr>, usize), QueryError>)
    requires
        p0 <= t@.len(),
        t@.len() < usize::MAX - 8,
    ensures
        match r {
            Ok((v, q)) => p_args(toks(t@), p0 as int, Seq::empty()) == Ok::<(Seq<ExprV>, int), QErr>(
                (exprs_view(v@, v@.len()), q as int),
            ) && p0 < q <= t@.len(),
            Err(e) => p_args(toks(t@), p0 as int, Seq::empty()) == Err::<(Seq<ExprV>, int), QErr>(e@),
        },
    decreases t@.len() + 1 - p0, 7int,
{
    let ghost tv = toks(t@);
    let mut v: Vec<Expr> = Vec::new();
    let mut p = p0;
    assert(exprs_view(v@, 0) =~= Seq::<ExprV>::empty());
    while !matches!(at(t, p), Token::RParen)
        invariant
            tv == toks(t@),
            p0 <= p <= t@.len(),
            t@.len() < usize::MAX - 8,
            p_args(tv, p0 as int, Seq::empty()) == p_args(tv, p as int, exprs_view(v@, v@.len())),
        decreases t@.len() - p,
    {
        let (e, q) = expr(t, p, 0)?;
        proof {
            lemma_exprs_view_push(v@, e);
        }
        v.push(e);
        if matches!(at(t, q), Token::Comma) {
            p = q + 1;
        } else {
            let r = expect(t, q, &Token::RParen)?;
            return Ok((v, r));
        }
    }
    Ok((v, p + 1))
}

/// Parse a token stream into an expression, which must be followed by `Eof`.
pub fn parse_tokens(t: &Vec<Token>) -> (r: Result<Expr, QueryError>)
    requires
        t@.len() < usize::MAX - 8,
    ensures
        r is Ok <==> spec_parse(toks(t@)) is Ok,
        r matches Ok(e) ==> spec_parse(toks(t@)) == Ok::<ExprV, QErr>(e@),
        r matches Err(e) ==> spec_parse(toks(t@)) == Err::<ExprV, QErr>(e@),
{
    let (e, q) = expr(t, 0, 0)?;
    expect(t, q, &Token::Eof)?;
    Ok(e)
}

/// What a query string parses to: its tokens, read as an expression.
pub open spec fn spec_parse_query(c: Seq<char>) -> Result<ExprV, QErr> {
    match spec_lex(c) {
        Ok(ts) => spec_parse(ts),
        Err(m) => Err(QErr::Lex(m)),
    }
}

/// Lex and parse a query string into an AST.
pub fn parse(input: &str) -> (r: Result<Expr, QueryError>)
    requires
        input@.len() < usize::MAX - 9,
    ensures
        r is Ok <==> spec_parse_query(input@) is Ok,
        r matches Ok(e) ==> spec_parse_query(input@) == Ok::<ExprV, QErr>(e@),
        r matches Err(e) ==> spec_parse_query(input@) == Err::<ExprV, QErr>(e@),
{
    let tokens = lex(input)?;
    parse_tokens(&tokens)
}

} // verus!
