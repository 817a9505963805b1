//! The abstract syntax tree produced by the parser.

use vstd::prelude::*;

verus! {

/// A query expression. Number literals are kept as written.
#[derive(Debug, PartialEq)]
pub enum Expr {
    Number(String),
    Selector(Selector),
    Call { func: String, args: Vec<Expr> },
    Aggregate { op: AggOp, grouping: Grouping, param: Option<Box<Expr>>, arg: Box<Expr> },
    Binary { op: BinOp, lhs: Box<Expr>, rhs: Box<Expr> },
    Neg(Box<Expr>),
}

/// A metric selector, optionally with a range (`[5m]`) making it a range
/// vector.
#[derive(Debug, PartialEq)]
pub struct Selector {
    pub metric: String,
    pub matchers: Vec<Matcher>,
    pub range_ms: Option<u64>,
}

#[derive(Debug, PartialEq, Eq)]
pub enum Matcher {
    Eq(String, String),
    Ne(String, String),
    ReEq(String, String),
    ReNe(String, String),
}

#[derive(Debug, Clone, Copy, PartialEq, Eq)]
pub enum AggOp {
    Sum,
    Avg,
    Min,
    Max,
    Count,
    Quantile,
}

#[derive(Debug, PartialEq, Eq)]
pub enum Grouping {
    Ungrouped,
    By(Vec<String>),
    Without(Vec<String>),
}

#[derive(Debug, Clone, Copy, PartialEq, Eq)]
pub enum BinOp {
    Add,
    Sub,
    Mul,
    Div,
}

// ---------------------------------------------------------------------------
// Mathematical views.
// ---------------------------------------------------------------------------

/// A matcher as a value: its kind (`0` for `=`, `1` for `!=`, `2` for `=~`,
/// `3` for `!~`), label and value.
pub ghost struct MatcherV {
    pub kind: nat,
    pub label: Seq<char>,
    pub value: Seq<char>,
}

impl View for Matcher {
    type V = MatcherV;

    open spec fn view(&self) -> MatcherV {
        match self {
            Matcher::Eq(l, v) => MatcherV { kind: 0, label: l@, value: v@ },
            Matcher::Ne(l, v) => MatcherV { kind: 1, label: l@, value: v@ },
            Matcher::ReEq(l, v) => MatcherV { kind: 2, label: l@, value: v@ },
            Matcher::ReNe(l, v) => MatcherV { kind: 3, label: l@, value: v@ },
        }
    }
}

/// The values of a list of matchers.
pub open spec fn matchers_view(v: Seq<Matcher>) -> Seq<MatcherV> {
    v.map_values(|m: Matcher| m@)
}

/// The characters of a list of strings.
pub open spec fn strings_view(v: Seq<String>) -> Seq<Seq<char>> {
    v.map_values(|s: String| s@)
}

/// A selector as a value.
pub ghost struct SelectorV {
    pub metric: Seq<char>,
    pub matchers: Seq<MatcherV>,
    pub range_ms: Option<u64>,
}

impl View for Selector {
    type V = SelectorV;

    open spec fn view(&self) -> SelectorV {
        SelectorV {
            metric: self.metric@,
            matchers: matchers_view(self.matchers@),
            range_ms: self.range_ms,
        }
    }
}

/// A grouping as a value.
pub ghost enum GroupingV {
    Ungrouped,
    By(Seq<Seq<char>>),
    Without(Seq<Seq<char>>),
}

impl View for Grouping {
    type V = GroupingV;

    open spec fn view(&self) -> GroupingV {
        match self {
            Grouping::Ungrouped => GroupingV::Ungrouped,
            Grouping::By(l) => GroupingV::By(strings_view(l@)),
            Grouping::Without(l) => GroupingV::Without(strings_view(l@)),
        }
    }
}

/// An expression as a value.
pub ghost enum ExprV {
    Number(Seq<char>),
    Selector(SelectorV),
    Call(Seq<char>, Seq<ExprV>),
    Aggregate(AggOp, GroupingV, Option<Box<ExprV>>, Box<ExprV>),
    Binary(BinOp, Box<ExprV>, Box<ExprV>),
    Neg(Box<ExprV>),
}

/// The value of an expression.
pub open spec fn expr_view(e: Expr) -> ExprV
    decreases e, 0nat,
{
    match e {
        Expr::Number(s) => ExprV::Number(s@),
        Expr::Selector(s) => ExprV::Selector(s@),
        Expr::Call { func, args } => ExprV::Call(func@, exprs_view(args@, args@.len())),
        Expr::Aggregate { op, grouping, param, arg } => ExprV::Aggregate(
            op,
            grouping@,
            match param {
                Some(p) => Some(Box::new(expr_view(*p))),
                None => None,
            },
            Box::new(expr_view(*arg)),
        ),
        Expr::Binary { op, lhs, rhs } => ExprV::Binary(
            op,
            Box::new(expr_view(*lhs)),
            Box::new(expr_view(*rhs)),
        ),
        Expr::Neg(inner) => ExprV::Neg(Box::new(expr_view(*inner))),
    }
}

/// The values of the first `n` expressions of a list.
pub open spec fn exprs_view(v: Seq<Expr>, n: nat) -> Seq<ExprV>
    decreases v, n,
{
    if n == 0 || n > v.len() {
        Seq::empty()
    } else {
        exprs_view(v, (n - 1) as nat).push(expr_view(v[n - 1]))
    }
}

impl View for Expr {
    type V = ExprV;

    open spec fn view(&self) -> ExprV {
        expr_view(*self)
    }
}

impl AggOp {
    /// The aggregation an identifier names, if any.
    pub open spec fn spec_from_name(name: Seq<char>) -> Option<AggOp> {
        if name == "sum"@ {
            Some(AggOp::Sum)
        } else if name == "avg"@ {
            Some(AggOp::Avg)
        } else if name == "min"@ {
            Some(AggOp::Min)
        } else if name == "max"@ {
            Some(AggOp::Max)
        } else if name == "count"@ {
            Some(AggOp::Count)
        } else if name == "quantile"@ {
            Some(AggOp::Quantile)
        } else {
            None
        }
    }

    /// The name an aggregation is written with.
    pub open spec fn spec_name(self) -> Seq<char> {
        match self {
            AggOp::Sum => "sum"@,
            AggOp::Avg => "avg"@,
            AggOp::Min => "min"@,
            AggOp::Max => "max"@,
            AggOp::Count => "count"@,
            AggOp::Quantile => "quantile"@,
        }
    }

    pub fn from_name(name: &str) -> (r: Option<AggOp>)
        ensures
            r == AggOp::spec_from_name(name@),
    {
        if crate::labels::same_str(name, "sum") {
            Some(AggOp::Sum)
        } else if crate::labels::same_str(name, "avg") {
            Some(AggOp::Avg)
        } else if crate::labels::same_str(name, "min") {
            Some(AggOp::Min)
        } else if crate::labels::same_str(name, "max") {
            Some(AggOp::Max)
        } else if crate::labels::same_str(name, "count") {
            Some(AggOp::Count)
        } else if crate::labels::same_str(name, "quantile") {
            Some(AggOp::Quantile)
        } else {
            None
        }
    }

    pub fn name(self) -> (s: &'static str)
        ensures
            s@ == self.spec_name(),
    {
        match self {
            AggOp::Sum => "sum",
            AggOp::Avg => "avg",
            AggOp::Min => "min",
            AggOp::Max => "max",
            AggOp::Count => "count",
            AggOp::Quantile => "quantile",
        }
    }
}

impl BinOp {
    /// The symbol an operator is written with.
    pub open spec fn spec_symbol(self) -> Seq<char> {
        match self {
            BinOp::Add => "+"@,
            BinOp::Sub => "-"@,
            BinOp::Mul => "*"@,
            BinOp::Div => "/"@,
        }
    }

    pub fn symbol(self) -> (s: &'static str)
        ensures
            s@ == self.spec_symbol(),
    {
        match self {
            BinOp::Add => "+",
            BinOp::Sub => "-",
            BinOp::Mul => "*",
            BinOp::Div => "/",
        }
    }
}

/// A name for each aggregation is a name of that aggregation, and no other.
pub proof fn lemma_agg_name_round_trip(op: AggOp)
    ensures
        AggOp::spec_from_name(op.spec_name()) == Some(op),
{
    reveal_strlit("sum");
    reveal_strlit("avg");
    reveal_strlit("min");
    reveal_strlit("max");
    reveal_strlit("count");
    reveal_strlit("quantile");
    match op {
        AggOp::Sum => {},
        AggOp::Avg => {
            assert("avg"@[0] != "sum"@[0]);
        },
        AggOp::Min => {
            assert("min"@[0] != "sum"@[0]);
            assert("min"@[0] != "avg"@[0]);
        },
        AggOp::Max => {
            assert("max"@[0] != "sum"@[0]);
            assert("max"@[0] != "avg"@[0]);
            assert("max"@[1] != "min"@[1]);
        },
        AggOp::Count => {
            assert("count"@.len() != "sum"@.len());
            assert("count"@.len() != "avg"@.len());
            assert("count"@.len() != "min"@.len());
            assert("count"@.len() != "max"@.len());
        },
        AggOp::Quantile => {
            assert("quantile"@.len() != "sum"@.len());
            assert("quantile"@.len() != "avg"@.len());
            assert("quantile"@.len() != "min"@.len());
            assert("quantile"@.len() != "max"@.len());
            assert("quantile"@.len() != "count"@.len());
        },
    }
}

} // verus!
