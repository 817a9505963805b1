//! The planner: validates an AST and lowers it to an executable [`Plan`].
//!
//! Lowering resolves selectors, rejects unsupported constructs, and tracks
//! each node's value type so the executor never meets an ill-typed plan (e.g.
//! a raw range vector at the top level, or a binary op between two vectors).

use vstd::prelude::*;
use crate::ast::{
    AggOp, BinOp, Expr, ExprV, Grouping, GroupingV, Matcher, MatcherV, SelectorV, exprs_view, matchers_view,
    strings_view,
};
use crate::error::{QErr, QueryError};
use crate::parser::{parse, spec_parse_query};
use crate::query::Matcher as StoreMatcher;
use crate::text::{decimal, push_str};

verus! {

/// A validated, executable query plan. Numbers are kept as written.
#[derive(Debug)]
pub enum Plan {
    Scalar(String),
    Select { metric: String, matchers: Vec<StoreMatcher>, range_ms: Option<u64> },
    Func { name: String, param: Option<String>, input: Box<Plan> },
    Aggregate { op: AggOp, grouping: Grouping, param: Option<String>, input: Box<Plan> },
    Binary { op: BinOp, lhs: Box<Plan>, rhs: Box<Plan> },
    Neg(Box<Plan>),
}

/// The kind of value a plan node produces.
#[derive(Debug, Clone, Copy, PartialEq, Eq, Structural)]
pub enum VType {
    Scalar,
    Vector,
    Range,
}

/// A store matcher as a value: kind `0` for `=`, `1` for `!=`.
pub open spec fn store_matcher_view(m: StoreMatcher) -> MatcherV {
    match m {
        StoreMatcher::Eq(k, v) => MatcherV { kind: 0, label: k@, value: v@ },
        StoreMatcher::Ne(k, v) => MatcherV { kind: 1, label: k@, value: v@ },
    }
}

pub open spec fn store_matchers_view(v: Seq<StoreMatcher>) -> Seq<MatcherV> {
    v.map_values(|m: StoreMatcher| store_matcher_view(m))
}

pub open spec fn opt_view(o: Option<String>) -> Option<Seq<char>> {
    match o {
        Some(s) => Some(s@),
        None => None,
    }
}

/// A plan as a value.
pub ghost enum PlanV {
    Scalar(Seq<char>),
    Select(Seq<char>, Seq<MatcherV>, Option<u64>),
    Func(Seq<char>, Option<Seq<char>>, Box<PlanV>),
    Aggregate(AggOp, GroupingV, Option<Seq<char>>, Box<PlanV>),
    Binary(BinOp, Box<PlanV>, Box<PlanV>),
    Neg(Box<PlanV>),
}

pub open spec fn plan_view(p: Plan) -> PlanV
    decreases p,
{
    match p {
        Plan::Scalar(v) => PlanV::Scalar(v@),
        Plan::Select { metric, matchers, range_ms } => PlanV::Select(
            metric@,
            store_matchers_view(matchers@),
            range_ms,
        ),
        Plan::Func { name, param, input } => PlanV::Func(
            name@,
            opt_view(param),
            Box::new(plan_view(*input)),
        ),
        Plan::Aggregate { op, grouping, param, input } => PlanV::Aggregate(
            op,
            grouping@,
            opt_view(param),
            Box::new(plan_view(*input)),
        ),
        Plan::Binary { op, lhs, rhs } => PlanV::Binary(
            op,
            Box::new(plan_view(*lhs)),
            Box::new(plan_view(*rhs)),
        ),
        Plan::Neg(inner) => PlanV::Neg(Box::new(plan_view(*inner))),
    }
}

impl View for Plan {
    type V = PlanV;

    open spec fn view(&self) -> PlanV {
        plan_view(*self)
    }
}

// ---------------------------------------------------------------------------
// The typing rules.
// ---------------------------------------------------------------------------

/// The functions that take a range vector.
pub open spec fn is_range_fn(name: Seq<char>) -> bool {
    ||| name == "rate"@
    ||| name == "increase"@
    ||| name == "avg_over_time"@
    ||| name == "sum_over_time"@
    ||| name == "min_over_time"@
    ||| name == "max_over_time"@
    ||| name == "count_over_time"@
    ||| name == "quantile_over_time"@
}

/// The range functions a query can call: `rate`, `increase` and the
/// `*_over_time` family. Each of them, applied to a range-vector selector
/// (one with a range and without regex matchers), lowers to that function
/// over the selector, giving an instant vector; `quantile_over_time` takes
/// its number parameter first.
pub proof fn lemma_range_functions_lower(name: Seq<char>, sel: SelectorV, q: Seq<char>)
    requires
        name == "rate"@ || name == "increase"@ || name == "avg_over_time"@ || name
            == "sum_over_time"@ || name == "min_over_time"@ || name == "max_over_time"@ || name
            == "count_over_time"@,
        sel.range_ms is Some,
        forall|j: int| 0 <= j < sel.matchers.len() ==> #[trigger] sel.matchers[j].kind < 2,
    ensures
        lower_spec(ExprV::Call(name, seq![ExprV::Selector(sel)])) == Ok::<(PlanV, VType), QErr>(
            (
                PlanV::Func(
                    name,
                    None,
                    Box::new(PlanV::Select(sel.metric, sel.matchers, sel.range_ms)),
                ),
                VType::Vector,
            ),
        ),
        lower_spec(
            ExprV::Call("quantile_over_time"@, seq![ExprV::Number(q), ExprV::Selector(sel)]),
        ) == Ok::<(PlanV, VType), QErr>(
            (
                PlanV::Func(
                    "quantile_over_time"@,
                    Some(q),
                    Box::new(PlanV::Select(sel.metric, sel.matchers, sel.range_ms)),
                ),
                VType::Vector,
            ),
        ),
{
    reveal_strlit("rate");
    reveal_strlit("increase");
    reveal_strlit("avg_over_time");
    reveal_strlit("sum_over_time");
    reveal_strlit("min_over_time");
    reveal_strlit("max_over_time");
    reveal_strlit("count_over_time");
    reveal_strlit("quantile_over_time");
    assert(name != "quantile_over_time"@) by {
        if name == "quantile_over_time"@ {
            assert(name.len() == 18);
            assert(name[0] == 'q');
        }
    }
    assert(is_range_fn(name));
    assert(is_range_fn("quantile_over_time"@));
    assert(!(exists|j: int| 0 <= j < sel.matchers.len() && #[trigger] sel.matchers[j].kind >= 2));
    let select = PlanV::Select(sel.metric, sel.matchers, sel.range_ms);
    assert(lower_spec(ExprV::Selector(sel)) == Ok::<(PlanV, VType), QErr>((select, VType::Range)));
    let one = seq![ExprV::Selector(sel)];
    assert(one.len() == 1 && one[0] == ExprV::Selector(sel));
    assert(finish_call(name, None, lower_spec(one[0])) == Ok::<(PlanV, VType), QErr>(
        (PlanV::Func(name, None, Box::new(select)), VType::Vector),
    ));
    let two = seq![ExprV::Number(q), ExprV::Selector(sel)];
    assert(two.len() == 2 && two[0] == ExprV::Number(q) && two[1] == ExprV::Selector(sel));
    assert(lower_spec(two[0]) == Ok::<(PlanV, VType), QErr>((PlanV::Scalar(q), VType::Scalar)));
    assert(const_of(PlanV::Scalar(q)) == Some(q));
}

pub open spec fn unsupported(m: Seq<char>) -> QErr {
    QErr::Unsupported(m)
}

pub open spec fn parse_err(m: Seq<char>) -> QErr {
    QErr::Parse(m)
}

/// The number a plan is, if it is a constant.
pub open spec fn const_of(p: PlanV) -> Option<Seq<char>> {
    match p {
        PlanV::Scalar(v) => Some(v),
        _ => None,
    }
}

/// A range-vector function applied to its lowered input.
pub open spec fn finish_call(
    func: Seq<char>,
    param: Option<Seq<char>>,
    input: Result<(PlanV, VType), QErr>,
) -> Result<(PlanV, VType), QErr> {
    match input {
        Err(e) => Err(e),
        Ok((ip, it)) => {
            if it != VType::Range {
                Err(unsupported(func + " expects a range vector like metric[5m]"@))
            } else {
                Ok((PlanV::Func(func, param, Box::new(ip)), VType::Vector))
            }
        },
    }
}

/// The plan of a selector: its matchers carried over (regex matchers are
/// refused); a range makes it a range vector.
pub open spec fn lower_selector_spec(
    metric: Seq<char>,
    matchers: Seq<MatcherV>,
    range_ms: Option<u64>,
) -> Result<(PlanV, VType), QErr> {
    if exists|j: int| 0 <= j < matchers.len() && #[trigger] matchers[j].kind >= 2 {
        Err(unsupported("regex matchers (=~, !~) are not supported yet"@))
    } else {
        Ok(
            (
                PlanV::Select(metric, matchers, range_ms),
                if range_ms is Some {
                    VType::Range
                } else {
                    VType::Vector
                },
            ),
        )
    }
}

/// The plan of an expression and the kind of value it produces, or why it
/// is refused.
pub open spec fn lower_spec(e: ExprV) -> Result<(PlanV, VType), QErr>
    decreases e,
{
    match e {
        ExprV::Number(v) => Ok((PlanV::Scalar(v), VType::Scalar)),
        ExprV::Selector(s) => lower_selector_spec(s.metric, s.matchers, s.range_ms),
        ExprV::Call(func, args) => {
            if !is_range_fn(func) {
                Err(unsupported("unknown function `"@ + func + "`"@))
            } else if func == "quantile_over_time"@ {
                if args.len() != 2 {
                    Err(parse_err("quantile_over_time expects (scalar, range vector)"@))
                } else {
                    match lower_spec(args[0]) {
                        Err(err) => Err(err),
                        Ok((pp, pt)) => {
                            if pt != VType::Scalar {
                                Err(parse_err("quantile_over_time parameter must be a scalar"@))
                            } else {
                                match const_of(pp) {
                                    None => Err(
                                        unsupported(
                                            "quantile_over_time parameter"@
                                                + " must be a constant number"@,
                                        ),
                                    ),
                                    Some(v) => finish_call(func, Some(v), lower_spec(args[1])),
                                }
                            }
                        },
                    }
                }
            } else {
                if args.len() != 1 {
                    Err(parse_err(func + " expects one argument"@))
                } else {
                    finish_call(func, None, lower_spec(args[0]))
                }
            }
        },
        ExprV::Aggregate(op, g, param, arg) => match lower_spec(*arg) {
            Err(err) => Err(err),
            Ok((ip, it)) => {
                if it != VType::Vector {
                    Err(unsupported(op.spec_name() + " expects an instant vector"@))
                } else if op == AggOp::Quantile {
                    match param {
                        Some(pe) => match lower_spec(*pe) {
                            Err(err) => Err(err),
                            Ok((pp, pt)) => {
                                if pt != VType::Scalar {
                                    Err(parse_err("quantile parameter must be a scalar"@))
                                } else {
                                    match const_of(pp) {
                                        None => Err(
                                            unsupported(
                                                "quantile parameter"@ + " must be a constant number"@,
                                            ),
                                        ),
                                        Some(v) => Ok(
                                            (
                                                PlanV::Aggregate(op, g, Some(v), Box::new(ip)),
                                                VType::Vector,
                                            ),
                                        ),
                                    }
                                }
                            },
                        },
                        None => Err(parse_err("quantile expects a parameter"@)),
                    }
                } else {
                    Ok((PlanV::Aggregate(op, g, None, Box::new(ip)), VType::Vector))
                }
            },
        },
        ExprV::Binary(op, l, r) => match lower_spec(*l) {
            Err(err) => Err(err),
            Ok((lp, lt)) => match lower_spec(*r) {
                Err(err) => Err(err),
                Ok((rp, rt)) => {
                    if lt == VType::Range || rt == VType::Range {
                        Err(unsupported("range vectors are only allowed inside functions"@))
                    } else if lt == VType::Vector && rt == VType::Vector {
                        Err(
                            unsupported(
                                "binary operations between two vectors are not supported yet"@,
                            ),
                        )
                    } else {
                        Ok(
                            (
                                PlanV::Binary(op, Box::new(lp), Box::new(rp)),
                                if lt == VType::Scalar && rt == VType::Scalar {
                                    VType::Scalar
                                } else {
                                    VType::Vector
                                },
                            ),
                        )
                    }
                },
            },
        },
        ExprV::Neg(inner) => match lower_spec(*inner) {
            Err(err) => Err(err),
            Ok((p, t)) => {
                if t == VType::Range {
                    Err(unsupported("cannot negate a range vector"@))
                } else {
                    Ok((PlanV::Neg(Box::new(p)), t))
                }
            },
        },
    }
}

/// The plan of an expression, which must not be a bare range vector.
pub open spec fn spec_lower(e: ExprV) -> Result<PlanV, QErr> {
    match lower_spec(e) {
        Err(err) => Err(err),
        Ok((p, t)) => {
            if t == VType::Range {
                Err(
                    unsupported(
                        "result is a range vector; wrap it in a function such as rate()"@,
                    ),
                )
            } else {
                Ok(p)
            }
        },
    }
}

/// The plan of a query string.
pub open spec fn spec_plan(c: Seq<char>) -> Result<PlanV, QErr> {
    match spec_parse_query(c) {
        Err(err) => Err(err),
        Ok(e) => spec_lower(e),
    }
}

/// The kind of value a plan produces.
pub open spec fn vtype_of(p: PlanV) -> VType
    decreases p,
{
    match p {
        PlanV::Scalar(_) => VType::Scalar,
        PlanV::Select(_, _, r) => if r is Some {
            VType::Range
        } else {
            VType::Vector
        },
        PlanV::Func(..) => VType::Vector,
        PlanV::Aggregate(..) => VType::Vector,
        PlanV::Binary(_, l, r) => if vtype_of(*l) == VType::Scalar && vtype_of(*r) == VType::Scalar {
            VType::Scalar
        } else {
            VType::Vector
        },
        PlanV::Neg(inner) => vtype_of(*inner),
    }
}

/// A plan the executor can run: functions read range vectors, aggregations
/// read instant vectors, and arithmetic and negation never meet a range
/// vector or combine two vectors.
pub open spec fn well_typed(p: PlanV) -> bool
    decreases p,
{
    match p {
        PlanV::Scalar(_) => true,
        PlanV::Select(_, ms, _) => forall|j: int| 0 <= j < ms.len() ==> #[trigger] ms[j].kind < 2,
        PlanV::Func(_, _, input) => vtype_of(*input) == VType::Range && well_typed(*input),
        PlanV::Aggregate(_, _, _, input) => vtype_of(*input) == VType::Vector && well_typed(*input),
        PlanV::Binary(_, l, r) => {
            &&& well_typed(*l)
            &&& well_typed(*r)
            &&& vtype_of(*l) != VType::Range
            &&& vtype_of(*r) != VType::Range
            &&& !(vtype_of(*l) == VType::Vector && vtype_of(*r) == VType::Vector)
        },
        PlanV::Neg(inner) => well_typed(*inner) && vtype_of(*inner) != VType::Range,
    }
}

/// Lowering only ever yields a well-typed plan, of the kind it reports.
pub proof fn lemma_lower_well_typed(e: ExprV)
    ensures
        lower_spec(e) matches Ok((p, t)) ==> well_typed(p) && vtype_of(p) == t,
    decreases e,
{
    match e {
        ExprV::Call(func, args) => {
            if args.len() == 2 {
                lemma_lower_well_typed(args[1]);
            }
            if args.len() == 1 {
                lemma_lower_well_typed(args[0]);
            }
        },
        ExprV::Aggregate(op, g, param, arg) => {
            lemma_lower_well_typed(*arg);
        },
        ExprV::Binary(op, l, r) => {
            lemma_lower_well_typed(*l);
            lemma_lower_well_typed(*r);
        },
        ExprV::Neg(inner) => {
            lemma_lower_well_typed(*inner);
        },
        _ => {},
    }
}

/// A plan built from a query is well typed and is never a bare range
/// vector: the executor only ever walks a plan it can run.
pub proof fn lemma_plan_runnable(e: ExprV)
    ensures
        spec_lower(e) matches Ok(p) ==> well_typed(p) && vtype_of(p) != VType::Range,
{
    lemma_lower_well_typed(e);
}

// ---------------------------------------------------------------------------
// Lowering.
// ---------------------------------------------------------------------------

proof fn lemma_strings_view_push(v: Seq<String>, s: String)
    ensures
        strings_view(v.push(s)) == strings_view(v).push(s@),
{
    assert(strings_view(v.push(s)) =~= strings_view(v).push(s@));
}

fn clone_strings(v: &Vec<String>) -> (r: Vec<String>)
    ensures
        strings_view(r@) == strings_view(v@),
{
    let mut r: Vec<String> = Vec::new();
    let mut i: usize = 0;
    while i < v.len()
        invariant
            i <= v@.len(),
            strings_view(r@) == strings_view(v@.take(i as int)),
        decreases v@.len() - i,
    {
        let ghost before = r@;
        let c = v[i].clone();
        r.push(c);
        proof {
            lemma_strings_view_push(before, c);
            assert(v@.take(i + 1) =~= v@.take(i as int).push(v@[i as int]));
            lemma_strings_view_push(v@.take(i as int), v@[i as int]);
        }
        i = i + 1;
    }
    assert(v@.take(v@.len() as int) =~= v@);
    r
}

fn clone_grouping(g: &Grouping) -> (r: Grouping)
    ensures
        r@ == g@,
{
    match g {
        Grouping::Ungrouped => Grouping::Ungrouped,
        Grouping::By(l) => Grouping::By(clone_strings(l)),
        Grouping::Without(l) => Grouping::Without(clone_strings(l)),
    }
}

fn unsupported_err(m: &str) -> (e: QueryError)
    ensures
        e@ == unsupported(m@),
{
    QueryError::Unsupported(m.to_owned())
}

fn parse_error(m: &str) -> (e: QueryError)
    ensures
        e@ == parse_err(m@),
{
    QueryError::Parse(m.to_owned())
}

/// `prefix` then `suffix`, as an unsupported-construct error.
fn unsupported_msg(prefix: &str, suffix: &str) -> (e: QueryError)
    ensures
        e@ == unsupported(prefix@ + suffix@),
{
    let mut m = prefix.to_owned();
    push_str(&mut m, suffix);
    QueryError::Unsupported(m)
}

/// The plan of a selector.
fn lower_selector(sel: &crate::ast::Selector) -> (r: Result<(Plan, VType), QueryError>)
    ensures
        match r {
            Ok((p, t)) => lower_selector_spec(sel@.metric, sel@.matchers, sel@.range_ms) == Ok::<(PlanV, VType), QErr>((p@, t)),
            Err(e) => lower_selector_spec(sel@.metric, sel@.matchers, sel@.range_ms) == Err::<(PlanV, VType), QErr>(e@),
        },
{
    let ghost ms = sel@.matchers;
    let mut matchers: Vec<StoreMatcher> = Vec::new();
    let mut i: usize = 0;
    while i < sel.matchers.len()
        invariant
            ms == matchers_view(sel.matchers@),
            i <= sel.matchers@.len(),
            store_matchers_view(matchers@) == ms.take(i as int),
            forall|j: int| 0 <= j < i ==> ms[j].kind < 2,
        decreases sel.matchers@.len() - i,
    {
        let m = match &sel.matchers[i] {
            Matcher::Eq(k, v) => StoreMatcher::Eq(k.clone(), v.clone()),
            Matcher::Ne(k, v) => StoreMatcher::Ne(k.clone(), v.clone()),
            _ => {
                assert(ms[i as int].kind >= 2);
                return Err(unsupported_err("regex matchers (=~, !~) are not supported yet"));
            },
        };
        let ghost before = matchers@;
        matchers.push(m);
        proof {
            assert(ms[i as int] == sel.matchers@[i as int]@);
            assert(store_matchers_view(before.push(m)) =~= store_matchers_view(before).push(
                store_matcher_view(m),
            ));
            assert(ms.take(i + 1) =~= ms.take(i as int).push(ms[i as int]));
        }
        i = i + 1;
    }
    assert(ms.take(i as int) =~= ms);
    let ty = if sel.range_ms.is_some() {
        VType::Range
    } else {
        VType::Vector
    };
    Ok((Plan::Select { metric: sel.metric.clone(), matchers, range_ms: sel.range_ms }, ty))
}

/// The constant a plan is, or an error naming `context`.
fn require_const(plan: &Plan, context: &str) -> (r: Result<String, QueryError>)
    ensures
        match r {
            Ok(v) => const_of(plan@) == Some(v@),
            Err(e) => const_of(plan@) is None && e@ == unsupported(
                context@ + " must be a constant number"@,
            ),
        },
{
    match plan {
        Plan::Scalar(v) => Ok(v.clone()),
        _ => Err(unsupported_msg(context, " must be a constant number")),
    }
}

/// Whether `name` is a function over range vectors.
fn is_range_function(name: &str) -> (b: bool)
    ensures
        b == is_range_fn(name@),
{
    crate::labels::same_str(name, "rate") || crate::labels::same_str(name, "increase")
        || crate::labels::same_str(name, "avg_over_time") || crate::labels::same_str(
        name,
        "sum_over_time",
    ) || crate::labels::same_str(name, "min_over_time") || crate::labels::same_str(
        name,
        "max_over_time",
    ) || crate::labels::same_str(name, "count_over_time") || crate::labels::same_str(
        name,
        "quantile_over_time",
    )
}

/// The plan of an expression and the kind of value it produces.
fn lower_typed(e: &Expr) -> (r: Result<(Plan, VType), QueryError>)
    ensures
        match r {
            Ok((p, t)) => lower_spec(e@) == Ok::<(PlanV, VType), QErr>((p@, t)),
            Err(err) => lower_spec(e@) == Err::<(PlanV, VType), QErr>(err@),
        },
    decreases e, 1int,
{
    match e {
        Expr::Number(v) => Ok((Plan::Scalar(v.clone()), VType::Scalar)),
        Expr::Selector(sel) => lower_selector(sel),
        Expr::Call { .. } => lower_call(e),
        Expr::Aggregate { .. } => lower_aggregate(e),
        Expr::Binary { .. } => lower_binary(e),
        Expr::Neg(inner) => {
            let (plan, ty) = lower_typed(inner)?;
            if matches!(ty, VType::Range) {
                return Err(unsupported_err("cannot negate a range vector"));
            }
            Ok((Plan::Neg(Box::new(plan)), ty))
        },
    }
}

/// The plan of a call to a range-vector function.
fn lower_call(e: &Expr) -> (r: Result<(Plan, VType), QueryError>)
    requires
        e is Call,
    ensures
        match r {
            Ok((p, t)) => lower_spec(e@) == Ok::<(PlanV, VType), QErr>((p@, t)),
            Err(err) => lower_spec(e@) == Err::<(PlanV, VType), QErr>(err@),
        },
    decreases e, 0int,
{
    let (func, args) = match e {
        Expr::Call { func, args } => (func, args),
        _ => {
            return Err(parse_error(""));
        },
    };
    proof {
        crate::parser::lemma_exprs_view(args@, args@.len());
    }
    if !is_range_function(func.as_str()) {
        let mut m = "unknown function `".to_owned();
        push_str(&mut m, func.as_str());
        push_str(&mut m, "`");
        return Err(QueryError::Unsupported(m));
    }
    let (param, input_expr) = if crate::labels::same_str(func.as_str(), "quantile_over_time") {
        if args.len() != 2 {
            return Err(parse_error("quantile_over_time expects (scalar, range vector)"));
        }
        let (param_plan, param_ty) = lower_typed(&args[0])?;
        if !matches!(param_ty, VType::Scalar) {
            return Err(parse_error("quantile_over_time parameter must be a scalar"));
        }
        (Some(require_const(&param_plan, "quantile_over_time parameter")?), &args[1])
    } else {
        if args.len() != 1 {
            let mut m = func.clone();
            push_str(&mut m, " expects one argument");
            return Err(QueryError::Parse(m));
        }
        (None, &args[0])
    };
    let (input, input_ty) = lower_typed(input_expr)?;
    if !matches!(input_ty, VType::Range) {
        let mut m = func.clone();
        push_str(&mut m, " expects a range vector like metric[5m]");
        return Err(QueryError::Unsupported(m));
    }
    Ok((Plan::Func { name: func.clone(), param, input: Box::new(input) }, VType::Vector))
}

/// The plan of an aggregation.
fn lower_aggregate(e: &Expr) -> (r: Result<(Plan, VType), QueryError>)
    requires
        e is Aggregate,
    ensures
        match r {
            Ok((p, t)) => lower_spec(e@) == Ok::<(PlanV, VType), QErr>((p@, t)),
            Err(err) => lower_spec(e@) == Err::<(PlanV, VType), QErr>(err@),
        },
    decreases e, 0int,
{
    let (op, grouping, param, arg) = match e {
        Expr::Aggregate { op, grouping, param, arg } => (*op, grouping, param, arg),
        _ => {
            return Err(parse_error(""));
        },
    };
    let (input, input_ty) = lower_typed(arg)?;
    if !matches!(input_ty, VType::Vector) {
        return Err(unsupported_msg(op.name(), " expects an instant vector"));
    }
    let p = if matches!(op, AggOp::Quantile) {
        match param {
            Some(expr) => {
                let (plan, ty) = lower_typed(expr)?;
                if !matches!(ty, VType::Scalar) {
                    return Err(parse_error("quantile parameter must be a scalar"));
                }
                Some(require_const(&plan, "quantile parameter")?)
            },
            None => {
                return Err(parse_error("quantile expects a parameter"));
            },
        }
    } else {
        None
    };
    Ok(
        (
            Plan::Aggregate {
                op,
                grouping: clone_grouping(grouping),
                param: p,
                input: Box::new(input),
            },
            VType::Vector,
        ),
    )
}

/// The plan of a binary operation.
fn lower_binary(e: &Expr) -> (r: Result<(Plan, VType), QueryError>)
    requires
        e is Binary,
    ensures
        match r {
            Ok((p, t)) => lower_spec(e@) == Ok::<(PlanV, VType), QErr>((p@, t)),
            Err(err) => lower_spec(e@) == Err::<(PlanV, VType), QErr>(err@),
        },
    decreases e, 0int,
{
    let (op, lhs, rhs) = match e {
        Expr::Binary { op, lhs, rhs } => (*op, lhs, rhs),
        _ => {
            return Err(parse_error(""));
        },
    };
    let (lhs_plan, lhs_ty) = lower_typed(lhs)?;
    let (rhs_plan, rhs_ty) = lower_typed(rhs)?;
    if matches!(lhs_ty, VType::Range) || matches!(rhs_ty, VType::Range) {
        return Err(unsupported_err("range vectors are only allowed inside functions"));
    }
    let ty = if matches!(lhs_ty, VType::Scalar) && matches!(rhs_ty, VType::Scalar) {
        VType::Scalar
    } else if matches!(lhs_ty, VType::Vector) && matches!(rhs_ty, VType::Vector) {
        return Err(
            unsupported_err("binary operations between two vectors are not supported yet"),
        );
    } else {
        VType::Vector
    };
    Ok((Plan::Binary { op, lhs: Box::new(lhs_plan), rhs: Box::new(rhs_plan) }, ty))
}

/// Lower an AST into a plan, rejecting a bare range-vector result.
pub fn lower(expr: &Expr) -> (r: Result<Plan, QueryError>)
    ensures
        r is Ok <==> spec_lower(expr@) is Ok,
        r matches Ok(p) ==> spec_lower(expr@) == Ok::<PlanV, QErr>(p@),
        r matches Err(e) ==> spec_lower(expr@) == Err::<PlanV, QErr>(e@),
{
    let (plan, ty) = lower_typed(expr)?;
    if matches!(ty, VType::Range) {
        return Err(
            unsupported_err("result is a range vector; wrap it in a function such as rate()"),
        );
    }
    Ok(plan)
}

/// Validate and lower a query string into an executable [`Plan`].
pub fn plan(input: &str) -> (r: Result<Plan, QueryError>)
    requires
        input@.len() < usize::MAX - 9,
    ensures
        r is Ok <==> spec_plan(input@) is Ok,
        r matches Ok(p) ==> spec_plan(input@) == Ok::<PlanV, QErr>(p@),
        r matches Err(e) ==> spec_plan(input@) == Err::<PlanV, QErr>(e@),
{
    let expr = parse(input)?;
    lower(&expr)
}

// ---------------------------------------------------------------------------
// Rendering a plan as an indented tree.
// ---------------------------------------------------------------------------

/// `s` without leading zeros, keeping at least one character.
pub open spec fn strip_leading_zeros(s: Seq<char>) -> Seq<char>
    decreases s.len(),
{
    if s.len() > 1 && s[0] == '0' {
        strip_leading_zeros(s.drop_first())
    } else {
        s
    }
}

/// `s` without trailing zeros.
pub open spec fn strip_trailing_zeros(s: Seq<char>) -> Seq<char>
    decreases s.len(),
{
    if s.len() > 0 && s.last() == '0' {
        strip_trailing_zeros(s.drop_last())
    } else {
        s
    }
}

/// The position of the first `.` in `s` at or after `i`.
pub open spec fn first_dot(s: Seq<char>, i: int) -> Option<int>
    decreases s.len() - i,
{
    if i < 0 || i >= s.len() {
        None
    } else if s[i] == '.' {
        Some(i)
    } else {
        first_dot(s, i + 1)
    }
}

/// A number literal in its shortest decimal form: no leading zeros in the
/// integer part, no trailing zeros in the fraction, and no point when the
/// fraction is empty (`0.50` is shown as `0.5`, `1.0` as `1`).
///
/// Plans keep a number as the literal's exact digits, not as the nearest
/// `f64`: for literals of up to 15 significant digits the two print alike,
/// while longer literals keep every digit here (`123456789012345678901`
/// stays as written rather than showing the `f64`'s `123456789012345680000`).
pub open spec fn number_text(lit: Seq<char>) -> Seq<char> {
    match first_dot(lit, 0) {
        None => strip_leading_zeros(lit),
        Some(i) => {
            let ip = strip_leading_zeros(lit.subrange(0, i));
            let fp = strip_trailing_zeros(lit.subrange(i + 1, lit.len() as int));
            if fp.len() == 0 {
                ip
            } else {
                ip + seq!['.'] + fp
            }
        },
    }
}

/// The parts joined by `sep`.
pub open spec fn joined(parts: Seq<Seq<char>>, sep: Seq<char>) -> Seq<char>
    decreases parts.len(),
{
    if parts.len() == 0 {
        Seq::empty()
    } else if parts.len() == 1 {
        parts[0]
    } else {
        joined(parts.drop_last(), sep) + sep + parts.last()
    }
}

pub open spec fn matcher_text(m: MatcherV) -> Seq<char> {
    m.label + (if m.kind == 0 {
        "=\""@
    } else {
        "!=\""@
    }) + m.value + "\""@
}

/// Matchers in braces, or nothing when there are none.
pub open spec fn matchers_text(ms: Seq<MatcherV>) -> Seq<char> {
    if ms.len() == 0 {
        Seq::empty()
    } else {
        "{"@ + joined(ms.map_values(|m: MatcherV| matcher_text(m)), ","@) + "}"@
    }
}

/// A range in its largest whole unit.
pub open spec fn range_text(r: Option<u64>) -> Seq<char> {
    match r {
        None => Seq::empty(),
        Some(ms) => {
            if ms % 3_600_000 == 0 {
                " ["@ + decimal((ms / 3_600_000) as nat) + "h]"@
            } else if ms % 60_000 == 0 {
                " ["@ + decimal((ms / 60_000) as nat) + "m]"@
            } else if ms % 1_000 == 0 {
                " ["@ + decimal((ms / 1_000) as nat) + "s]"@
            } else {
                " ["@ + decimal(ms as nat) + "ms]"@
            }
        },
    }
}

pub open spec fn param_text(p: Option<Seq<char>>) -> Seq<char> {
    match p {
        None => Seq::empty(),
        Some(v) => " (φ="@ + number_text(v) + ")"@,
    }
}

pub open spec fn grouping_text(g: GroupingV) -> Seq<char> {
    match g {
        GroupingV::Ungrouped => Seq::empty(),
        GroupingV::By(ls) => " by ("@ + joined(ls, ", "@) + ")"@,
        GroupingV::Without(ls) => " without ("@ + joined(ls, ", "@) + ")"@,
    }
}

/// The plan as an indented tree, one node per line, children indented two
/// spaces deeper than their parent.
pub open spec fn tree_text(p: PlanV, pad: Seq<char>) -> Seq<char>
    decreases p,
{
    match p {
        PlanV::Scalar(v) => pad + "Scalar "@ + number_text(v) + "\n"@,
        PlanV::Select(metric, ms, r) => pad + "Select "@ + metric + matchers_text(ms) + range_text(r)
            + "\n"@,
        PlanV::Func(name, param, input) => pad + "Func "@ + name + param_text(param) + "\n"@
            + tree_text(*input, pad + "  "@),
        PlanV::Aggregate(op, g, param, input) => pad + "Aggregate "@ + op.spec_name()
            + grouping_text(g) + param_text(param) + "\n"@ + tree_text(*input, pad + "  "@),
        PlanV::Binary(op, l, r) => pad + "Binary "@ + op.spec_symbol() + "\n"@ + tree_text(
            *l,
            pad + "  "@,
        ) + tree_text(*r, pad + "  "@),
        PlanV::Neg(inner) => pad + "Neg"@ + "\n"@ + tree_text(*inner, pad + "  "@),
    }
}

/// Append a number literal in its shortest decimal form.
fn push_number(out: &mut String, lit: &str)
    ensures
        final(out)@ == old(out)@ + number_text(lit@),
{
    let c = crate::token::chars_of(lit);
    let ghost s = c@;
    // Find the first point.
    let mut dot: usize = 0;
    while dot < c.len() && c[dot] != '.'
        invariant
            dot <= s.len(),
            s == c@,
            first_dot(s, 0) == first_dot(s, dot as int),
        decreases s.len() - dot,
    {
        dot = dot + 1;
    }
    // Integer part without leading zeros.
    let mut start: usize = 0;
    while dot > 0 && start < dot - 1 && c[start] == '0'
        invariant
            start <= dot <= s.len(),
            s == c@,
            strip_leading_zeros(s.subrange(0, dot as int)) == strip_leading_zeros(
                s.subrange(start as int, dot as int),
            ),
        decreases dot - start,
    {
        assert(s.subrange(start as int, dot as int).drop_first() =~= s.subrange(
            start + 1,
            dot as int,
        ));
        start = start + 1;
    }
    proof {
        let t = s.subrange(start as int, dot as int);
        if t.len() > 1 {
            assert(t[0] == s[start as int]);
        }
    }
    let mut i = start;
    while i < dot
        invariant
            start <= i <= dot <= s.len(),
            s == c@,
            out@ == old(out)@ + s.subrange(start as int, i as int),
        decreases dot - i,
    {
        crate::text::push_char(out, c[i]);
        assert(s.subrange(start as int, i + 1) =~= s.subrange(start as int, i as int).push(s[i as int]));
        i = i + 1;
    }
    if dot < c.len() {
        // Fraction without trailing zeros.
        let mut end = c.len();
        while end > dot + 1 && c[end - 1] == '0'
            invariant
                dot + 1 <= end <= s.len(),
                s == c@,
                strip_trailing_zeros(s.subrange(dot + 1, s.len() as int)) == strip_trailing_zeros(
                    s.subrange(dot + 1, end as int),
                ),
            decreases end,
        {
            assert(s.subrange(dot + 1, end as int).drop_last() =~= s.subrange(
                dot + 1,
                end - 1,
            ));
            end = end - 1;
        }
        proof {
            let t = s.subrange(dot + 1, end as int);
            if t.len() > 0 {
                assert(t.last() == s[end - 1]);
            }
        }
        if end > dot + 1 {
            crate::text::push_char(out, '.');
            let ghost mid = out@;
            let mut j = dot + 1;
            while j < end
                invariant
                    dot + 1 <= j <= end <= s.len(),
                    s == c@,
                    out@ == mid + s.subrange(dot + 1, j as int),
                decreases end - j,
            {
                crate::text::push_char(out, c[j]);
                assert(s.subrange(dot + 1, j + 1) =~= s.subrange(dot + 1, j as int).push(s[j as int]));
                j = j + 1;
            }
        }
    } else {
        assert(s.subrange(0, dot as int) =~= s);
    }
    assert(final(out)@ =~= old(out)@ + number_text(lit@)) by {
        if dot < s.len() {
            assert(first_dot(s, 0) == Some(dot as int));
        } else {
            assert(first_dot(s, 0) is None);
        }
    }
}

/// Append the parts of `items` joined by `sep`.
fn push_joined(out: &mut String, items: &Vec<String>, sep: &str)
    ensures
        final(out)@ == old(out)@ + joined(strings_view(items@), sep@),
{
    let ghost parts = strings_view(items@);
    let mut i: usize = 0;
    while i < items.len()
        invariant
            parts == strings_view(items@),
            i <= items@.len(),
            out@ == old(out)@ + joined(parts.take(i as int), sep@),
        decreases items@.len() - i,
    {
        let ghost before = out@;
        if i > 0 {
            push_str(out, sep);
        }
        push_str(out, items[i].as_str());
        proof {
            let t = parts.take(i + 1);
            assert(t.drop_last() =~= parts.take(i as int));
            assert(t.last() == items@[i as int]@);
            if i == 0 {
                assert(parts.take(0) =~= Seq::<Seq<char>>::empty());
            }
        }
        assert(out@ =~= old(out)@ + joined(parts.take(i + 1), sep@));
        i = i + 1;
    }
    assert(parts.take(i as int) =~= parts);
}

/// Append matchers in braces (nothing when there are none).
fn push_matchers(out: &mut String, matchers: &Vec<StoreMatcher>)
    ensures
        final(out)@ == old(out)@ + matchers_text(store_matchers_view(matchers@)),
{
    let ghost ms = store_matchers_view(matchers@);
    let ghost texts = ms.map_values(|m: MatcherV| matcher_text(m));
    if matchers.len() == 0 {
        assert(ms.len() == 0);
        assert(old(out)@ + matchers_text(ms) =~= old(out)@);
        return;
    }
    push_str(out, "{");
    let ghost start = out@;
    let mut i: usize = 0;
    while i < matchers.len()
        invariant
            ms == store_matchers_view(matchers@),
            texts == ms.map_values(|m: MatcherV| matcher_text(m)),
            i <= matchers@.len(),
            out@ == start + joined(texts.take(i as int), ","@),
        decreases matchers@.len() - i,
    {
        if i > 0 {
            push_str(out, ",");
        }
        let ghost mid = out@;
        match &matchers[i] {
            StoreMatcher::Eq(k, v) => {
                push_str(out, k.as_str());
                push_str(out, "=\"");
                push_str(out, v.as_str());
                push_str(out, "\"");
            },
            StoreMatcher::Ne(k, v) => {
                push_str(out, k.as_str());
                push_str(out, "!=\"");
                push_str(out, v.as_str());
                push_str(out, "\"");
            },
        }
        proof {
            assert(ms[i as int] == store_matcher_view(matchers@[i as int]));
            assert(texts[i as int] == matcher_text(ms[i as int]));
            assert(out@ =~= mid + texts[i as int]);
            let t = texts.take(i + 1);
            assert(t.drop_last() =~= texts.take(i as int));
            assert(t.last() == texts[i as int]);
            if i == 0 {
                assert(texts.take(0) =~= Seq::<Seq<char>>::empty());
            }
        }
        assert(out@ =~= start + joined(texts.take(i + 1), ","@));
        i = i + 1;
    }
    assert(texts.take(i as int) =~= texts);
    push_str(out, "}");
    assert(out@ =~= old(out)@ + matchers_text(ms));
}

/// Append a range in its largest whole unit.
fn push_range(out: &mut String, range_ms: Option<u64>)
    ensures
        final(out)@ == old(out)@ + range_text(range_ms),
{
    match range_ms {
        None => {
            assert(old(out)@ + range_text(range_ms) =~= old(out)@);
        },
        Some(ms) => {
            push_str(out, " [");
            if ms % 3_600_000 == 0 {
                crate::text::push_decimal(out, ms / 3_600_000);
                push_str(out, "h]");
            } else if ms % 60_000 == 0 {
                crate::text::push_decimal(out, ms / 60_000);
                push_str(out, "m]");
            } else if ms % 1_000 == 0 {
                crate::text::push_decimal(out, ms / 1_000);
                push_str(out, "s]");
            } else {
                crate::text::push_decimal(out, ms);
                push_str(out, "ms]");
            }
            assert(out@ =~= old(out)@ + range_text(range_ms));
        },
    }
}

fn push_param(out: &mut String, param: &Option<String>)
    ensures
        final(out)@ == old(out)@ + param_text(opt_view(*param)),
{
    match param {
        None => {
            assert(old(out)@ + param_text(opt_view(*param)) =~= old(out)@);
        },
        Some(v) => {
            push_str(out, " (φ=");
            push_number(out, v.as_str());
            push_str(out, ")");
            assert(out@ =~= old(out)@ + param_text(opt_view(*param)));
        },
    }
}

fn push_grouping(out: &mut String, g: &Grouping)
    ensures
        final(out)@ == old(out)@ + grouping_text(g@),
{
    match g {
        Grouping::Ungrouped => {
            assert(old(out)@ + grouping_text(g@) =~= old(out)@);
        },
        Grouping::By(ls) => {
            push_str(out, " by (");
            push_joined(out, ls, ", ");
            push_str(out, ")");
            assert(out@ =~= old(out)@ + grouping_text(g@));
        },
        Grouping::Without(ls) => {
            push_str(out, " without (");
            push_joined(out, ls, ", ");
            push_str(out, ")");
            assert(out@ =~= old(out)@ + grouping_text(g@));
        },
    }
}

impl Plan {
    /// Append this plan as an indented tree, starting at `pad`.
    fn write_tree(&self, out: &mut String, pad: &String)
        ensures
            final(out)@ == old(out)@ + tree_text(self@, pad@),
        decreases self,
    {
        let mut deeper = pad.clone();
        push_str(&mut deeper, "  ");
        push_str(out, pad.as_str());
        match self {
            Plan::Scalar(value) => {
                push_str(out, "Scalar ");
                push_number(out, value.as_str());
                push_str(out, "\n");
            },
            Plan::Select { metric, matchers, range_ms } => {
                push_str(out, "Select ");
                push_str(out, metric.as_str());
                push_matchers(out, matchers);
                push_range(out, *range_ms);
                push_str(out, "\n");
            },
            Plan::Func { name, param, input } => {
                push_str(out, "Func ");
                push_str(out, name.as_str());
                push_param(out, param);
                push_str(out, "\n");
                input.write_tree(out, &deeper);
            },
            Plan::Aggregate { op, grouping, param, input } => {
                push_str(out, "Aggregate ");
                push_str(out, op.name());
                push_grouping(out, grouping);
                push_param(out, param);
                push_str(out, "\n");
                input.write_tree(out, &deeper);
            },
            Plan::Binary { op, lhs, rhs } => {
                push_str(out, "Binary ");
                push_str(out, op.symbol());
                push_str(out, "\n");
                lhs.write_tree(out, &deeper);
                rhs.write_tree(out, &deeper);
            },
            Plan::Neg(inner) => {
                push_str(out, "Neg");
                push_str(out, "\n");
                inner.write_tree(out, &deeper);
            },
        }
        assert(final(out)@ =~= old(out)@ + tree_text(self@, pad@));
    }

    /// The plan as an indented tree, one node per line.
    pub fn to_string(&self) -> (s: String)
        ensures
            s@ == tree_text(self@, Seq::empty()),
    {
        let mut out = String::new();
        let pad = String::new();
        self.write_tree(&mut out, &pad);
        assert(out@ =~= tree_text(self@, Seq::empty()));
        out
    }
}

} // verus!
