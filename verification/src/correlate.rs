//! Anomaly → cause. Given the time window of an anomaly, surface the slowest
//! traces active in it and the error logs they emitted, turning "something is
//! wrong" into "here is what's wrong".

use vstd::prelude::*;
use crate::attributes::AttrV;
use crate::engine::MemoryEngine;
use crate::log::{LogRecord, LogV, Severity};
use crate::logs::{logs_of, records_view};
use crate::query::TimeRange;
use crate::resource::SERVICE_NAME;
use crate::trace::{Span, SpanId, SpanStatus, SpanV, TraceId};
use crate::traces::{roots_of_traces, sort_by_start, spans_of, spans_view, trace_ids};

verus! {

/// A compact summary of one trace, with the span that did the most
/// exclusive work in it. Durations are in nanoseconds.
#[derive(Debug)]
pub struct TraceSummary {
    pub trace_id: TraceId,
    pub root_op: String,
    pub duration_nanos: u64,
    pub failed: bool,
    pub slowest_service: String,
    pub slowest_op: String,
    pub slowest_nanos: u64,
}

/// A trace summary as a value.
pub ghost struct SummaryV {
    pub trace_id: Seq<u8>,
    pub root_op: Seq<char>,
    pub duration_nanos: int,
    pub failed: bool,
    pub slowest_service: Seq<char>,
    pub slowest_op: Seq<char>,
    pub slowest_nanos: int,
}

pub open spec fn summary_view(t: TraceSummary) -> SummaryV {
    SummaryV {
        trace_id: t.trace_id.0@,
        root_op: t.root_op@,
        duration_nanos: t.duration_nanos as int,
        failed: t.failed,
        slowest_service: t.slowest_service@,
        slowest_op: t.slowest_op@,
        slowest_nanos: t.slowest_nanos as int,
    }
}

/// The likely cause of an anomaly: its slowest traces and their error logs.
#[derive(Debug)]
pub struct Explanation {
    pub slowest: Vec<TraceSummary>,
    pub error_logs: Vec<LogRecord>,
}

// ---------------------------------------------------------------------------
// The ranking, as values.
// ---------------------------------------------------------------------------

/// A span's duration, saturating at zero under clock skew.
pub open spec fn dur(x: SpanV) -> int {
    if x.end >= x.start {
        x.end - x.start
    } else {
        0
    }
}

/// The total duration of the children of `x` among `all`.
pub open spec fn children_sum(x: SpanV, all: Seq<SpanV>) -> int
    decreases all.len(),
{
    if all.len() == 0 {
        0
    } else {
        children_sum(x, all.drop_last()) + if all.last().parent_span_id == Some(x.span_id) {
            dur(all.last())
        } else {
            0
        }
    }
}

/// The work `x` did itself: its duration minus its children's, at least 0.
pub open spec fn self_time(x: SpanV, all: Seq<SpanV>) -> int {
    if dur(x) >= children_sum(x, all) {
        dur(x) - children_sum(x, all)
    } else {
        0
    }
}

/// Self time is exclusive time. With no spans around it a span's self time
/// is its whole duration; each further span whose parent is it takes that
/// child's duration off (never going below zero), and any other span leaves
/// it unchanged. So a span with a child of positive duration has self time
/// below its duration, and self time never exceeds duration.
pub proof fn lemma_self_time(x: SpanV, all: Seq<SpanV>, c: SpanV)
    ensures
        self_time(x, Seq::empty()) == dur(x),
        0 <= self_time(x, all) <= dur(x),
        c.parent_span_id == Some(x.span_id) ==> self_time(x, all.push(c)) == if self_time(x, all)
            >= dur(c) {
            self_time(x, all) - dur(c)
        } else {
            0
        },
        c.parent_span_id != Some(x.span_id) ==> self_time(x, all.push(c)) == self_time(x, all),
{
    lemma_children_sum_nonneg(x, all);
    assert(all.push(c).drop_last() =~= all);
}

/// A span with a child of positive duration among `all` did less work itself
/// than its duration: the child's time is not its own.
pub proof fn lemma_child_time_is_not_own(x: SpanV, all: Seq<SpanV>, i: int)
    requires
        0 <= i < all.len(),
        all[i].parent_span_id == Some(x.span_id),
        dur(all[i]) > 0,
        dur(x) > 0,
    ensures
        self_time(x, all) < dur(x),
{
    lemma_children_sum_at_least(x, all, i);
}

proof fn lemma_children_sum_nonneg(x: SpanV, all: Seq<SpanV>)
    ensures
        children_sum(x, all) >= 0,
    decreases all.len(),
{
    if all.len() > 0 {
        lemma_children_sum_nonneg(x, all.drop_last());
    }
}

proof fn lemma_children_sum_at_least(x: SpanV, all: Seq<SpanV>, i: int)
    requires
        0 <= i < all.len(),
        all[i].parent_span_id == Some(x.span_id),
    ensures
        children_sum(x, all) >= dur(all[i]),
    decreases all.len(),
{
    if i < all.len() - 1 {
        lemma_children_sum_at_least(x, all.drop_last(), i);
        assert(all.drop_last()[i] == all[i]);
    } else {
        lemma_children_sum_nonneg(x, all.drop_last());
    }
}

/// The position in `s` of the span with the most self time among `all`
/// (the last one on ties), or `-1` when `s` is empty.
pub open spec fn slowest_in(s: Seq<SpanV>, all: Seq<SpanV>) -> int
    decreases s.len(),
{
    if s.len() == 0 {
        -1
    } else {
        let b = slowest_in(s.drop_last(), all);
        if b < 0 || self_time(s.last(), all) >= self_time(s[b], all) {
            s.len() - 1
        } else {
            b
        }
    }
}

/// `x` placed into `s` (longest first) after every span at least as long.
pub open spec fn insert_longest_first(s: Seq<SpanV>, x: SpanV) -> Seq<SpanV>
    decreases s.len(),
{
    if s.len() == 0 || dur(s.last()) >= dur(x) {
        s.push(x)
    } else {
        insert_longest_first(s.drop_last(), x).push(s.last())
    }
}

/// `s` stably sorted by duration, longest first.
pub open spec fn longest_first(s: Seq<SpanV>) -> Seq<SpanV>
    decreases s.len(),
{
    if s.len() == 0 {
        Seq::empty()
    } else {
        insert_longest_first(longest_first(s.drop_last()), s.last())
    }
}

/// Whether durations never increase along `s`.
pub open spec fn longest_sorted(s: Seq<SpanV>) -> bool {
    forall|i: int, j: int| 0 <= i < j < s.len() ==> dur(s[i]) >= dur(s[j])
}

/// The spans of `s` that last exactly `d`, in order.
pub open spec fn lasting(s: Seq<SpanV>, d: int) -> Seq<SpanV> {
    s.filter(|y: SpanV| dur(y) == d)
}

/// Inserting into a longest-first sequence keeps it longest first, adds
/// exactly `x`, and puts `x` after every span of its own duration.
proof fn lemma_insert_longest_keeps(s: Seq<SpanV>, x: SpanV)
    requires
        longest_sorted(s),
    ensures
        longest_sorted(insert_longest_first(s, x)),
        insert_longest_first(s, x).to_multiset() == s.to_multiset().insert(x),
        forall|d: int| #[trigger] lasting(insert_longest_first(s, x), d) == if dur(x) == d {
            lasting(s, d).push(x)
        } else {
            lasting(s, d)
        },
    decreases s.len(),
{
    broadcast use vstd::seq_lib::group_to_multiset_ensures;

    if s.len() == 0 || dur(s.last()) >= dur(x) {
        assert(s.push(x).to_multiset() == s.to_multiset().insert(x));
        assert forall|d: int| #[trigger] lasting(s.push(x), d) == if dur(x) == d {
            lasting(s, d).push(x)
        } else {
            lasting(s, d)
        } by {
            s.lemma_filter_push(x, |y: SpanV| dur(y) == d);
        }
    } else {
        let r = s.drop_last();
        let l = s.last();
        assert(longest_sorted(r)) by {
            assert forall|i: int, j: int| 0 <= i < j < r.len() implies dur(r[i]) >= dur(r[j]) by {
                assert(r[i] == s[i] && r[j] == s[j]);
            }
        }
        lemma_insert_longest_keeps(r, x);
        let t = insert_longest_first(r, x);
        assert forall|i: int, j: int| 0 <= i < j < t.len() + 1 implies dur(t.push(l)[i]) >= dur(
            t.push(l)[j],
        ) by {
            if j == t.len() {
                assert(t.contains(t[i]));
                vstd::seq_lib::to_multiset_contains(t, t[i]);
                if t[i] != x {
                    assert(r.to_multiset().count(t[i]) > 0);
                    vstd::seq_lib::to_multiset_contains(r, t[i]);
                    let k = choose|k: int| 0 <= k < r.len() && r[k] == t[i];
                    assert(s[k] == r[k]);
                    assert(s[s.len() - 1] == l);
                }
            }
        }
        assert(s =~= r.push(l));
        assert(t.push(l).to_multiset() == t.to_multiset().insert(l));
        assert(s.to_multiset() == r.to_multiset().insert(l));
        assert forall|d: int| #[trigger] lasting(t.push(l), d) == if dur(x) == d {
            lasting(s, d).push(x)
        } else {
            lasting(s, d)
        } by {
            t.lemma_filter_push(l, |y: SpanV| dur(y) == d);
            r.lemma_filter_push(l, |y: SpanV| dur(y) == d);
            assert(lasting(t, d) == if dur(x) == d {
                lasting(r, d).push(x)
            } else {
                lasting(r, d)
            });
        }
    }
}

/// Ordering longest first is a stable sort: the result runs from longest to
/// shortest, holds exactly the input's spans, and spans of equal duration
/// keep their input order.
pub proof fn lemma_longest_first(s: Seq<SpanV>)
    ensures
        longest_sorted(longest_first(s)),
        longest_first(s).to_multiset() == s.to_multiset(),
        forall|d: int| #[trigger] lasting(longest_first(s), d) == lasting(s, d),
    decreases s.len(),
{
    broadcast use vstd::seq_lib::group_to_multiset_ensures;

    if s.len() == 0 {
        assert forall|d: int| #[trigger] lasting(longest_first(s), d) == lasting(s, d) by {
            assert(longest_first(s) =~= s);
        }
    } else {
        let r = s.drop_last();
        lemma_longest_first(r);
        lemma_insert_longest_keeps(longest_first(r), s.last());
        assert(s =~= r.push(s.last()));
        assert forall|d: int| #[trigger] lasting(longest_first(s), d) == lasting(s, d) by {
            r.lemma_filter_push(s.last(), |y: SpanV| dur(y) == d);
            assert(lasting(longest_first(r), d) == lasting(r, d));
        }
    }
}

/// The roots an explanation covers: those starting in the window, longest
/// first, at most `top_n` of them.
pub open spec fn explained_roots(spans: Seq<SpanV>, window: TimeRange, top_n: usize) -> Seq<SpanV> {
    let r = longest_first(roots_of_traces(spans, trace_ids(spans), window));
    if top_n < r.len() {
        r.take(top_n as int)
    } else {
        r
    }
}

/// The `service.name` of a resource, or `?`.
pub open spec fn service_of(resource: Map<Seq<char>, AttrV>) -> Seq<char> {
    if resource.contains_key(SERVICE_NAME@) && resource[SERVICE_NAME@] is Str {
        resource[SERVICE_NAME@]->Str_0
    } else {
        "?"@
    }
}

/// The summary of the trace whose root is `root` and whose spans are `trace`.
pub open spec fn summary(root: SpanV, trace: Seq<SpanV>) -> SummaryV {
    let b = slowest_in(trace, trace);
    SummaryV {
        trace_id: root.trace_id,
        root_op: root.name,
        duration_nanos: dur(root),
        failed: root.status == SpanStatus::Error,
        slowest_service: if b < 0 {
            Seq::empty()
        } else {
            service_of(trace[b].resource)
        },
        slowest_op: if b < 0 {
            Seq::empty()
        } else {
            trace[b].name
        },
        slowest_nanos: if b < 0 {
            0
        } else {
            dur(trace[b])
        },
    }
}

/// The records of `s` at `Error` severity or above.
pub open spec fn errors_of(s: Seq<LogV>) -> Seq<LogV>
    decreases s.len(),
{
    if s.len() == 0 {
        Seq::empty()
    } else if s.last().severity.rank() >= Severity::Error.rank() {
        errors_of(s.drop_last()).push(s.last())
    } else {
        errors_of(s.drop_last())
    }
}

/// The error logs of the traces of `roots`, trace by trace.
pub open spec fn error_logs_of(roots: Seq<SpanV>, logs: Seq<LogV>) -> Seq<LogV>
    decreases roots.len(),
{
    if roots.len() == 0 {
        Seq::empty()
    } else {
        error_logs_of(roots.drop_last(), logs) + errors_of(logs_of(logs, roots.last().trace_id))
    }
}

// ---------------------------------------------------------------------------
// The ranking.
// ---------------------------------------------------------------------------

/// Whether two span ids are the same.
fn same_span_id(a: &SpanId, b: &SpanId) -> (r: bool)
    ensures
        r == (a.0@ == b.0@),
{
    let mut i: usize = 0;
    while i < 8
        invariant
            i <= 8,
            a.0@.len() == 8,
            b.0@.len() == 8,
            forall|j: int| 0 <= j < i ==> a.0@[j] == b.0@[j],
        decreases 8 - i,
    {
        if a.0[i] != b.0[i] {
            return false;
        }
        i = i + 1;
    }
    assert(a.0@ =~= b.0@);
    true
}

/// The work `spans[x]` did itself.
fn self_time_of(spans: &Vec<Span>, x: usize) -> (t: u64)
    requires
        x < spans@.len(),
    ensures
        t == self_time(spans@[x as int]@, spans_view(spans@)),
{
    let ghost all = spans_view(spans@);
    let ghost xv = spans@[x as int]@;
    let mut sum: u128 = 0;
    let mut i: usize = 0;
    while i < spans.len()
        invariant
            all == spans_view(spans@),
            xv == spans@[x as int]@,
            x < spans@.len(),
            i <= spans@.len(),
            sum == children_sum(xv, all.take(i as int)),
            sum <= i * (u64::MAX as int),
        decreases spans@.len() - i,
    {
        proof {
            let t = all.take(i + 1);
            assert(t.drop_last() =~= all.take(i as int));
            assert(t.last() == spans@[i as int]@);
        }
        let is_child = match spans[i].parent_span_id {
            Some(p) => same_span_id(&p, &spans[x].span_id),
            None => false,
        };
        if is_child {
            let d = spans[i].duration_nanos();
            assert(sum + d <= (i + 1) * (u64::MAX as int)) by (nonlinear_arith)
                requires
                    sum <= i * (u64::MAX as int),
                    d <= u64::MAX,
            ;
            sum = sum + d as u128;
        } else {
            assert(i * (u64::MAX as int) <= (i + 1) * (u64::MAX as int)) by (nonlinear_arith);
        }
        i = i + 1;
    }
    assert(all.take(i as int) =~= all);
    let d = spans[x].duration_nanos();
    if (d as u128) >= sum {
        d - (sum as u64)
    } else {
        0
    }
}

/// The position of the span with the most self time (the last one on ties).
fn slowest_by_self_time(spans: &Vec<Span>) -> (r: Option<usize>)
    ensures
        match r {
            Some(b) => b < spans@.len() && b as int == slowest_in(
                spans_view(spans@),
                spans_view(spans@),
            ),
            None => spans@.len() == 0 && slowest_in(spans_view(spans@), spans_view(spans@)) == -1,
        },
{
    let ghost all = spans_view(spans@);
    let mut best: Option<usize> = None;
    let mut best_time: u64 = 0;
    let mut i: usize = 0;
    while i < spans.len()
        invariant
            all == spans_view(spans@),
            i <= spans@.len(),
            match best {
                Some(b) => b < i && b as int == slowest_in(all.take(i as int), all) && best_time
                    == self_time(all[b as int], all),
                None => i == 0,
            },
        decreases spans@.len() - i,
    {
        let t = self_time_of(spans, i);
        let ghost s = all.take(i + 1);
        let ghost prev = best;
        proof {
            assert(s.drop_last() =~= all.take(i as int));
            assert(s.last() == all[i as int]);
            assert(s.len() == i + 1);
            if let Some(b) = best {
                assert(s[b as int] == all[b as int]);
                assert(slowest_in(s.drop_last(), all) == b as int);
            } else {
                assert(s.drop_last().len() == 0);
                assert(slowest_in(s.drop_last(), all) == -1);
            }
        }
        match best {
            Some(_) => {
                if t >= best_time {
                    best = Some(i);
                    best_time = t;
                }
            },
            None => {
                best = Some(i);
                best_time = t;
            },
        }
        proof {
            assert(slowest_in(s, all) == if prev is None || self_time(all[i as int], all) >= self_time(
                all[prev->Some_0 as int],
                all,
            ) {
                i as int
            } else {
                prev->Some_0 as int
            });
        }
        i = i + 1;
    }
    assert(all.take(i as int) =~= all);
    if i == 0 {
        assert(all =~= Seq::<SpanV>::empty());
    }
    best
}

/// `roots`, stably sorted by duration, longest first.
fn sort_longest_first(roots: &Vec<Span>) -> (out: Vec<Span>)
    ensures
        spans_view(out@) == longest_first(spans_view(roots@)),
{
    let mut out: Vec<Span> = Vec::new();
    let mut i: usize = 0;
    assert(spans_view(out@) =~= longest_first(spans_view(roots@).take(0)));
    while i < roots.len()
        invariant
            i <= roots@.len(),
            spans_view(out@) == longest_first(spans_view(roots@).take(i as int)),
        decreases roots@.len() - i,
    {
        let ghost before = spans_view(out@);
        let x = roots[i].clone();
        let dx = x.duration_nanos();
        let mut j = out.len();
        while j > 0 && out[j - 1].duration_nanos() < dx
            invariant
                j <= out@.len(),
                spans_view(out@) == before,
                dx == dur(x@),
                forall|k: int| j <= k < out@.len() ==> dur(#[trigger] before[k]) < dur(x@),
            decreases j,
        {
            proof {
                assert(before[j - 1] == out@[j - 1]@);
            }
            j = j - 1;
        }
        proof {
            if j > 0 {
                assert(before[j - 1] == out@[j - 1]@);
            }
            lemma_insert_longest_first(before, x@, j as int);
            let t = spans_view(roots@).take(i + 1);
            assert(t.drop_last() =~= spans_view(roots@).take(i as int));
            assert(t.last() == roots@[i as int]@);
        }
        out.insert(j, x);
        assert(spans_view(out@) =~= before.take(j as int) + seq![x@] + before.skip(j as int));
        i = i + 1;
    }
    assert(spans_view(roots@).take(i as int) =~= spans_view(roots@));
    out
}

/// Where `insert_longest_first` puts `x`: after the last span at least as
/// long.
proof fn lemma_insert_longest_first(s: Seq<SpanV>, x: SpanV, j: int)
    requires
        0 <= j <= s.len(),
        forall|k: int| j <= k < s.len() ==> dur(#[trigger] s[k]) < dur(x),
        j == 0 || dur(s[j - 1]) >= dur(x),
    ensures
        insert_longest_first(s, x) == s.take(j) + seq![x] + s.skip(j),
    decreases s.len(),
{
    if s.len() == 0 {
        assert(s.take(j) + seq![x] + s.skip(j) =~= seq![x]);
    } else if j == s.len() {
        assert(s.take(j) + seq![x] + s.skip(j) =~= s.push(x));
    } else {
        assert(dur(s.last()) < dur(x));
        lemma_insert_longest_first(s.drop_last(), x, j);
        assert(s.drop_last().take(j) =~= s.take(j));
        assert(s.drop_last().skip(j).push(s.last()) =~= s.skip(j));
        assert(s.take(j) + seq![x] + s.drop_last().skip(j) + seq![s.last()] =~= s.take(j)
            + seq![x] + s.skip(j));
    }
}

/// Summarize the trace whose root is `root` and whose spans are `spans`.
fn summarize(root: &Span, spans: &Vec<Span>) -> (t: TraceSummary)
    ensures
        summary_view(t) == summary(root@, spans_view(spans@)),
{
    let (service, op, nanos) = match slowest_by_self_time(spans) {
        Some(b) => {
            let slow = &spans[b];
            let service = match slow.resource.service_name() {
                Some(name) => name.to_owned(),
                None => "?".to_owned(),
            };
            proof {
                assert(spans_view(spans@)[b as int] == slow@);
            }
            (service, slow.name.clone(), slow.duration_nanos())
        },
        None => (String::new(), String::new(), 0),
    };
    let failed = match root.status {
        SpanStatus::Error => true,
        _ => false,
    };
    TraceSummary {
        trace_id: root.trace_id,
        root_op: root.name.clone(),
        duration_nanos: root.duration_nanos(),
        failed,
        slowest_service: service,
        slowest_op: op,
        slowest_nanos: nanos,
    }
}

/// Explain an anomaly window: rank the traces whose roots start in it by
/// duration (longest first, at most `top_n`), summarize each, and collect
/// the error logs they emitted.
pub fn explain(engine: &MemoryEngine, window: TimeRange, top_n: usize) -> (e: Explanation)
    requires
        engine.wf(),
    ensures
        e.slowest@.len() == explained_roots(engine.spans(), window, top_n).len(),
        forall|j: int|
            0 <= j < e.slowest@.len() ==> summary_view(#[trigger] e.slowest@[j]) == summary(
                explained_roots(engine.spans(), window, top_n)[j],
                sort_by_start(
                    spans_of(
                        engine.spans(),
                        explained_roots(engine.spans(), window, top_n)[j].trace_id,
                    ),
                ),
            ),
        records_view(e.error_logs@) == error_logs_of(
            explained_roots(engine.spans(), window, top_n),
            engine.logs(),
        ),
{
    let ghost roots = explained_roots(engine.spans(), window, top_n);
    let all_roots = engine.root_spans_in_range(window);
    let ranked = sort_longest_first(&all_roots);
    let n = if top_n < ranked.len() {
        top_n
    } else {
        ranked.len()
    };
    proof {
        assert(roots.len() == n);
        assert forall|j: int| 0 <= j < n implies #[trigger] roots[j] == ranked@[j]@ by {
            assert(spans_view(ranked@)[j] == ranked@[j]@);
        }
    }
    let mut slowest: Vec<TraceSummary> = Vec::new();
    let mut error_logs: Vec<LogRecord> = Vec::new();
    let mut i: usize = 0;
    assert(roots.take(0) =~= Seq::<SpanV>::empty());
    assert(records_view(error_logs@) =~= Seq::<LogV>::empty());
    while i < n
        invariant
            engine.wf(),
            roots == explained_roots(engine.spans(), window, top_n),
            n == roots.len(),
            n <= ranked@.len(),
            forall|j: int| 0 <= j < n ==> #[trigger] roots[j] == ranked@[j]@,
            i <= n,
            slowest@.len() == i,
            forall|j: int|
                0 <= j < i ==> summary_view(#[trigger] slowest@[j]) == summary(
                    roots[j],
                    sort_by_start(spans_of(engine.spans(), roots[j].trace_id)),
                ),
            records_view(error_logs@) == error_logs_of(roots.take(i as int), engine.logs()),
        decreases n - i,
    {
        let root = &ranked[i];
        let spans = engine.trace(&root.trace_id);
        let s = summarize(root, &spans);
        slowest.push(s);
        let logs = engine.logs_for_trace(&root.trace_id);
        let ghost head = records_view(error_logs@);
        let ghost lv = records_view(logs@);
        let mut k: usize = 0;
        assert(lv.take(0) =~= Seq::<LogV>::empty());
        while k < logs.len()
            invariant
                lv == records_view(logs@),
                k <= logs@.len(),
                records_view(error_logs@) == head + errors_of(lv.take(k as int)),
            decreases logs@.len() - k,
        {
            proof {
                let t = lv.take(k + 1);
                assert(t.drop_last() =~= lv.take(k as int));
                assert(t.last() == logs@[k as int]@);
            }
            if logs[k].severity >= Severity::Error {
                let c = logs[k].clone();
                let ghost before = error_logs@;
                error_logs.push(c);
                assert(records_view(error_logs@) =~= records_view(before).push(c@));
            }
            k = k + 1;
        }
        proof {
            assert(lv.take(k as int) =~= lv);
            let t = roots.take(i + 1);
            assert(t.drop_last() =~= roots.take(i as int));
            assert(t.last() == roots[i as int]);
            assert(roots[i as int] == root@);
        }
        i = i + 1;
    }
    assert(roots.take(i as int) =~= roots);
    Explanation { slowest, error_logs }
}

} // verus!
