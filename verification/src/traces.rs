//! The trace store: spans grouped by trace id.

use vstd::prelude::*;
use crate::query::TimeRange;
use crate::trace::{Span, SpanV, TraceId};

verus! {

/// The spans of `s` that belong to the trace `id`, in order.
pub open spec fn spans_of(s: Seq<SpanV>, id: Seq<u8>) -> Seq<SpanV>
    decreases s.len(),
{
    if s.len() == 0 {
        Seq::empty()
    } else if s.last().trace_id == id {
        spans_of(s.drop_last(), id).push(s.last())
    } else {
        spans_of(s.drop_last(), id)
    }
}

/// The trace ids of `s`, each once, in order of first appearance.
pub open spec fn trace_ids(s: Seq<SpanV>) -> Seq<Seq<u8>>
    decreases s.len(),
{
    if s.len() == 0 {
        Seq::empty()
    } else if trace_ids(s.drop_last()).contains(s.last().trace_id) {
        trace_ids(s.drop_last())
    } else {
        trace_ids(s.drop_last()).push(s.last().trace_id)
    }
}

/// The root spans of `xs` (those without a parent) that start within
/// `range`, in order.
pub open spec fn roots_within(xs: Seq<SpanV>, range: TimeRange) -> Seq<SpanV>
    decreases xs.len(),
{
    if xs.len() == 0 {
        Seq::empty()
    } else if xs.last().parent_span_id is None && range.start.0 <= xs.last().start
        <= range.end.0 {
        roots_within(xs.drop_last(), range).push(xs.last())
    } else {
        roots_within(xs.drop_last(), range)
    }
}

/// The root spans that start within `range`, trace by trace in order of the
/// traces' first appearance, each trace's in insertion order.
pub open spec fn roots_of_traces(s: Seq<SpanV>, ids: Seq<Seq<u8>>, range: TimeRange) -> Seq<SpanV>
    decreases ids.len(),
{
    if ids.len() == 0 {
        Seq::empty()
    } else {
        roots_of_traces(s, ids.drop_last(), range) + roots_within(spans_of(s, ids.last()), range)
    }
}

/// `x` placed into `s` after every span that starts no later than it.
pub open spec fn insert_by_start(s: Seq<SpanV>, x: SpanV) -> Seq<SpanV>
    decreases s.len(),
{
    if s.len() == 0 || s.last().start <= x.start {
        s.push(x)
    } else {
        insert_by_start(s.drop_last(), x).push(s.last())
    }
}

/// `s` stably sorted by start time: spans that start together keep their
/// order.
pub open spec fn sort_by_start(s: Seq<SpanV>) -> Seq<SpanV>
    decreases s.len(),
{
    if s.len() == 0 {
        Seq::empty()
    } else {
        insert_by_start(sort_by_start(s.drop_last()), s.last())
    }
}

/// Whether start times never decrease along `s`.
pub open spec fn starts_sorted(s: Seq<SpanV>) -> bool {
    forall|i: int, j: int| 0 <= i < j < s.len() ==> s[i].start <= s[j].start
}

/// Where `insert_by_start` puts `x`: after the last span starting no later.
proof fn lemma_insert_by_start(s: Seq<SpanV>, x: SpanV, j: int)
    requires
        0 <= j <= s.len(),
        forall|k: int| j <= k < s.len() ==> #[trigger] s[k].start > x.start,
        j == 0 || s[j - 1].start <= x.start,
    ensures
        insert_by_start(s, x) == s.take(j) + seq![x] + s.skip(j),
    decreases s.len(),
{
    if s.len() == 0 {
        assert(s.take(j) + seq![x] + s.skip(j) =~= seq![x]);
    } else if j == s.len() {
        assert(s.take(j) + seq![x] + s.skip(j) =~= s.push(x));
    } else {
        assert(s.last().start > x.start);
        lemma_insert_by_start(s.drop_last(), x, j);
        assert(s.drop_last().take(j) =~= s.take(j));
        assert(s.drop_last().skip(j).push(s.last()) =~= s.skip(j));
        assert(s.take(j) + seq![x] + s.drop_last().skip(j) + seq![s.last()] =~= s.take(j) + seq![x]
            + s.skip(j));
    }
}

/// Inserting into a sorted run keeps it sorted.
proof fn lemma_insert_keeps_sorted(s: Seq<SpanV>, x: SpanV)
    requires
        starts_sorted(s),
    ensures
        starts_sorted(insert_by_start(s, x)),
        insert_by_start(s, x).len() == s.len() + 1,
        insert_by_start(s, x).to_multiset() == s.to_multiset().insert(x),
    decreases s.len(),
{
    if s.len() == 0 || s.last().start <= x.start {
        broadcast use vstd::seq_lib::group_to_multiset_ensures;
        assert(s.push(x).to_multiset() == s.to_multiset().insert(x));
    } else {
        let r = s.drop_last();
        lemma_insert_keeps_sorted(r, x);
        let t = insert_by_start(r, x);
        assert forall|i: int, j: int| 0 <= i < j < t.len() + 1 implies t.push(s.last())[i].start
            <= t.push(s.last())[j].start by {
            if j == t.len() {
                // every element of t is either x or an element of r
                assert(t.contains(t[i]));
                vstd::seq_lib::to_multiset_contains(t, t[i]);
                if t[i] != x {
                    assert(r.to_multiset().count(t[i]) > 0);
                    vstd::seq_lib::to_multiset_contains(r, t[i]);
                    let k = choose|k: int| 0 <= k < r.len() && r[k] == t[i];
                    assert(s[k] == r[k]);
                }
            }
        }
        broadcast use vstd::seq_lib::group_to_multiset_ensures;
        assert(s =~= r.push(s.last()));
        assert(t.push(s.last()).to_multiset() == t.to_multiset().insert(s.last()));
        assert(s.to_multiset() == r.to_multiset().insert(s.last()));
    }
}

/// The spans of `s` that start exactly at `t`, in order.
pub open spec fn starting_at(s: Seq<SpanV>, t: u64) -> Seq<SpanV> {
    s.filter(|y: SpanV| y.start == t)
}

/// Inserting by start puts `x` after every span that starts with it.
proof fn lemma_insert_by_start_stable(s: Seq<SpanV>, x: SpanV, t: u64)
    ensures
        starting_at(insert_by_start(s, x), t) == if x.start == t {
            starting_at(s, t).push(x)
        } else {
            starting_at(s, t)
        },
    decreases s.len(),
{
    if s.len() == 0 || s.last().start <= x.start {
        s.lemma_filter_push(x, |y: SpanV| y.start == t);
    } else {
        let r = s.drop_last();
        let l = s.last();
        lemma_insert_by_start_stable(r, x, t);
        insert_by_start(r, x).lemma_filter_push(l, |y: SpanV| y.start == t);
        r.lemma_filter_push(l, |y: SpanV| y.start == t);
        assert(s =~= r.push(l));
    }
}

/// The sort by start is a stable sort: it is sorted, holds exactly the
/// input's spans, and spans that start together keep their input order.
pub proof fn lemma_sort_by_start(s: Seq<SpanV>)
    ensures
        starts_sorted(sort_by_start(s)),
        sort_by_start(s).to_multiset() == s.to_multiset(),
        forall|t: u64| #[trigger] starting_at(sort_by_start(s), t) == starting_at(s, t),
    decreases s.len(),
{
    broadcast use vstd::seq_lib::group_to_multiset_ensures;
    if s.len() > 0 {
        let r = s.drop_last();
        lemma_sort_by_start(r);
        lemma_insert_keeps_sorted(sort_by_start(r), s.last());
        assert(s =~= r.push(s.last()));
        assert forall|t: u64| #[trigger] starting_at(sort_by_start(s), t) == starting_at(s, t) by {
            lemma_insert_by_start_stable(sort_by_start(r), s.last(), t);
            r.lemma_filter_push(s.last(), |y: SpanV| y.start == t);
        }
    } else {
        assert forall|t: u64| #[trigger] starting_at(sort_by_start(s), t) == starting_at(s, t) by {
            assert(sort_by_start(s) =~= s);
        }
    }
}

pub struct TraceStore {
    by_trace: Vec<(TraceId, Vec<Span>)>,
    spans: Ghost<Seq<SpanV>>,
}

/// The values of a list of spans.
pub open spec fn spans_view(v: Seq<Span>) -> Seq<SpanV> {
    v.map_values(|s: Span| s@)
}

impl View for TraceStore {
    type V = Seq<SpanV>;

    /// Every span inserted, in order.
    closed spec fn view(&self) -> Seq<SpanV> {
        self.spans@
    }
}

impl TraceStore {
    /// One bucket per trace, in order of first appearance, each holding that
    /// trace's spans in insertion order.
    pub closed spec fn wf(&self) -> bool {
        &&& self.by_trace@.len() == trace_ids(self.spans@).len()
        &&& forall|i: int|
            0 <= i < self.by_trace@.len() ==> #[trigger] self.by_trace@[i].0.0@ == trace_ids(
                self.spans@,
            )[i]
        &&& forall|i: int|
            0 <= i < self.by_trace@.len() ==> spans_view(#[trigger] self.by_trace@[i].1@)
                == spans_of(self.spans@, self.by_trace@[i].0.0@)
    }

    pub fn new() -> (s: TraceStore)
        ensures
            s.wf(),
            s@ == Seq::<SpanV>::empty(),
    {
        TraceStore { by_trace: Vec::new(), spans: Ghost(Seq::empty()) }
    }

    pub fn insert(&mut self, span: Span)
        requires
            old(self).wf(),
        ensures
            final(self).wf(),
            final(self)@ == old(self)@.push(span@),
    {
        let ghost old_spans = self.spans@;
        let ghost new_spans = old_spans.push(span@);
        let ghost sv = span@;
        let ghost old_bt = self.by_trace@;
        proof {
            assert(new_spans.drop_last() =~= old_spans);
            lemma_trace_ids_distinct(old_spans);
        }
        let mut i: usize = 0;
        while i < self.by_trace.len()
            invariant
                self.wf(),
                self.spans@ == old_spans,
                self.by_trace@ == old_bt,
                sv == span@,
                new_spans == old_spans.push(sv),
                old_spans == old(self)@,
                i <= self.by_trace@.len(),
                forall|j: int| 0 <= j < i ==> self.by_trace@[j].0.0@ != sv.trace_id,
            decreases self.by_trace@.len() - i,
        {
            if self.by_trace[i].0.same(&span.trace_id) {
                let (id, mut bucket) = self.by_trace.remove(i);
                bucket.push(span);
                self.by_trace.insert(i, (id, bucket));
                self.spans = Ghost(new_spans);
                proof {
                    assert(trace_ids(old_spans).contains(sv.trace_id)) by {
                        assert(old_bt[i as int].0.0@ == trace_ids(old_spans)[i as int]);
                        assert(trace_ids(old_spans)[i as int] == sv.trace_id);
                    }
                    assert(new_spans.drop_last() =~= old_spans);
                    assert(trace_ids(new_spans) == trace_ids(old_spans));
                    lemma_trace_ids_distinct(old_spans);
                    assert forall|j: int| 0 <= j < self.by_trace@.len() implies spans_view(
                        #[trigger] self.by_trace@[j].1@,
                    ) == spans_of(new_spans, self.by_trace@[j].0.0@) by {
                        if j == i {
                            assert(spans_view(bucket@) =~= spans_view(old_bt[j].1@).push(sv));
                        } else {
                            assert(self.by_trace@[j] == old_bt[j]);
                            assert(trace_ids(old_spans)[j] != trace_ids(old_spans)[i as int]);
                        }
                    }
                }
                return;
            }
            i = i + 1;
        }
        let id = span.trace_id;
        let mut bucket: Vec<Span> = Vec::new();
        bucket.push(span);
        self.by_trace.push((id, bucket));
        self.spans = Ghost(new_spans);
        proof {
            assert(!trace_ids(old_spans).contains(sv.trace_id)) by {
                if trace_ids(old_spans).contains(sv.trace_id) {
                    let k = choose|k: int| 0 <= k < trace_ids(old_spans).len() && trace_ids(old_spans)[k] == sv.trace_id;
                    assert(self.by_trace@[k].0.0@ == sv.trace_id);
                }
            }
            assert(trace_ids(new_spans) == trace_ids(old_spans).push(sv.trace_id));
            lemma_spans_of_absent(old_spans, sv.trace_id);
            assert forall|j: int| 0 <= j < self.by_trace@.len() implies spans_view(
                #[trigger] self.by_trace@[j].1@,
            ) == spans_of(new_spans, self.by_trace@[j].0.0@) by {
                if j == old_bt.len() {
                    assert(spans_view(bucket@) =~= seq![sv]);
                    assert(spans_of(old_spans, sv.trace_id) =~= Seq::<SpanV>::empty());
                } else {
                    assert(self.by_trace@[j] == old_bt[j]);
                    assert(trace_ids(old_spans)[j] != sv.trace_id);
                }
            }
        }
    }

    /// The spans of a trace, ordered by start time (spans that start
    /// together keep their insertion order).
    pub fn trace(&self, id: &TraceId) -> (out: Vec<Span>)
        requires
            self.wf(),
        ensures
            spans_view(out@) == sort_by_start(spans_of(self@, id.0@)),
    {
        let mut i: usize = 0;
        while i < self.by_trace.len()
            invariant
                self.wf(),
                i <= self.by_trace@.len(),
                forall|j: int| 0 <= j < i ==> self.by_trace@[j].0.0@ != id.0@,
            decreases self.by_trace@.len() - i,
        {
            if self.by_trace[i].0.same(id) {
                return sorted_by_start(&self.by_trace[i].1);
            }
            i = i + 1;
        }
        proof {
            lemma_ids_cover(self.spans@, id.0@);
            if trace_ids(self.spans@).contains(id.0@) {
                let k = choose|k: int| 0 <= k < trace_ids(self.spans@).len() && trace_ids(self.spans@)[k] == id.0@;
                assert(self.by_trace@[k].0.0@ == id.0@);
            }
        }
        let out: Vec<Span> = Vec::new();
        assert(spans_view(out@) =~= Seq::<SpanV>::empty());
        out
    }

    /// Root spans (trace entry points) whose start falls within `range`.
    pub fn root_spans_in_range(&self, range: TimeRange) -> (out: Vec<Span>)
        requires
            self.wf(),
        ensures
            spans_view(out@) == roots_of_traces(self@, trace_ids(self@), range),
            forall|k: int|
                0 <= k < out@.len() ==> {
                    &&& (#[trigger] out@[k]).parent_span_id is None
                    &&& range.start.0 <= out@[k].start.0 <= range.end.0
                },
    {
        let ghost ids = trace_ids(self.spans@);
        let mut out: Vec<Span> = Vec::new();
        let mut i: usize = 0;
        assert(ids.take(0) =~= Seq::<Seq<u8>>::empty());
        assert(spans_view(out@) =~= Seq::<SpanV>::empty());
        while i < self.by_trace.len()
            invariant
                self.wf(),
                ids == trace_ids(self.spans@),
                i <= self.by_trace@.len(),
                spans_view(out@) == roots_of_traces(self.spans@, ids.take(i as int), range),
            decreases self.by_trace@.len() - i,
        {
            let bucket = &self.by_trace[i].1;
            let ghost head = spans_view(out@);
            let ghost xs = spans_view(bucket@);
            let mut k: usize = 0;
            assert(xs.take(0) =~= Seq::<SpanV>::empty());
            while k < bucket.len()
                invariant
                    xs == spans_view(bucket@),
                    k <= bucket@.len(),
                    spans_view(out@) == head + roots_within(xs.take(k as int), range),
                decreases bucket@.len() - k,
            {
                proof {
                    let t = xs.take(k + 1);
                    assert(t.drop_last() =~= xs.take(k as int));
                    assert(t.last() == bucket@[k as int]@);
                }
                let span = &bucket[k];
                if span.parent_span_id.is_none() && range.contains(span.start) {
                    let c = span.clone();
                    let ghost before = out@;
                    out.push(c);
                    assert(spans_view(out@) =~= spans_view(before).push(c@));
                }
                k = k + 1;
            }
            proof {
                assert(xs.take(k as int) =~= xs);
                let t = ids.take(i + 1);
                assert(t.drop_last() =~= ids.take(i as int));
                assert(t.last() == ids[i as int]);
                assert(self.by_trace@[i as int].0.0@ == ids[i as int]);
            }
            i = i + 1;
        }
        assert(ids.take(i as int) =~= ids);
        proof {
            assert forall|k: int| 0 <= k < out@.len() implies {
                &&& (#[trigger] out@[k]).parent_span_id is None
                &&& range.start.0 <= out@[k].start.0 <= range.end.0
            } by {
                let r = roots_of_traces(self@, trace_ids(self@), range);
                assert(spans_view(out@)[k] == out@[k]@);
                assert(r[k] == out@[k]@);
                assert(r.contains(out@[k]@));
                lemma_root_spans(self@, range, out@[k]@);
            }
        }
        out
    }

    /// The number of distinct traces.
    pub fn trace_count(&self) -> (n: usize)
        requires
            self.wf(),
        ensures
            n == trace_ids(self@).len(),
    {
        self.by_trace.len()
    }

    /// The number of spans stored.
    pub fn span_count(&self) -> (n: usize)
        requires
            self.wf(),
            self@.len() <= usize::MAX,
        ensures
            n == self@.len(),
    {
        let mut total: usize = 0;
        let mut i: usize = 0;
        proof {
            lemma_buckets_total(self.spans@, trace_ids(self.spans@));
        }
        while i < self.by_trace.len()
            invariant
                self.wf(),
                i <= self.by_trace@.len(),
                self@.len() <= usize::MAX,
                total == bucket_total(self.spans@, trace_ids(self.spans@).take(i as int)),
                bucket_total(self.spans@, trace_ids(self.spans@)) == self.spans@.len(),
            decreases self.by_trace@.len() - i,
        {
            proof {
                let ids = trace_ids(self.spans@);
                assert(ids.take(i + 1).drop_last() =~= ids.take(i as int));
                lemma_bucket_total_prefix(self.spans@, ids, i + 1);
                assert(spans_view(self.by_trace@[i as int].1@).len() == self.by_trace@[i as int].1@.len());
            }
            total = total + self.by_trace[i].1.len();
            i = i + 1;
        }
        assert(trace_ids(self.spans@).take(i as int) =~= trace_ids(self.spans@));
        total
    }
}

/// The spans of `v`, stably sorted by start time.
fn sorted_by_start(v: &Vec<Span>) -> (out: Vec<Span>)
    ensures
        spans_view(out@) == sort_by_start(spans_view(v@)),
{
    let mut out: Vec<Span> = Vec::new();
    let mut i: usize = 0;
    assert(spans_view(out@) =~= sort_by_start(spans_view(v@).take(0)));
    while i < v.len()
        invariant
            i <= v@.len(),
            spans_view(out@) == sort_by_start(spans_view(v@).take(i as int)),
        decreases v@.len() - i,
    {
        let ghost before = spans_view(out@);
        let x = v[i].clone();
        let mut j = out.len();
        proof {
            lemma_sort_by_start(spans_view(v@).take(i as int));
        }
        while j > 0 && out[j - 1].start.0 > x.start.0
            invariant
                j <= out@.len(),
                spans_view(out@) == before,
                forall|k: int| j <= k < out@.len() ==> #[trigger] out@[k].start.0 > x.start.0,
            decreases j,
        {
            j = j - 1;
        }
        proof {
            assert(forall|k: int| 0 <= k < before.len() ==> #[trigger] before[k].start == out@[k].start.0);
            lemma_insert_by_start(before, x@, j as int);
            let t = spans_view(v@).take(i + 1);
            assert(t.drop_last() =~= spans_view(v@).take(i as int));
            assert(t.last() == v@[i as int]@);
        }
        out.insert(j, x);
        assert(spans_view(out@) =~= before.take(j as int) + seq![x@] + before.skip(j as int));
        i = i + 1;
    }
    assert(spans_view(v@).take(i as int) =~= spans_view(v@));
    out
}

/// The ids of `trace_ids` are distinct.
proof fn lemma_trace_ids_distinct(s: Seq<SpanV>)
    ensures
        forall|i: int, j: int|
            0 <= i < j < trace_ids(s).len() ==> trace_ids(s)[i] != trace_ids(s)[j],
    decreases s.len(),
{
    if s.len() > 0 {
        let p = trace_ids(s.drop_last());
        lemma_trace_ids_distinct(s.drop_last());
        if !p.contains(s.last().trace_id) {
            assert forall|i: int, j: int|
                0 <= i < j < trace_ids(s).len() implies trace_ids(s)[i] != trace_ids(s)[j] by {
                if j == p.len() {
                    assert(p[i] != s.last().trace_id);
                }
            }
        }
    }
}

/// Every trace id of a span is listed.
proof fn lemma_ids_cover(s: Seq<SpanV>, id: Seq<u8>)
    ensures
        trace_ids(s).contains(id) <==> spans_of(s, id).len() > 0,
    decreases s.len(),
{
    if s.len() > 0 {
        lemma_ids_cover(s.drop_last(), id);
        if trace_ids(s.drop_last()).contains(id) {
            let k = choose|k: int| 0 <= k < trace_ids(s.drop_last()).len() && trace_ids(s.drop_last())[k] == id;
            assert(trace_ids(s)[k] == id);
        }
        if !trace_ids(s.drop_last()).contains(s.last().trace_id) {
            assert(trace_ids(s).last() == s.last().trace_id);
            if trace_ids(s).contains(id) && id != s.last().trace_id {
                let k = choose|k: int| 0 <= k < trace_ids(s).len() && trace_ids(s)[k] == id;
                assert(trace_ids(s.drop_last())[k] == id);
            }
        }
    }
}

/// A trace with no spans yet has none among these.
proof fn lemma_spans_of_absent(s: Seq<SpanV>, id: Seq<u8>)
    requires
        !trace_ids(s).contains(id),
    ensures
        spans_of(s, id) == Seq::<SpanV>::empty(),
{
    lemma_ids_cover(s, id);
}

/// The number of spans in the buckets of the listed traces.
pub open spec fn bucket_total(s: Seq<SpanV>, ids: Seq<Seq<u8>>) -> nat
    decreases ids.len(),
{
    if ids.len() == 0 {
        0
    } else {
        bucket_total(s, ids.drop_last()) + spans_of(s, ids.last()).len()
    }
}

proof fn lemma_bucket_total_prefix(s: Seq<SpanV>, ids: Seq<Seq<u8>>, n: int)
    requires
        0 <= n <= ids.len(),
    ensures
        bucket_total(s, ids.take(n)) <= bucket_total(s, ids),
    decreases ids.len(),
{
    if n < ids.len() {
        assert(ids.drop_last().take(n) =~= ids.take(n));
        lemma_bucket_total_prefix(s, ids.drop_last(), n);
    } else {
        assert(ids.take(n) =~= ids);
    }
}

/// Every span is in exactly one bucket.
proof fn lemma_buckets_total(s: Seq<SpanV>, ids: Seq<Seq<u8>>)
    requires
        ids == trace_ids(s),
    ensures
        bucket_total(s, ids) == s.len(),
    decreases s.len(),
{
    if s.len() > 0 {
        let r = s.drop_last();
        let x = s.last();
        lemma_buckets_total(r, trace_ids(r));
        lemma_trace_ids_distinct(r);
        lemma_total_step(r, trace_ids(r), x);
        assert(s =~= r.push(x));
        if trace_ids(r).contains(x.trace_id) {
        } else {
            lemma_spans_of_absent(r, x.trace_id);
            assert(spans_of(s, x.trace_id) =~= seq![x]);
            assert(trace_ids(s).drop_last() =~= trace_ids(r));
        }
    }
}

/// Adding the span `x` adds one to the bucket of its trace, when listed.
proof fn lemma_total_step(r: Seq<SpanV>, ids: Seq<Seq<u8>>, x: SpanV)
    requires
        forall|i: int, j: int| 0 <= i < j < ids.len() ==> ids[i] != ids[j],
    ensures
        bucket_total(r.push(x), ids) == bucket_total(r, ids) + (if ids.contains(x.trace_id) {
            1int
        } else {
            0int
        }),
    decreases ids.len(),
{
    let s = r.push(x);
    assert(s.drop_last() =~= r);
    if ids.len() > 0 {
        lemma_total_step(r, ids.drop_last(), x);
        if ids.drop_last().contains(x.trace_id) {
            let k = choose|k: int| 0 <= k < ids.drop_last().len() && ids.drop_last()[k] == x.trace_id;
            assert(ids[k] == x.trace_id);
            assert(ids.last() != x.trace_id);
        }
        if ids.contains(x.trace_id) && !ids.drop_last().contains(x.trace_id) {
            let k = choose|k: int| 0 <= k < ids.len() && ids[k] == x.trace_id;
            if k < ids.len() - 1 {
                assert(ids.drop_last()[k] == x.trace_id);
            }
        }
        if !ids.contains(x.trace_id) {
            assert(ids.last() != x.trace_id);
            if ids.drop_last().contains(x.trace_id) {
                let k = choose|k: int| 0 <= k < ids.drop_last().len() && ids.drop_last()[k] == x.trace_id;
                assert(ids[k] == x.trace_id);
            }
        }
    }
}

/// The spans of a trace are spans of the store, of that trace, and every span
/// of that trace is among them.
proof fn lemma_spans_of_members(s: Seq<SpanV>, id: Seq<u8>, x: SpanV)
    ensures
        spans_of(s, id).contains(x) <==> (s.contains(x) && x.trace_id == id),
    decreases s.len(),
{
    if s.len() > 0 {
        let r = s.drop_last();
        lemma_spans_of_members(r, id, x);
        assert(s =~= r.push(s.last()));
        if s.contains(x) && x.trace_id == id && !r.contains(x) {
            let k = choose|k: int| 0 <= k < s.len() && s[k] == x;
            if k < r.len() {
                assert(r[k] == x);
            }
            assert(x == s.last());
            assert(spans_of(s, id).last() == x);
        }
        if spans_of(s, id).contains(x) {
            let k = choose|k: int| 0 <= k < spans_of(s, id).len() && spans_of(s, id)[k] == x;
            if s.last().trace_id == id && k == spans_of(s, id).len() - 1 {
                assert(s[s.len() - 1] == x);
            } else {
                assert(spans_of(r, id)[k] == x);
                let j = choose|j: int| 0 <= j < r.len() && r[j] == x;
                assert(s[j] == x);
            }
        }
        if r.contains(x) && x.trace_id == id {
            let k = choose|k: int| 0 <= k < spans_of(r, id).len() && spans_of(r, id)[k] == x;
            assert(spans_of(s, id)[k] == x);
        }
    }
}

/// The roots of `xs` starting in `range` are exactly its spans without a
/// parent whose start falls in `range`.
proof fn lemma_roots_within_members(xs: Seq<SpanV>, range: TimeRange, x: SpanV)
    ensures
        roots_within(xs, range).contains(x) <==> (xs.contains(x) && x.parent_span_id is None
            && range.start.0 <= x.start <= range.end.0),
    decreases xs.len(),
{
    if xs.len() > 0 {
        let r = xs.drop_last();
        lemma_roots_within_members(r, range, x);
        let rw = roots_within(r, range);
        let l = xs.last();
        if l.parent_span_id is None && range.start.0 <= l.start <= range.end.0 {
            if rw.push(l).contains(x) {
                let k = choose|k: int| 0 <= k < rw.push(l).len() && rw.push(l)[k] == x;
                if k < rw.len() {
                    assert(rw[k] == x);
                    let j = choose|j: int| 0 <= j < r.len() && r[j] == x;
                    assert(xs[j] == x);
                } else {
                    assert(xs[xs.len() - 1] == x);
                }
            }
            if xs.contains(x) && x.parent_span_id is None && range.start.0 <= x.start
                <= range.end.0 {
                let j = choose|j: int| 0 <= j < xs.len() && xs[j] == x;
                if j < r.len() {
                    assert(r[j] == x);
                    let k = choose|k: int| 0 <= k < rw.len() && rw[k] == x;
                    assert(rw.push(l)[k] == x);
                } else {
                    assert(rw.push(l)[rw.len() as int] == x);
                }
            }
        } else {
            if rw.contains(x) {
                let j = choose|j: int| 0 <= j < r.len() && r[j] == x;
                assert(xs[j] == x);
            }
            if xs.contains(x) && x.parent_span_id is None && range.start.0 <= x.start
                <= range.end.0 {
                let j = choose|j: int| 0 <= j < xs.len() && xs[j] == x;
                if j < r.len() {
                    assert(r[j] == x);
                } else {
                    assert(xs[xs.len() - 1] == x);
                }
            }
        }
    }
}

/// What the roots of the listed traces hold: the roots starting in `range`
/// of any listed trace.
proof fn lemma_roots_of_traces_members(s: Seq<SpanV>, ids: Seq<Seq<u8>>, range: TimeRange, x: SpanV)
    ensures
        roots_of_traces(s, ids, range).contains(x) <==> (ids.contains(x.trace_id) && s.contains(x)
            && x.parent_span_id is None && range.start.0 <= x.start <= range.end.0),
    decreases ids.len(),
{
    if ids.len() > 0 {
        let r = ids.drop_last();
        let a = roots_of_traces(s, r, range);
        let b = roots_within(spans_of(s, ids.last()), range);
        lemma_roots_of_traces_members(s, r, range, x);
        lemma_roots_within_members(spans_of(s, ids.last()), range, x);
        lemma_spans_of_members(s, ids.last(), x);
        assert(roots_of_traces(s, ids, range) == a + b);
        if (a + b).contains(x) {
            let k = choose|k: int| 0 <= k < (a + b).len() && (a + b)[k] == x;
            if k < a.len() {
                assert(a[k] == x);
                let j = choose|j: int| 0 <= j < r.len() && r[j] == x.trace_id;
                assert(ids[j] == x.trace_id);
            } else {
                assert(b[k - a.len()] == x);
                assert(ids[ids.len() - 1] == x.trace_id);
            }
        }
        if ids.contains(x.trace_id) && s.contains(x) && x.parent_span_id is None
            && range.start.0 <= x.start <= range.end.0 {
            let j = choose|j: int| 0 <= j < ids.len() && ids[j] == x.trace_id;
            if j < r.len() {
                assert(r[j] == x.trace_id);
                let k = choose|k: int| 0 <= k < a.len() && a[k] == x;
                assert((a + b)[k] == x);
            } else {
                let k = choose|k: int| 0 <= k < b.len() && b[k] == x;
                assert((a + b)[a.len() + k] == x);
            }
        }
    }
}

/// Root spans are trace entry points: what `root_spans_in_range` reports of
/// a store is exactly its spans without a parent whose start falls within
/// the range.
pub proof fn lemma_root_spans(s: Seq<SpanV>, range: TimeRange, x: SpanV)
    ensures
        roots_of_traces(s, trace_ids(s), range).contains(x) <==> (s.contains(x)
            && x.parent_span_id is None && range.start.0 <= x.start <= range.end.0),
{
    lemma_roots_of_traces_members(s, trace_ids(s), range, x);
    if s.contains(x) {
        lemma_spans_of_members(s, x.trace_id, x);
        lemma_ids_cover(s, x.trace_id);
        let k = choose|k: int| 0 <= k < spans_of(s, x.trace_id).len() && spans_of(s, x.trace_id)[k] == x;
        assert(spans_of(s, x.trace_id).len() > 0);
    }
}

} // verus!
