//! The log store: log records plus a trace-id index for correlation.

use vstd::prelude::*;
use crate::log::{LogRecord, LogV};
use crate::query::TimeRange;
use crate::trace::TraceId;

verus! {

/// The records of `s` emitted within the trace `id`, in order.
pub open spec fn logs_of(s: Seq<LogV>, id: Seq<u8>) -> Seq<LogV>
    decreases s.len(),
{
    if s.len() == 0 {
        Seq::empty()
    } else if s.last().trace_id == Some(id) {
        logs_of(s.drop_last(), id).push(s.last())
    } else {
        logs_of(s.drop_last(), id)
    }
}

/// The records of `s` whose timestamp falls within `range`, in order.
pub open spec fn logs_in(s: Seq<LogV>, range: TimeRange) -> Seq<LogV>
    decreases s.len(),
{
    if s.len() == 0 {
        Seq::empty()
    } else if range.start.0 <= s.last().timestamp <= range.end.0 {
        logs_in(s.drop_last(), range).push(s.last())
    } else {
        logs_in(s.drop_last(), range)
    }
}

/// The positions of the records of `s` emitted within the trace `id`.
pub open spec fn positions_of(s: Seq<LogV>, id: Seq<u8>) -> Seq<usize>
    decreases s.len(),
{
    if s.len() == 0 {
        Seq::empty()
    } else if s.last().trace_id == Some(id) {
        positions_of(s.drop_last(), id).push((s.len() - 1) as usize)
    } else {
        positions_of(s.drop_last(), id)
    }
}

/// The values of a list of records.
pub open spec fn records_view(v: Seq<LogRecord>) -> Seq<LogV> {
    v.map_values(|r: LogRecord| r@)
}

pub struct LogStore {
    records: Vec<LogRecord>,
    by_trace: Vec<(TraceId, Vec<usize>)>,
}

impl View for LogStore {
    type V = Seq<LogV>;

    /// Every record inserted, in order.
    closed spec fn view(&self) -> Seq<LogV> {
        records_view(self.records@)
    }
}

/// The positions listed for a trace pick out exactly its records.
proof fn lemma_positions_of(s: Seq<LogV>, id: Seq<u8>)
    requires
        s.len() <= usize::MAX,
    ensures
        positions_of(s, id).len() == logs_of(s, id).len(),
        forall|k: int|
            0 <= k < positions_of(s, id).len() ==> (#[trigger] positions_of(s, id)[k]) < s.len()
                && s[positions_of(s, id)[k] as int] == logs_of(s, id)[k],
        logs_of(s, id).len() == 0 <==> forall|i: int| 0 <= i < s.len() ==> #[trigger] s[i].trace_id != Some(id),
    decreases s.len(),
{
    if s.len() > 0 {
        let r = s.drop_last();
        lemma_positions_of(r, id);
        let pr = positions_of(r, id);
        let ps = positions_of(s, id);
        let lr = logs_of(r, id);
        let ls = logs_of(s, id);
        assert forall|k: int| 0 <= k < ps.len() implies (#[trigger] ps[k]) < s.len() && s[ps[k] as int]
            == ls[k] by {
            if k < pr.len() {
                assert(ps[k] == pr[k]);
                assert(ls[k] == lr[k]);
                assert(s[pr[k] as int] == r[pr[k] as int]);
            } else {
                assert(s.last().trace_id == Some(id));
                assert(ps[k] == s.len() - 1);
                assert(ls[k] == s.last());
            }
        }
        if lr.len() == 0 && s.last().trace_id != Some(id) {
            assert forall|i: int| 0 <= i < s.len() implies #[trigger] s[i].trace_id != Some(id) by {
                if i < r.len() {
                    assert(s[i] == r[i]);
                }
            }
        }
        if forall|i: int| 0 <= i < s.len() ==> #[trigger] s[i].trace_id != Some(id) {
            assert forall|i: int| 0 <= i < r.len() implies #[trigger] r[i].trace_id != Some(id) by {
                assert(s[i] == r[i]);
            }
            assert(s[s.len() - 1].trace_id != Some(id));
        }
    }
}

/// Appending a record extends the positions of its own trace only.
proof fn lemma_positions_push(s: Seq<LogV>, x: LogV, id: Seq<u8>)
    ensures
        positions_of(s.push(x), id) == if x.trace_id == Some(id) {
            positions_of(s, id).push(s.len() as usize)
        } else {
            positions_of(s, id)
        },
{
    assert(s.push(x).drop_last() =~= s);
}

impl LogStore {
    /// One bucket per trace id, listing the positions of that trace's
    /// records in order; every correlated record is listed.
    pub closed spec fn wf(&self) -> bool {
        let s = records_view(self.records@);
        &&& forall|i: int, j: int|
            0 <= i < j < self.by_trace@.len() ==> self.by_trace@[i].0.0@ != self.by_trace@[j].0.0@
        &&& forall|i: int|
            0 <= i < self.by_trace@.len() ==> #[trigger] self.by_trace@[i].1@ == positions_of(
                s,
                self.by_trace@[i].0.0@,
            )
        &&& forall|k: int|
            0 <= k < s.len() && (#[trigger] s[k]).trace_id is Some ==> exists|i: int|
                0 <= i < self.by_trace@.len() && #[trigger] self.by_trace@[i].0.0@ == s[k].trace_id->Some_0
    }

    pub fn new() -> (s: LogStore)
        ensures
            s.wf(),
            s@ == Seq::<LogV>::empty(),
    {
        let s = LogStore { records: Vec::new(), by_trace: Vec::new() };
        assert(s@ =~= Seq::<LogV>::empty());
        s
    }

    /// The bucket of the trace `id`, if it has one.
    fn bucket(&self, id: &TraceId) -> (r: Option<usize>)
        ensures
            r matches Some(i) ==> i < self.by_trace@.len() && self.by_trace@[i as int].0.0@ == id.0@,
            r is None ==> forall|j: int| 0 <= j < self.by_trace@.len() ==> self.by_trace@[j].0.0@ != id.0@,
    {
        let mut i: usize = 0;
        while i < self.by_trace.len()
            invariant
                i <= self.by_trace@.len(),
                forall|j: int| 0 <= j < i ==> self.by_trace@[j].0.0@ != id.0@,
            decreases self.by_trace@.len() - i,
        {
            if self.by_trace[i].0.same(id) {
                return Some(i);
            }
            i = i + 1;
        }
        None
    }

    pub fn insert(&mut self, record: LogRecord)
        requires
            old(self).wf(),
            old(self)@.len() < usize::MAX,
        ensures
            final(self).wf(),
            final(self)@ == old(self)@.push(record@),
    {
        let ghost old_s = self@;
        let ghost rv = record@;
        let ghost new_s = old_s.push(rv);
        let ghost old_bt = self.by_trace@;
        let ghost mut home: int = 0;
        let position = self.records.len();
        match record.trace_id {
            Some(trace_id) => {
                match self.bucket(&trace_id) {
                    Some(i) => {
                        proof {
                            home = i as int;
                        }
                        let (id, mut positions) = self.by_trace.remove(i);
                        positions.push(position);
                        self.by_trace.insert(i, (id, positions));
                        proof {
                            assert(self.by_trace@ =~= old_bt.update(i as int, (id, positions)));
                        }
                    },
                    None => {
                        proof {
                            home = old_bt.len() as int;
                        }
                        let mut positions: Vec<usize> = Vec::new();
                        positions.push(position);
                        self.by_trace.push((trace_id, positions));
                    },
                }
            },
            None => {},
        }
        self.records.push(record);
        proof {
            assert(self@ =~= new_s);
            let s = records_view(self.records@);
            let bt = self.by_trace@;
            assert(s == new_s);
            // The ids of old buckets stay where they were.
            assert forall|i: int| 0 <= i < old_bt.len() implies #[trigger] bt[i].0 == old_bt[i].0 by {}
            assert forall|i: int| 0 <= i < bt.len() implies #[trigger] bt[i].1@ == positions_of(
                s,
                bt[i].0.0@,
            ) by {
                lemma_positions_push(old_s, rv, bt[i].0.0@);
                if i < old_bt.len() {
                    if rv.trace_id == Some(bt[i].0.0@) {
                        assert(bt[i].1@ == old_bt[i].1@.push(position));
                    } else {
                        assert(bt[i] == old_bt[i]);
                    }
                } else {
                    lemma_positions_of(old_s, bt[i].0.0@);
                    assert(positions_of(old_s, bt[i].0.0@).len() == 0) by {
                        if positions_of(old_s, bt[i].0.0@).len() > 0 {
                            let q = positions_of(old_s, bt[i].0.0@)[0];
                            assert(old_s[q as int].trace_id == Some(bt[i].0.0@));
                            assert(old_s[q as int].trace_id is Some);
                            let b = choose|b: int|
                                0 <= b < old_bt.len() && #[trigger] old_bt[b].0.0@ == old_s[q as int].trace_id->Some_0;
                        }
                    }
                    assert(bt[i].1@ =~= positions_of(s, bt[i].0.0@));
                }
            }
            assert forall|k: int|
                0 <= k < s.len() && (#[trigger] s[k]).trace_id is Some implies exists|i: int|
                    0 <= i < bt.len() && #[trigger] bt[i].0.0@ == s[k].trace_id->Some_0 by {
                if k < old_s.len() {
                    assert(s[k] == old_s[k]);
                    let b = choose|b: int|
                        0 <= b < old_bt.len() && #[trigger] old_bt[b].0.0@ == old_s[k].trace_id->Some_0;
                    assert(bt[b].0 == old_bt[b].0);
                } else {
                    assert(s[k] == rv);
                    assert(0 <= home < bt.len() && bt[home].0.0@ == rv.trace_id->Some_0);
                }
            }
        }
    }

    /// Every log emitted within the given trace, in order: the cross-signal
    /// join.
    pub fn for_trace(&self, id: &TraceId) -> (out: Vec<LogRecord>)
        requires
            self.wf(),
        ensures
            records_view(out@) == logs_of(self@, id.0@),
    {
        let ghost s = self@;
        let count = self.records.len();
        let mut i: usize = 0;
        while i < self.by_trace.len()
            invariant
                self.wf(),
                s == self@,
                s.len() == count,
                i <= self.by_trace@.len(),
                forall|j: int| 0 <= j < i ==> self.by_trace@[j].0.0@ != id.0@,
            decreases self.by_trace@.len() - i,
        {
            if self.by_trace[i].0.same(id) {
                proof {
                    lemma_positions_of(s, id.0@);
                }
                let positions = &self.by_trace[i].1;
                let mut out: Vec<LogRecord> = Vec::new();
                let mut k: usize = 0;
                while k < positions.len()
                    invariant
                        s == self@,
                        s == records_view(self.records@),
                        positions@ == positions_of(s, id.0@),
                        positions_of(s, id.0@).len() == logs_of(s, id.0@).len(),
                        forall|q: int|
                            0 <= q < positions_of(s, id.0@).len() ==> (#[trigger] positions_of(
                                s,
                                id.0@,
                            )[q]) < s.len() && s[positions_of(s, id.0@)[q] as int] == logs_of(
                                s,
                                id.0@,
                            )[q],
                        k <= positions@.len(),
                        records_view(out@) == logs_of(s, id.0@).take(k as int),
                    decreases positions@.len() - k,
                {
                    let p = positions[k];
                    assert(s[p as int] == self.records@[p as int]@);
                    let r = self.records[p].clone();
                    let ghost before = out@;
                    out.push(r);
                    assert(records_view(out@) =~= logs_of(s, id.0@).take(k + 1)) by {
                        assert(records_view(before.push(r)) =~= records_view(before).push(r@));
                    }
                    k = k + 1;
                }
                assert(logs_of(s, id.0@).take(k as int) =~= logs_of(s, id.0@));
                return out;
            }
            i = i + 1;
        }
        proof {
            lemma_positions_of(s, id.0@);
            assert forall|q: int| 0 <= q < s.len() implies #[trigger] s[q].trace_id != Some(id.0@) by {
                if s[q].trace_id == Some(id.0@) {
                    assert(s[q].trace_id is Some);
                    let b = choose|b: int|
                        0 <= b < self.by_trace@.len() && #[trigger] self.by_trace@[b].0.0@ == id.0@;
                }
            }
        }
        let out: Vec<LogRecord> = Vec::new();
        assert(records_view(out@) =~= logs_of(s, id.0@));
        out
    }

    /// All logs whose timestamp falls within `range`, in order.
    pub fn in_range(&self, range: TimeRange) -> (out: Vec<LogRecord>)
        ensures
            records_view(out@) == logs_in(self@, range),
    {
        let ghost s = self@;
        let mut out: Vec<LogRecord> = Vec::new();
        let mut i: usize = 0;
        while i < self.records.len()
            invariant
                s == self@,
                s == records_view(self.records@),
                i <= self.records@.len(),
                records_view(out@) == logs_in(s.take(i as int), range),
            decreases self.records@.len() - i,
        {
            let ghost before = out@;
            proof {
                assert(s.take(i + 1).drop_last() =~= s.take(i as int));
                assert(s.take(i + 1).last() == self.records@[i as int]@);
            }
            if range.contains(self.records[i].timestamp) {
                let r = self.records[i].clone();
                out.push(r);
                assert(records_view(out@) =~= records_view(before).push(r@));
            }
            i = i + 1;
        }
        assert(s.take(i as int) =~= s);
        out
    }

    /// The number of records stored.
    pub fn len(&self) -> (n: usize)
        ensures
            n == self@.len(),
    {
        self.records.len()
    }
}

} // verus!
