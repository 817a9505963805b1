//! The metric store: a collection of compressed series plus the label index
//! used to find them.

use vstd::prelude::*;
use crate::gorilla::chunk_bits;
use crate::index::{LabelIndex, distinct_ids, has_label, id_set};
use crate::labels::{Entry, Labels, SeriesId, map_of, sorted, spec_series_id, lemma_map_of_dom, lemma_map_of_get};
use crate::metric::{MetricKind, MetricPoint, Sample};
use crate::query::{Matcher, Selector, SeriesResult, TimeRange};
use crate::series::{Series, samples_in};

verus! {

/// What the store holds for one series.
pub ghost struct StoredSeries {
    pub id: u64,
    pub name: Seq<char>,
    pub labels: Map<Seq<char>, Seq<char>>,
    pub kind: MetricKind,
    /// The stored `(timestamp_ms, value_bits)` pairs, in order.
    pub samples: Seq<(u64, u64)>,
}

/// Whether a label map passes a matcher.
pub open spec fn accepts(m: Matcher, labels: Map<Seq<char>, Seq<char>>) -> bool {
    match m {
        Matcher::Eq(k, v) => labels.contains_key(k@) && labels[k@] == v@,
        Matcher::Ne(k, v) => !(labels.contains_key(k@) && labels[k@] == v@),
    }
}

/// Whether a stored series is selected: its name is the selector's metric
/// and its labels pass every matcher.
pub open spec fn is_selected(st: StoredSeries, selector: Selector) -> bool {
    &&& st.name == selector.metric@
    &&& forall|j: int|
        0 <= j < selector.matchers@.len() ==> #[trigger] accepts(selector.matchers@[j], st.labels)
}

/// The selected series, in store order.
pub open spec fn selected_series(s: Seq<StoredSeries>, selector: Selector) -> Seq<StoredSeries>
    decreases s.len(),
{
    if s.len() == 0 {
        Seq::empty()
    } else if is_selected(s.last(), selector) {
        selected_series(s.drop_last(), selector).push(s.last())
    } else {
        selected_series(s.drop_last(), selector)
    }
}

/// Whether `r` reports the series `st` with its samples in `range`.
pub open spec fn reports(r: SeriesResult, st: StoredSeries, range: TimeRange) -> bool {
    &&& r.metric@ == st.name
    &&& r.kind == st.kind
    &&& r.labels@ == st.labels
    &&& r.samples@ == samples_in(st.samples, range)
}

/// The total number of stored samples.
pub open spec fn total_samples(s: Seq<StoredSeries>) -> nat
    decreases s.len(),
{
    if s.len() == 0 {
        0
    } else {
        total_samples(s.drop_last()) + s.last().samples.len()
    }
}

/// The compressed size of one series, in bytes.
pub open spec fn series_bytes(st: StoredSeries) -> nat {
    ((chunk_bits(st.samples).len() + 7) / 8) as nat
}

/// The total compressed size, in bytes.
pub open spec fn total_bytes(s: Seq<StoredSeries>) -> nat
    decreases s.len(),
{
    if s.len() == 0 {
        0
    } else {
        total_bytes(s.drop_last()) + series_bytes(s.last())
    }
}

/// The series a point belongs to.
pub open spec fn point_id(point: MetricPoint) -> u64 {
    spec_series_id(point.name@, point.labels.entries())
}

/// The stored pair a point's sample becomes (millisecond resolution).
pub open spec fn point_sample(point: MetricPoint) -> (u64, u64) {
    (point.sample.timestamp.0 / 1_000_000, point.sample.value_bits)
}

/// The store after appending `point`: its sample goes to the series with the
/// point's id, which is created (and indexed) on first sight.
pub open spec fn after_append(s: Seq<StoredSeries>, point: MetricPoint) -> Seq<StoredSeries> {
    let id = point_id(point);
    if exists|i: int| 0 <= i < s.len() && #[trigger] s[i].id == id {
        let i = choose|i: int| 0 <= i < s.len() && #[trigger] s[i].id == id;
        s.update(i, StoredSeries { samples: s[i].samples.push(point_sample(point)), ..s[i] })
    } else {
        s.push(
            StoredSeries {
                id,
                name: point.name@,
                labels: point.labels@,
                kind: point.kind,
                samples: seq![point_sample(point)],
            },
        )
    }
}

pub struct MetricStore {
    ids: Vec<SeriesId>,
    series: Vec<Series>,
    index: LabelIndex,
}

/// What the store holds for the series `s` under `id`.
pub open spec fn stored(id: SeriesId, s: Series) -> StoredSeries {
    StoredSeries {
        id: id.0,
        name: s.name_of()@,
        labels: s.labels_of()@,
        kind: s.kind_of(),
        samples: s@,
    }
}

impl View for MetricStore {
    type V = Seq<StoredSeries>;

    /// The stored series, in the order they were first seen.
    closed spec fn view(&self) -> Seq<StoredSeries> {
        Seq::new(self.ids@.len(), |i: int| stored(self.ids@[i], self.series@[i]))
    }
}

impl MetricStore {
    /// The store's invariant: one series per id, each well formed, and the
    /// index recording exactly the names and labels of the stored series.
    pub closed spec fn wf(&self) -> bool {
        &&& self.ids@.len() == self.series@.len()
        &&& self.index.wf()
        &&& distinct_ids(self.ids@)
        &&& forall|i: int| 0 <= i < self.series@.len() ==> #[trigger] self.series@[i].wf()
        &&& forall|i: int|
            0 <= i < self.series@.len() ==> sorted(#[trigger] self.series@[i].labels_of().entries())
        &&& forall|n: Seq<char>, x: u64|
            #[trigger] self.index.ids_named(n).contains(x) <==> exists|i: int|
                0 <= i < self.ids@.len() && #[trigger] self.ids@[i].0 == x
                    && self.series@[i].name_of()@ == n
        &&& forall|k: Seq<char>, v: Seq<char>, x: u64|
            #[trigger] self.index.ids_labeled(k, v).contains(x) <==> exists|i: int|
                0 <= i < self.ids@.len() && #[trigger] self.ids@[i].0 == x && has_label(
                    self.series@[i].labels_of().entries(),
                    k,
                    v,
                )
    }

    /// Whether `point` can be appended: the series it goes to has room for one
    /// more sample (the codec takes every timestamp a point can carry).
    pub open spec fn can_take(&self, point: MetricPoint) -> bool {
        forall|i: int|
            0 <= i < self@.len() && #[trigger] self@[i].id == point_id(point)
                ==> self@[i].samples.len() < usize::MAX
    }

    /// An empty store.
    pub fn new() -> (s: MetricStore)
        ensures
            s.wf(),
            s@ == Seq::<StoredSeries>::empty(),
    {
        let s = MetricStore { ids: Vec::new(), series: Vec::new(), index: LabelIndex::new() };
        assert(s@ =~= Seq::<StoredSeries>::empty());
        s
    }

    /// The position of the series with `id`, if stored.
    fn position(&self, id: SeriesId) -> (r: Option<usize>)
        requires
            self.wf(),
        ensures
            r matches Some(i) ==> i < self.ids@.len() && self.ids@[i as int].0 == id.0,
            r is None ==> forall|i: int| 0 <= i < self.ids@.len() ==> self.ids@[i].0 != id.0,
    {
        let mut i: usize = 0;
        while i < self.ids.len()
            invariant
                i <= self.ids@.len(),
                forall|j: int| 0 <= j < i ==> self.ids@[j].0 != id.0,
            decreases self.ids@.len() - i,
        {
            if self.ids[i].0 == id.0 {
                return Some(i);
            }
            i = i + 1;
        }
        None
    }

    /// Whether `point` can be appended (see [`MetricStore::can_take`]).
    pub fn accepts(&self, point: &MetricPoint) -> (b: bool)
        requires
            self.wf(),
        ensures
            b == self.can_take(*point),
    {
        let id = point.series_id();
        match self.position(id) {
            Some(i) => {
                let b = self.series[i].accepts(point.sample.timestamp);
                proof {
                    assert(self@[i as int].id == point_id(*point));
                    if !b {
                        assert(!(self@[i as int].samples.len() < usize::MAX));
                    } else {
                        assert forall|j: int| 0 <= j < self@.len() && #[trigger] self@[j].id == point_id(*point)
                            implies self@[j].samples.len() < usize::MAX by {
                            assert(self.ids@[j].0 == self.ids@[i as int].0);
                        }
                    }
                }
                b
            },
            None => {
                proof {
                    assert forall|j: int| 0 <= j < self@.len() implies #[trigger] self@[j].id != point_id(*point) by {
                        assert(self@[j].id == self.ids@[j].0);
                    }
                }
                true
            },
        }
    }

    /// Append a point to its series, creating and indexing the series on
    /// first sight.
    pub fn append(&mut self, point: MetricPoint)
        requires
            old(self).wf(),
            old(self).can_take(point),
        ensures
            final(self).wf(),
            final(self)@ == after_append(old(self)@, point),
    {
        let ghost old_view = self@;
        let ghost old_store = *self;
        let id = point.series_id();
        match self.position(id) {
            Some(i) => {
                proof {
                    assert(old_view[i as int].id == id.0);
                }
                let mut s = self.series.remove(i);
                s.append(point.sample);
                self.series.insert(i, s);
                proof {
                    assert(self.series@ =~= old_store.series@.update(i as int, s));
                    assert forall|n: Seq<char>, x: u64| #[trigger]
                        self.index.ids_named(n).contains(x) <==> exists|j: int|
                            0 <= j < self.ids@.len() && #[trigger] self.ids@[j].0 == x
                                && self.series@[j].name_of()@ == n by {
                        if exists|j: int|
                            0 <= j < self.ids@.len() && #[trigger] self.ids@[j].0 == x
                                && self.series@[j].name_of()@ == n {
                            let j = choose|j: int|
                                0 <= j < self.ids@.len() && #[trigger] self.ids@[j].0 == x
                                    && self.series@[j].name_of()@ == n;
                            assert(old_store.series@[j].name_of() == self.series@[j].name_of());
                        }
                        if old_store.index.ids_named(n).contains(x) {
                            let j = choose|j: int|
                                0 <= j < old_store.ids@.len() && #[trigger] old_store.ids@[j].0 == x
                                    && old_store.series@[j].name_of()@ == n;
                            assert(old_store.series@[j].name_of() == self.series@[j].name_of());
                        }
                    }
                    assert forall|k: Seq<char>, v: Seq<char>, x: u64| #[trigger]
                        self.index.ids_labeled(k, v).contains(x) <==> exists|j: int|
                            0 <= j < self.ids@.len() && #[trigger] self.ids@[j].0 == x && has_label(
                                self.series@[j].labels_of().entries(),
                                k,
                                v,
                            ) by {
                        if exists|j: int|
                            0 <= j < self.ids@.len() && #[trigger] self.ids@[j].0 == x && has_label(
                                self.series@[j].labels_of().entries(),
                                k,
                                v,
                            ) {
                            let j = choose|j: int|
                                0 <= j < self.ids@.len() && #[trigger] self.ids@[j].0 == x
                                    && has_label(self.series@[j].labels_of().entries(), k, v);
                            assert(old_store.series@[j].labels_of() == self.series@[j].labels_of());
                        }
                        if old_store.index.ids_labeled(k, v).contains(x) {
                            let j = choose|j: int|
                                0 <= j < old_store.ids@.len() && #[trigger] old_store.ids@[j].0 == x
                                    && has_label(old_store.series@[j].labels_of().entries(), k, v);
                            assert(old_store.series@[j].labels_of() == self.series@[j].labels_of());
                        }
                    }
                    assert forall|j: int| 0 <= j < self.series@.len() implies #[trigger] self.series@[j].wf() by {
                        if j != i {
                            assert(self.series@[j] == old_store.series@[j]);
                        }
                    }
                    assert forall|j: int| 0 <= j < self.series@.len() implies sorted(
                        #[trigger] self.series@[j].labels_of().entries(),
                    ) by {
                        if j != i {
                            assert(self.series@[j] == old_store.series@[j]);
                        } else {
                            assert(old_store.series@[j].labels_of() == self.series@[j].labels_of());
                        }
                    }
                    let c = choose|c: int| 0 <= c < old_view.len() && #[trigger] old_view[c].id == point_id(point);
                    assert(old_view[c].id == old_store.ids@[c].0);
                    assert(c == i);
                    assert(self@ =~= after_append(old_view, point));
                }
            },
            None => {
                point.labels.entries_sorted();
                self.index.insert(id, point.name.as_str(), &point.labels);
                let ghost labels = point.labels;
                let mut s = Series::new(point.name, point.labels, point.kind);
                s.append(point.sample);
                self.ids.push(id);
                self.series.push(s);
                proof {
                    let last = old_store.ids@.len() as int;
                    assert(self.ids@[last] == id);
                    assert(self.series@[last] == s);
                    assert forall|j: int| 0 <= j < last implies self.ids@[j] == old_store.ids@[j]
                        && self.series@[j] == old_store.series@[j] by {}
                    assert(distinct_ids(self.ids@));
                    assert forall|n: Seq<char>, x: u64| #[trigger]
                        self.index.ids_named(n).contains(x) <==> exists|j: int|
                            0 <= j < self.ids@.len() && #[trigger] self.ids@[j].0 == x
                                && self.series@[j].name_of()@ == n by {
                        if exists|j: int|
                            0 <= j < self.ids@.len() && #[trigger] self.ids@[j].0 == x
                                && self.series@[j].name_of()@ == n {
                            let j = choose|j: int|
                                0 <= j < self.ids@.len() && #[trigger] self.ids@[j].0 == x
                                    && self.series@[j].name_of()@ == n;
                            if j < last {
                                assert(old_store.index.ids_named(n).contains(x));
                            }
                        }
                        if old_store.index.ids_named(n).contains(x) {
                            let j = choose|j: int|
                                0 <= j < old_store.ids@.len() && #[trigger] old_store.ids@[j].0 == x
                                    && old_store.series@[j].name_of()@ == n;
                            assert(self.ids@[j].0 == x);
                        }
                    }
                    assert forall|k: Seq<char>, v: Seq<char>, x: u64| #[trigger]
                        self.index.ids_labeled(k, v).contains(x) <==> exists|j: int|
                            0 <= j < self.ids@.len() && #[trigger] self.ids@[j].0 == x && has_label(
                                self.series@[j].labels_of().entries(),
                                k,
                                v,
                            ) by {
                        if exists|j: int|
                            0 <= j < self.ids@.len() && #[trigger] self.ids@[j].0 == x && has_label(
                                self.series@[j].labels_of().entries(),
                                k,
                                v,
                            ) {
                            let j = choose|j: int|
                                0 <= j < self.ids@.len() && #[trigger] self.ids@[j].0 == x
                                    && has_label(self.series@[j].labels_of().entries(), k, v);
                            if j < last {
                                assert(old_store.index.ids_labeled(k, v).contains(x));
                            }
                        }
                        if old_store.index.ids_labeled(k, v).contains(x) {
                            let j = choose|j: int|
                                0 <= j < old_store.ids@.len() && #[trigger] old_store.ids@[j].0 == x
                                    && has_label(old_store.series@[j].labels_of().entries(), k, v);
                            assert(self.ids@[j].0 == x);
                        }
                    }
                    assert(!exists|c: int| 0 <= c < old_view.len() && #[trigger] old_view[c].id == point_id(point));
                    assert(self@ =~= after_append(old_view, point));
                }
            },
        }
    }

    /// Whether the series at `i` is selected, read from the index.
    proof fn lemma_selected_iff(&self, selector: Selector, i: int)
        requires
            self.wf(),
            0 <= i < self@.len(),
        ensures
            self.index.selected(selector).contains(self.ids@[i].0) == is_selected(
                self@[i],
                selector,
            ),
    {
        let x = self.ids@[i].0;
        let st = self@[i];
        let entries = self.series@[i].labels_of().entries();
        assert(st.labels == map_of(entries));
        assert(self.index.ids_named(selector.metric@).contains(x) == (st.name == selector.metric@)) by {
            if self.index.ids_named(selector.metric@).contains(x) {
                let j = choose|j: int|
                    0 <= j < self.ids@.len() && #[trigger] self.ids@[j].0 == x
                        && self.series@[j].name_of()@ == selector.metric@;
                assert(j == i);
            }
        }
        assert forall|j: int| 0 <= j < selector.matchers@.len() implies #[trigger] self.index.admits(
            selector.matchers@[j],
            x,
        ) == accepts(selector.matchers@[j], st.labels) by {
            match selector.matchers@[j] {
                Matcher::Eq(k, v) => {
                    lemma_has_label_map(entries, k@, v@);
                    if self.index.ids_labeled(k@, v@).contains(x) {
                        let q = choose|q: int|
                            0 <= q < self.ids@.len() && #[trigger] self.ids@[q].0 == x && has_label(
                                self.series@[q].labels_of().entries(),
                                k@,
                                v@,
                            );
                        assert(q == i);
                    }
                },
                Matcher::Ne(k, v) => {
                    lemma_has_label_map(entries, k@, v@);
                    if self.index.ids_labeled(k@, v@).contains(x) {
                        let q = choose|q: int|
                            0 <= q < self.ids@.len() && #[trigger] self.ids@[q].0 == x && has_label(
                                self.series@[q].labels_of().entries(),
                                k@,
                                v@,
                            );
                        assert(q == i);
                    }
                },
            }
        }
        if is_selected(st, selector) {
            assert forall|j: int| 0 <= j < selector.matchers@.len() implies #[trigger] self.index.admits(
                selector.matchers@[j],
                x,
            ) by {
                assert(accepts(selector.matchers@[j], st.labels));
            }
        }
        if self.index.selected(selector).contains(x) {
            assert forall|j: int| 0 <= j < selector.matchers@.len() implies #[trigger] accepts(
                selector.matchers@[j],
                st.labels,
            ) by {
                assert(self.index.admits(selector.matchers@[j], x));
            }
        }
    }

    /// Retrieve the series matching `selector`, each with its samples in
    /// `range`, in the order the series were first seen.
    pub fn query(&self, selector: &Selector, range: TimeRange) -> (out: Vec<SeriesResult>)
        requires
            self.wf(),
        ensures
            out@.len() == selected_series(self@, *selector).len(),
            forall|j: int|
                0 <= j < out@.len() ==> reports(
                    #[trigger] out@[j],
                    selected_series(self@, *selector)[j],
                    range,
                ),
    {
        let chosen = self.index.select(selector);
        let mut out: Vec<SeriesResult> = Vec::new();
        let mut i: usize = 0;
        while i < self.series.len()
            invariant
                self.wf(),
                id_set(chosen@) == self.index.selected(*selector),
                i <= self.series@.len(),
                out@.len() == selected_series(self@.take(i as int), *selector).len(),
                forall|j: int|
                    0 <= j < out@.len() ==> reports(
                        #[trigger] out@[j],
                        selected_series(self@.take(i as int), *selector)[j],
                        range,
                    ),
            decreases self.series@.len() - i,
        {
            let hit = contains_id(&chosen, self.ids[i]);
            proof {
                self.lemma_selected_iff(*selector, i as int);
                assert(self@.take(i + 1).drop_last() =~= self@.take(i as int));
                assert(self@.take(i + 1).last() == self@[i as int]);
            }
            if hit {
                let s = &self.series[i];
                let result = SeriesResult {
                    metric: s.name().clone(),
                    kind: s.kind(),
                    labels: s.labels().clone(),
                    samples: s.samples_in_range(range),
                };
                out.push(result);
            }
            i = i + 1;
        }
        assert(self@.take(self@.len() as int) =~= self@);
        out
    }

    /// Number of series stored.
    pub fn series_count(&self) -> (n: usize)
        requires
            self.wf(),
        ensures
            n == self@.len(),
    {
        self.series.len()
    }

    /// Number of samples stored, across all series.
    pub fn sample_count(&self) -> (n: usize)
        requires
            self.wf(),
            total_samples(self@) <= usize::MAX,
        ensures
            n == total_samples(self@),
    {
        let mut total: usize = 0;
        let mut i: usize = 0;
        while i < self.series.len()
            invariant
                self.wf(),
                i <= self.series@.len(),
                total == total_samples(self@.take(i as int)),
                total_samples(self@) <= usize::MAX,
            decreases self.series@.len() - i,
        {
            proof {
                assert(self@.take(i + 1).drop_last() =~= self@.take(i as int));
                lemma_total_samples_prefix(self@, i + 1);
            }
            total = total + self.series[i].len();
            i = i + 1;
        }
        assert(self@.take(self@.len() as int) =~= self@);
        total
    }

    /// Total compressed size across all series, in bytes.
    pub fn encoded_len(&self) -> (n: usize)
        requires
            self.wf(),
            total_bytes(self@) <= usize::MAX,
            forall|i: int| 0 <= i < self@.len() ==> chunk_bits(#[trigger] self@[i].samples).len() <= usize::MAX,
        ensures
            n == total_bytes(self@),
    {
        let mut total: usize = 0;
        let mut i: usize = 0;
        while i < self.series.len()
            invariant
                self.wf(),
                i <= self.series@.len(),
                total == total_bytes(self@.take(i as int)),
                total_bytes(self@) <= usize::MAX,
                forall|i: int| 0 <= i < self@.len() ==> chunk_bits(#[trigger] self@[i].samples).len() <= usize::MAX,
            decreases self.series@.len() - i,
        {
            proof {
                assert(self@.take(i + 1).drop_last() =~= self@.take(i as int));
                lemma_total_bytes_prefix(self@, i + 1);
                assert(self@[i as int].samples == self.series@[i as int]@);
            }
            total = total + self.series[i].encoded_len();
            i = i + 1;
        }
        assert(self@.take(self@.len() as int) =~= self@);
        total
    }
}

/// Whether `id` occurs in `ids`.
fn contains_id(ids: &Vec<SeriesId>, id: SeriesId) -> (b: bool)
    ensures
        b == id_set(ids@).contains(id.0),
{
    let mut i: usize = 0;
    while i < ids.len()
        invariant
            i <= ids@.len(),
            forall|j: int| 0 <= j < i ==> ids@[j].0 != id.0,
        decreases ids@.len() - i,
    {
        if ids[i].0 == id.0 {
            return true;
        }
        i = i + 1;
    }
    false
}

/// Totals over a prefix never exceed the whole.
proof fn lemma_total_samples_prefix(s: Seq<StoredSeries>, n: int)
    requires
        0 <= n <= s.len(),
    ensures
        total_samples(s.take(n)) <= total_samples(s),
    decreases s.len(),
{
    if n < s.len() {
        assert(s.drop_last().take(n) =~= s.take(n));
        lemma_total_samples_prefix(s.drop_last(), n);
    } else {
        assert(s.take(n) =~= s);
    }
}

/// Totals over a prefix never exceed the whole.
proof fn lemma_total_bytes_prefix(s: Seq<StoredSeries>, n: int)
    requires
        0 <= n <= s.len(),
    ensures
        total_bytes(s.take(n)) <= total_bytes(s),
    decreases s.len(),
{
    if n < s.len() {
        assert(s.drop_last().take(n) =~= s.take(n));
        lemma_total_bytes_prefix(s.drop_last(), n);
    } else {
        assert(s.take(n) =~= s);
    }
}

/// Replacing one series changes the total by the difference in its samples.
proof fn lemma_total_samples_update(s: Seq<StoredSeries>, i: int, x: StoredSeries)
    requires
        0 <= i < s.len(),
    ensures
        total_samples(s.update(i, x)) == total_samples(s) - s[i].samples.len()
            + x.samples.len(),
    decreases s.len(),
{
    let u = s.update(i, x);
    if i < s.len() - 1 {
        assert(u.drop_last() =~= s.drop_last().update(i, x));
        lemma_total_samples_update(s.drop_last(), i, x);
    } else {
        assert(u.drop_last() =~= s.drop_last());
    }
}

/// Every append adds exactly one sample to the store, and adds a series only
/// when no stored series has the point's id.
pub proof fn lemma_append_counts(s: Seq<StoredSeries>, point: MetricPoint)
    ensures
        total_samples(after_append(s, point)) == total_samples(s) + 1,
        after_append(s, point).len() == if exists|i: int|
            0 <= i < s.len() && #[trigger] s[i].id == point_id(point) {
            s.len()
        } else {
            s.len() + 1
        },
{
    let id = point_id(point);
    if exists|i: int| 0 <= i < s.len() && #[trigger] s[i].id == id {
        let i = choose|i: int| 0 <= i < s.len() && #[trigger] s[i].id == id;
        lemma_total_samples_update(
            s,
            i,
            StoredSeries { samples: s[i].samples.push(point_sample(point)), ..s[i] },
        );
    } else {
        let a = after_append(s, point);
        assert(a.drop_last() =~= s);
    }
}

/// For sorted entries, holding the label `k = v` is the same as the label
/// map sending `k` to `v`.
pub proof fn lemma_has_label_map(entries: Seq<Entry>, k: Seq<char>, v: Seq<char>)
    requires
        sorted(entries),
    ensures
        has_label(entries, k, v) <==> (map_of(entries).contains_key(k) && map_of(entries)[k] == v),
{
    lemma_map_of_dom(entries);
    if has_label(entries, k, v) {
        let j = choose|j: int| 0 <= j < entries.len() && #[trigger] entries[j] == (k, v);
        lemma_map_of_get(entries, j);
    }
    if map_of(entries).contains_key(k) && map_of(entries)[k] == v {
        let j = choose|j: int| 0 <= j < entries.len() && entries[j].0 == k;
        lemma_map_of_get(entries, j);
        assert(entries[j] == (k, v));
    }
}

} // verus!
