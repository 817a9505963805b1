//! An inverted index from metric names and labels to series ids.
//!
//! Selecting a series resolves to set operations: start with every series for
//! the metric name, intersect with each `Eq` matcher, and subtract each `Ne`.
//! The index is kept as two posting lists: `(name, id)` pairs and
//! `(key, value, id)` triples, each pair or triple recorded once.

use vstd::prelude::*;
use crate::labels::{Entry, Labels, SeriesId, entries_view, entry_view, same_str};
use crate::query::{Matcher, Selector};

verus! {

/// The ids of a list of series ids, as a set.
pub open spec fn id_set(v: Seq<SeriesId>) -> Set<u64> {
    Set::new(|x: u64| exists|j: int| 0 <= j < v.len() && #[trigger] v[j].0 == x)
}

/// No id occurs twice in the list.
pub open spec fn distinct_ids(v: Seq<SeriesId>) -> bool {
    forall|i: int, j: int| 0 <= i < j < v.len() ==> v[i].0 != v[j].0
}

/// Whether an entry list holds the label `key = value`.
pub open spec fn has_label(entries: Seq<Entry>, key: Seq<char>, value: Seq<char>) -> bool {
    exists|j: int| 0 <= j < entries.len() && #[trigger] entries[j] == (key, value)
}

#[derive(Debug)]
pub struct LabelIndex {
    by_name: Vec<(String, SeriesId)>,
    by_label: Vec<(String, String, SeriesId)>,
}

/// The characters and id of a name posting.
pub open spec fn name_posting(p: (String, SeriesId)) -> (Seq<char>, u64) {
    (p.0@, p.1.0)
}

/// The characters and id of a label posting.
pub open spec fn label_posting(p: (String, String, SeriesId)) -> (Seq<char>, Seq<char>, u64) {
    (p.0@, p.1@, p.2.0)
}

impl LabelIndex {
    /// The ids registered under a metric name.
    pub closed spec fn ids_named(&self, name: Seq<char>) -> Set<u64> {
        Set::new(
            |id: u64|
                exists|i: int|
                    0 <= i < self.by_name@.len() && #[trigger] name_posting(self.by_name@[i]) == (
                        name,
                        id,
                    ),
        )
    }

    /// The ids registered under the label `key = value`.
    pub closed spec fn ids_labeled(&self, key: Seq<char>, value: Seq<char>) -> Set<u64> {
        Set::new(
            |id: u64|
                exists|i: int|
                    0 <= i < self.by_label@.len() && #[trigger] label_posting(self.by_label@[i])
                        == (key, value, id),
        )
    }

    /// Each posting is recorded once.
    pub closed spec fn wf(&self) -> bool {
        &&& forall|i: int, j: int|
            0 <= i < j < self.by_name@.len() ==> name_posting(self.by_name@[i]) != name_posting(
                self.by_name@[j],
            )
        &&& forall|i: int, j: int|
            0 <= i < j < self.by_label@.len() ==> label_posting(self.by_label@[i])
                != label_posting(self.by_label@[j])
    }

    /// Whether `id` passes a matcher, according to the index.
    pub open spec fn admits(&self, m: Matcher, id: u64) -> bool {
        match m {
            Matcher::Eq(k, v) => self.ids_labeled(k@, v@).contains(id),
            Matcher::Ne(k, v) => !self.ids_labeled(k@, v@).contains(id),
        }
    }

    /// The ids a selector resolves to: every id for the metric name that
    /// passes all of the matchers.
    pub open spec fn selected(&self, selector: Selector) -> Set<u64> {
        Set::new(
            |id: u64|
                self.ids_named(selector.metric@).contains(id) && forall|j: int|
                    0 <= j < selector.matchers@.len() ==> #[trigger] self.admits(
                        selector.matchers@[j],
                        id,
                    ),
        )
    }

    /// An empty index.
    pub fn new() -> (ix: LabelIndex)
        ensures
            ix.wf(),
            forall|n: Seq<char>| ix.ids_named(n) == Set::<u64>::empty(),
            forall|k: Seq<char>, v: Seq<char>| ix.ids_labeled(k, v) == Set::<u64>::empty(),
    {
        let ix = LabelIndex { by_name: Vec::new(), by_label: Vec::new() };
        assert forall|n: Seq<char>| ix.ids_named(n) == Set::<u64>::empty() by {
            assert(ix.ids_named(n) =~= Set::<u64>::empty());
        }
        assert forall|k: Seq<char>, v: Seq<char>| ix.ids_labeled(k, v) == Set::<u64>::empty() by {
            assert(ix.ids_labeled(k, v) =~= Set::<u64>::empty());
        }
        ix
    }

    /// Whether the name posting `(name, id)` is recorded.
    fn has_name_posting(&self, name: &str, id: SeriesId) -> (b: bool)
        ensures
            b == self.ids_named(name@).contains(id.0),
    {
        let mut i: usize = 0;
        while i < self.by_name.len()
            invariant
                i <= self.by_name@.len(),
                forall|j: int| 0 <= j < i ==> name_posting(self.by_name@[j]) != (name@, id.0),
            decreases self.by_name@.len() - i,
        {
            if self.by_name[i].1.0 == id.0 && same_str(self.by_name[i].0.as_str(), name) {
                assert(name_posting(self.by_name@[i as int]) == (name@, id.0));
                return true;
            }
            i = i + 1;
        }
        false
    }

    /// Whether the label posting `(key, value, id)` is recorded.
    fn has_label_posting(&self, key: &str, value: &str, id: SeriesId) -> (b: bool)
        ensures
            b == self.ids_labeled(key@, value@).contains(id.0),
    {
        let mut i: usize = 0;
        while i < self.by_label.len()
            invariant
                i <= self.by_label@.len(),
                forall|j: int|
                    0 <= j < i ==> label_posting(self.by_label@[j]) != (key@, value@, id.0),
            decreases self.by_label@.len() - i,
        {
            if self.by_label[i].2.0 == id.0 && same_str(self.by_label[i].0.as_str(), key)
                && same_str(self.by_label[i].1.as_str(), value) {
                assert(label_posting(self.by_label@[i as int]) == (key@, value@, id.0));
                return true;
            }
            i = i + 1;
        }
        false
    }

    /// Record one label posting.
    fn add_label(&mut self, id: SeriesId, key: &str, value: &str)
        requires
            old(self).wf(),
        ensures
            final(self).wf(),
            final(self).by_name@ == old(self).by_name@,
            forall|k: Seq<char>, v: Seq<char>|
                #[trigger] final(self).ids_labeled(k, v) == if k == key@ && v == value@ {
                    old(self).ids_labeled(k, v).insert(id.0)
                } else {
                    old(self).ids_labeled(k, v)
                },
    {
        let ghost before = *self;
        if !self.has_label_posting(key, value, id) {
            self.by_label.push((key.to_owned(), value.to_owned(), id));
            proof {
                let n = before.by_label@.len() as int;
                assert(label_posting(self.by_label@[n]) == (key@, value@, id.0));
                assert forall|i: int| 0 <= i < n implies self.by_label@[i] == before.by_label@[i] by {}
            }
        }
        proof {
            let n = before.by_label@.len() as int;
            assert forall|k: Seq<char>, v: Seq<char>| #[trigger]
                self.ids_labeled(k, v) == if k == key@ && v == value@ {
                    before.ids_labeled(k, v).insert(id.0)
                } else {
                    before.ids_labeled(k, v)
                } by {
                let target = if k == key@ && v == value@ {
                    before.ids_labeled(k, v).insert(id.0)
                } else {
                    before.ids_labeled(k, v)
                };
                assert forall|x: u64| #[trigger] self.ids_labeled(k, v).contains(x) implies target.contains(x) by {
                    let i = choose|i: int|
                        0 <= i < self.by_label@.len() && #[trigger] label_posting(
                            self.by_label@[i],
                        ) == (k, v, x);
                    if i < n {
                        assert(self.by_label@[i] == before.by_label@[i]);
                    }
                }
                assert forall|x: u64| #[trigger] target.contains(x) implies self.ids_labeled(k, v).contains(x) by {
                    if before.ids_labeled(k, v).contains(x) {
                        let i = choose|i: int|
                            0 <= i < before.by_label@.len() && #[trigger] label_posting(
                                before.by_label@[i],
                            ) == (k, v, x);
                        assert(self.by_label@[i] == before.by_label@[i]);
                        assert(label_posting(self.by_label@[i]) == (k, v, x));
                    }
                }
                assert(self.ids_labeled(k, v) =~= target);
            }
        }
    }

    /// Register a series so it can be found by name and labels.
    pub fn insert(&mut self, id: SeriesId, name: &str, labels: &Labels)
        requires
            old(self).wf(),
        ensures
            final(self).wf(),
            forall|n: Seq<char>|
                #[trigger] final(self).ids_named(n) == if n == name@ {
                    old(self).ids_named(n).insert(id.0)
                } else {
                    old(self).ids_named(n)
                },
            forall|k: Seq<char>, v: Seq<char>|
                #[trigger] final(self).ids_labeled(k, v) == if has_label(labels.entries(), k, v) {
                    old(self).ids_labeled(k, v).insert(id.0)
                } else {
                    old(self).ids_labeled(k, v)
                },
    {
        let ghost before = *self;
        if !self.has_name_posting(name, id) {
            self.by_name.push((name.to_owned(), id));
            proof {
                let n = before.by_name@.len() as int;
                assert(name_posting(self.by_name@[n]) == (name@, id.0));
                assert forall|i: int| 0 <= i < n implies self.by_name@[i] == before.by_name@[i] by {}
            }
        }
        proof {
            let n = before.by_name@.len() as int;
            assert forall|m: Seq<char>| #[trigger]
                self.ids_named(m) == if m == name@ {
                    before.ids_named(m).insert(id.0)
                } else {
                    before.ids_named(m)
                } by {
                let target = if m == name@ {
                    before.ids_named(m).insert(id.0)
                } else {
                    before.ids_named(m)
                };
                assert forall|x: u64| #[trigger] self.ids_named(m).contains(x) implies target.contains(x) by {
                    let i = choose|i: int|
                        0 <= i < self.by_name@.len() && #[trigger] name_posting(self.by_name@[i])
                            == (m, x);
                    if i < n {
                        assert(self.by_name@[i] == before.by_name@[i]);
                    }
                }
                assert forall|x: u64| #[trigger] target.contains(x) implies self.ids_named(m).contains(x) by {
                    if before.ids_named(m).contains(x) {
                        let i = choose|i: int|
                            0 <= i < before.by_name@.len() && #[trigger] name_posting(
                                before.by_name@[i],
                            ) == (m, x);
                        assert(self.by_name@[i] == before.by_name@[i]);
                        assert(name_posting(self.by_name@[i]) == (m, x));
                    }
                }
                assert(self.ids_named(m) =~= target);
            }
        }
        let ghost mid = *self;
        let entries = labels.iter();
        let ghost es = labels.entries();
        let mut i: usize = 0;
        while i < entries.len()
            invariant
                self.wf(),
                entries_view(entries@) == es,
                i <= entries@.len(),
                forall|m: Seq<char>| #[trigger] self.ids_named(m) == mid.ids_named(m),
                forall|k: Seq<char>, v: Seq<char>|
                    #[trigger] self.ids_labeled(k, v) == if has_label(es.take(i as int), k, v) {
                        before.ids_labeled(k, v).insert(id.0)
                    } else {
                        before.ids_labeled(k, v)
                    },
            decreases entries@.len() - i,
        {
            let ghost prev = *self;
            self.add_label(id, entries[i].0.as_str(), entries[i].1.as_str());
            proof {
                assert(es[i as int] == entry_view(entries@[i as int]));
                assert forall|m: Seq<char>| #[trigger] self.ids_named(m) == mid.ids_named(m) by {
                    assert(self.ids_named(m) =~= prev.ids_named(m));
                }
                assert forall|k: Seq<char>, v: Seq<char>| #[trigger]
                    self.ids_labeled(k, v) == if has_label(es.take(i + 1), k, v) {
                        before.ids_labeled(k, v).insert(id.0)
                    } else {
                        before.ids_labeled(k, v)
                    } by {
                    let t = es.take(i + 1);
                    if (k, v) == es[i as int] {
                        assert(t[i as int] == (k, v));
                        assert(has_label(t, k, v));
                        assert(self.ids_labeled(k, v) =~= before.ids_labeled(k, v).insert(id.0));
                    } else {
                        if has_label(t, k, v) {
                            let j = choose|j: int| 0 <= j < t.len() && #[trigger] t[j] == (k, v);
                            assert(es.take(i as int)[j] == (k, v));
                        }
                        if has_label(es.take(i as int), k, v) {
                            let j = choose|j: int|
                                0 <= j < i && #[trigger] es.take(i as int)[j] == (k, v);
                            assert(t[j] == (k, v));
                        }
                    }
                }
            }
            i = i + 1;
        }
        proof {
            assert(es.take(i as int) =~= es);
        }
    }

    /// Resolve a selector to the matching series ids, each listed once.
    pub fn select(&self, selector: &Selector) -> (out: Vec<SeriesId>)
        requires
            self.wf(),
        ensures
            distinct_ids(out@),
            id_set(out@) == self.selected(*selector),
    {
        // Every series for the metric name.
        let mut matched: Vec<SeriesId> = Vec::new();
        let mut i: usize = 0;
        while i < self.by_name.len()
            invariant
                self.wf(),
                i <= self.by_name@.len(),
                distinct_ids(matched@),
                forall|x: u64|
                    #[trigger] id_set(matched@).contains(x) <==> exists|j: int|
                        0 <= j < i && #[trigger] name_posting(self.by_name@[j]) == (
                            selector.metric@,
                            x,
                        ),
            decreases self.by_name@.len() - i,
        {
            let ghost before = matched@;
            let is_match = same_str(self.by_name[i].0.as_str(), selector.metric.as_str());
            if is_match {
                let id = self.by_name[i].1;
                proof {
                    assert forall|j: int| 0 <= j < before.len() implies before[j].0 != id.0 by {
                        let x = before[j].0;
                        assert(id_set(before).contains(x));
                        let k = choose|k: int|
                            0 <= k < i && #[trigger] name_posting(self.by_name@[k]) == (
                                selector.metric@,
                                x,
                            );
                        assert(name_posting(self.by_name@[k]) != name_posting(
                            self.by_name@[i as int],
                        ));
                    }
                }
                matched.push(id);
            }
            proof {
                if !is_match {
                    assert(self.by_name@[i as int].0@ != selector.metric@);
                    assert(matched@ == before);
                }
                assert forall|x: u64|
                    #[trigger] id_set(matched@).contains(x) <==> exists|j: int|
                        0 <= j < i + 1 && #[trigger] name_posting(self.by_name@[j]) == (
                            selector.metric@,
                            x,
                        ) by {
                    if id_set(matched@).contains(x) {
                        let j = choose|j: int| 0 <= j < matched@.len() && #[trigger] matched@[j].0 == x;
                        if j < before.len() {
                            assert(before[j].0 == x);
                            assert(id_set(before).contains(x));
                            let k = choose|k: int|
                                0 <= k < i && #[trigger] name_posting(self.by_name@[k]) == (
                                    selector.metric@,
                                    x,
                                );
                            assert(name_posting(self.by_name@[k]) == (selector.metric@, x));
                        } else {
                            assert(name_posting(self.by_name@[i as int]) == (selector.metric@, x));
                        }
                    }
                    if exists|j: int|
                        0 <= j < i + 1 && #[trigger] name_posting(self.by_name@[j]) == (
                            selector.metric@,
                            x,
                        ) {
                        let j = choose|j: int|
                            0 <= j < i + 1 && #[trigger] name_posting(self.by_name@[j]) == (
                                selector.metric@,
                                x,
                            );
                        if j < i {
                            assert(id_set(before).contains(x));
                            let k = choose|k: int|
                                0 <= k < before.len() && #[trigger] before[k].0 == x;
                            assert(matched@[k] == before[k]);
                        } else {
                            assert(matched@[before.len() as int].0 == x);
                        }
                    }
                }
            }
            i = i + 1;
        }
        proof {
            assert forall|x: u64| #[trigger]
                id_set(matched@).contains(x) == self.ids_named(selector.metric@).contains(x) by {}
        }
        // Then each matcher in turn narrows the set.
        let mut m: usize = 0;
        while m < selector.matchers.len()
            invariant
                self.wf(),
                m <= selector.matchers@.len(),
                distinct_ids(matched@),
                forall|x: u64|
                    #[trigger] id_set(matched@).contains(x) <==> (self.ids_named(
                        selector.metric@,
                    ).contains(x) && forall|j: int|
                        0 <= j < m ==> #[trigger] self.admits(selector.matchers@[j], x)),
            decreases selector.matchers@.len() - m,
        {
            let ghost before = matched@;
            let mut kept: Vec<SeriesId> = Vec::new();
            let mut t: usize = 0;
            while t < matched.len()
                invariant
                    matched@ == before,
                    m < selector.matchers@.len(),
                    t <= before.len(),
                    distinct_ids(before),
                    distinct_ids(kept@),
                    forall|x: u64|
                        #[trigger] id_set(kept@).contains(x) <==> (exists|j: int|
                            0 <= j < t && #[trigger] before[j].0 == x) && self.admits(
                            selector.matchers@[m as int],
                            x,
                        ),
                decreases before.len() - t,
            {
                let id = matched[t];
                let keep = match &selector.matchers[m] {
                    Matcher::Eq(k, v) => self.has_label_posting(k.as_str(), v.as_str(), id),
                    Matcher::Ne(k, v) => !self.has_label_posting(k.as_str(), v.as_str(), id),
                };
                let ghost kb = kept@;
                if keep {
                    proof {
                        assert forall|j: int| 0 <= j < kb.len() implies kb[j].0 != id.0 by {
                            let x = kb[j].0;
                            assert(id_set(kb).contains(x));
                            let q = choose|q: int| 0 <= q < t && #[trigger] before[q].0 == x;
                        }
                    }
                    kept.push(id);
                }
                proof {
                    assert forall|x: u64|
                        #[trigger] id_set(kept@).contains(x) <==> (exists|j: int|
                            0 <= j < t + 1 && #[trigger] before[j].0 == x) && self.admits(
                            selector.matchers@[m as int],
                            x,
                        ) by {
                        if id_set(kept@).contains(x) {
                            let j = choose|j: int| 0 <= j < kept@.len() && #[trigger] kept@[j].0 == x;
                            if j < kb.len() {
                                assert(id_set(kb).contains(x));
                            } else {
                                assert(before[t as int].0 == x);
                            }
                        }
                        if (exists|j: int| 0 <= j < t + 1 && #[trigger] before[j].0 == x)
                            && self.admits(selector.matchers@[m as int], x) {
                            let j = choose|j: int| 0 <= j < t + 1 && #[trigger] before[j].0 == x;
                            if j < t {
                                assert(id_set(kb).contains(x));
                                let q = choose|q: int| 0 <= q < kb.len() && #[trigger] kb[q].0 == x;
                                assert(kept@[q] == kb[q]);
                            } else {
                                assert(kept@[kb.len() as int].0 == x);
                            }
                        }
                    }
                }
                t = t + 1;
            }
            proof {
                assert forall|x: u64|
                    #[trigger] id_set(kept@).contains(x) <==> (self.ids_named(
                        selector.metric@,
                    ).contains(x) && forall|j: int|
                        0 <= j < m + 1 ==> #[trigger] self.admits(selector.matchers@[j], x)) by {
                    let in_before = exists|j: int| 0 <= j < before.len() && #[trigger] before[j].0 == x;
                    assert(in_before == id_set(before).contains(x));
                    if forall|j: int|
                        0 <= j < m + 1 ==> #[trigger] self.admits(selector.matchers@[j], x) {
                        assert(forall|j: int|
                            0 <= j < m ==> #[trigger] self.admits(selector.matchers@[j], x));
                    }
                    if id_set(kept@).contains(x) {
                        assert forall|j: int| 0 <= j < m + 1 implies #[trigger] self.admits(
                            selector.matchers@[j],
                            x,
                        ) by {
                            if j < m {
                            }
                        }
                    }
                }
            }
            matched = kept;
            m = m + 1;
        }
        proof {
            assert(id_set(matched@) =~= self.selected(*selector));
        }
        matched
    }
}

} // verus!
