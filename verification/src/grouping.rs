//! Grouping for aggregations: the label set each sample is grouped under,
//! and the groups themselves, in order of first appearance.

use vstd::prelude::*;
use crate::ast::{Grouping, GroupingV, strings_view};
use crate::labels::{Entry, Labels, entries_view, entry_view, map_of, same_str, sorted, lemma_map_of_dom, lemma_sorted_canonical};

verus! {

/// The labels a sample with labels `m` is grouped under: none without a
/// clause, only the listed keys with `by`, all but them with `without`.
pub open spec fn group_key(m: Map<Seq<char>, Seq<char>>, g: GroupingV) -> Map<Seq<char>, Seq<char>> {
    match g {
        GroupingV::Ungrouped => Map::empty(),
        GroupingV::By(keys) => m.restrict(keys.to_set()),
        GroupingV::Without(keys) => m.remove_keys(keys.to_set()),
    }
}

/// Appending an entry with a new key inserts it into the map.
proof fn lemma_map_of_push(a: Seq<Entry>, e: Entry)
    requires
        forall|j: int| 0 <= j < a.len() ==> #[trigger] a[j].0 != e.0,
    ensures
        map_of(a.push(e)) == map_of(a).insert(e.0, e.1),
    decreases a.len(),
{
    if a.len() == 0 {
        assert(a.push(e).drop_first() =~= Seq::<Entry>::empty());
        assert(a.push(e)[0] == e);
        assert(map_of(Seq::<Entry>::empty()) == Map::<Seq<char>, Seq<char>>::empty());
        assert(map_of(a.push(e)) =~= map_of(a).insert(e.0, e.1));
    } else {
        let r = a.drop_first();
        assert forall|j: int| 0 <= j < r.len() implies #[trigger] r[j].0 != e.0 by {
            assert(r[j] == a[j + 1]);
        }
        lemma_map_of_push(r, e);
        assert(a.push(e).drop_first() =~= r.push(e));
        assert(a.push(e)[0] == a[0]);
        assert(a[0].0 != e.0);
        assert(map_of(a.push(e)) =~= map_of(a).insert(e.0, e.1));
    }
}

/// Whether `key` is one of `keys`.
fn lists(keys: &Vec<String>, key: &str) -> (b: bool)
    ensures
        b == strings_view(keys@).contains(key@),
{
    let mut i: usize = 0;
    while i < keys.len()
        invariant
            i <= keys@.len(),
            forall|j: int| 0 <= j < i ==> keys@[j]@ != key@,
        decreases keys@.len() - i,
    {
        if same_str(keys[i].as_str(), key) {
            assert(strings_view(keys@)[i as int] == key@);
            return true;
        }
        i = i + 1;
    }
    proof {
        if strings_view(keys@).contains(key@) {
            let j = choose|j: int| 0 <= j < strings_view(keys@).len() && strings_view(keys@)[j] == key@;
            assert(keys@[j]@ == key@);
        }
    }
    false
}

/// The labels a sample is grouped under.
pub fn grouped_labels(labels: &Labels, grouping: &Grouping) -> (out: Labels)
    ensures
        out@ == group_key(labels@, grouping@),
{
    labels.entries_sorted();
    let entries = labels.iter();
    let ghost s = labels.entries();
    let ghost g = grouping@;
    let mut out = Labels::new();
    let mut i: usize = 0;
    proof {
        assert(s.take(0) =~= Seq::<Entry>::empty());
        assert(group_key(map_of(s.take(0)), g) =~= Map::<Seq<char>, Seq<char>>::empty());
    }
    while i < entries.len()
        invariant
            entries_view(entries@) == s,
            sorted(s),
            g == grouping@,
            i <= entries@.len(),
            out@ == group_key(map_of(s.take(i as int)), g),
        decreases entries@.len() - i,
    {
        let (key, value) = (&entries[i].0, &entries[i].1);
        let keep = match grouping {
            Grouping::Ungrouped => false,
            Grouping::By(keys) => lists(keys, key.as_str()),
            Grouping::Without(keys) => !lists(keys, key.as_str()),
        };
        let ghost before = out@;
        if keep {
            out.insert(key.as_str(), value.as_str());
        }
        proof {
            assert(s[i as int] == entry_view(entries@[i as int]));
            let e = s[i as int];
            assert(s.take(i + 1) =~= s.take(i as int).push(e));
            assert forall|j: int| 0 <= j < s.take(i as int).len() implies #[trigger] s.take(
                i as int,
            )[j].0 != e.0 by {
                crate::labels::lemma_sorted_global(s, j, i as int);
                crate::labels::lemma_key_order(s[j].0, e.0, e.0);
            }
            lemma_map_of_push(s.take(i as int), e);
            let m = map_of(s.take(i as int));
            match g {
                GroupingV::Ungrouped => {
                    assert(out@ =~= group_key(m.insert(e.0, e.1), g));
                },
                GroupingV::By(keys) => {
                    assert(keys.to_set().contains(e.0) == keys.contains(e.0));
                    assert(out@ =~= group_key(m.insert(e.0, e.1), g));
                },
                GroupingV::Without(keys) => {
                    assert(keys.to_set().contains(e.0) == keys.contains(e.0));
                    assert(out@ =~= group_key(m.insert(e.0, e.1), g));
                },
            }
        }
        i = i + 1;
    }
    assert(s.take(i as int) =~= s);
    out
}

impl Labels {
    /// Whether two label sets hold the same labels.
    pub fn same(&self, other: &Labels) -> (b: bool)
        ensures
            b == (self@ == other@),
    {
        self.entries_sorted();
        other.entries_sorted();
        let a = self.iter();
        let b = other.iter();
        proof {
            lemma_map_of_dom(self.entries());
            lemma_map_of_dom(other.entries());
            if self@ == other@ {
                lemma_sorted_canonical(self.entries(), other.entries());
            }
        }
        if a.len() != b.len() {
            return false;
        }
        let mut i: usize = 0;
        while i < a.len()
            invariant
                entries_view(a@) == self.entries(),
                entries_view(b@) == other.entries(),
                a@.len() == b@.len(),
                self@ == other@ ==> self.entries() == other.entries(),
                i <= a@.len(),
                forall|j: int| 0 <= j < i ==> #[trigger] self.entries()[j] == other.entries()[j],
            decreases a@.len() - i,
        {
            assert(self.entries()[i as int] == entry_view(a@[i as int]));
            assert(other.entries()[i as int] == entry_view(b@[i as int]));
            if !same_str(a[i].0.as_str(), b[i].0.as_str()) || !same_str(
                a[i].1.as_str(),
                b[i].1.as_str(),
            ) {
                return false;
            }
            i = i + 1;
        }
        assert(self.entries() =~= other.entries());
        true
    }
}

// ---------------------------------------------------------------------------
// Groups.
// ---------------------------------------------------------------------------

/// The distinct keys of `ks`, in order of first appearance.
pub open spec fn first_keys(ks: Seq<Map<Seq<char>, Seq<char>>>) -> Seq<Map<Seq<char>, Seq<char>>>
    decreases ks.len(),
{
    if ks.len() == 0 {
        Seq::empty()
    } else if first_keys(ks.drop_last()).contains(ks.last()) {
        first_keys(ks.drop_last())
    } else {
        first_keys(ks.drop_last()).push(ks.last())
    }
}

/// The positions in `ks` holding the key `k`, in order.
pub open spec fn members(ks: Seq<Map<Seq<char>, Seq<char>>>, k: Map<Seq<char>, Seq<char>>) -> Seq<usize>
    decreases ks.len(),
{
    if ks.len() == 0 {
        Seq::empty()
    } else if ks.last() == k {
        members(ks.drop_last(), k).push((ks.len() - 1) as usize)
    } else {
        members(ks.drop_last(), k)
    }
}

/// The label maps of a list of label sets.
pub open spec fn labels_views(v: Seq<Labels>) -> Seq<Map<Seq<char>, Seq<char>>> {
    v.map_values(|l: Labels| l@)
}

proof fn lemma_first_keys_distinct(ks: Seq<Map<Seq<char>, Seq<char>>>)
    ensures
        forall|i: int, j: int|
            0 <= i < j < first_keys(ks).len() ==> first_keys(ks)[i] != first_keys(ks)[j],
    decreases ks.len(),
{
    if ks.len() > 0 {
        let p = first_keys(ks.drop_last());
        lemma_first_keys_distinct(ks.drop_last());
        if !p.contains(ks.last()) {
            assert forall|i: int, j: int|
                0 <= i < j < first_keys(ks).len() implies first_keys(ks)[i] != first_keys(ks)[j] by {
                if j == p.len() {
                    assert(p[i] != ks.last());
                }
            }
        }
    }
}

/// Group the samples whose grouping keys are `keys`: one group per distinct
/// key, in order of first appearance, each listing its samples' positions
/// in order.
pub fn group_positions(keys: &Vec<Labels>) -> (groups: Vec<Vec<usize>>)
    ensures
        groups@.len() == first_keys(labels_views(keys@)).len(),
        forall|g: int|
            0 <= g < groups@.len() ==> (#[trigger] groups@[g])@ == members(
                labels_views(keys@),
                first_keys(labels_views(keys@))[g],
            ),
{
    let ghost ks = labels_views(keys@);
    let mut groups: Vec<Vec<usize>> = Vec::new();
    let mut i: usize = 0;
    assert(ks.take(0) =~= Seq::<Map<Seq<char>, Seq<char>>>::empty());
    while i < keys.len()
        invariant
            ks == labels_views(keys@),
            i <= keys@.len(),
            groups@.len() == first_keys(ks.take(i as int)).len(),
            forall|g: int|
                0 <= g < groups@.len() ==> (#[trigger] groups@[g])@ == members(
                    ks.take(i as int),
                    first_keys(ks.take(i as int))[g],
                ),
            forall|g: int|
                0 <= g < groups@.len() ==> (#[trigger] groups@[g])@.len() > 0 && groups@[g]@[0] < i
                    && ks[groups@[g]@[0] as int] == first_keys(ks.take(i as int))[g],
        decreases keys@.len() - i,
    {
        let ghost pre = ks.take(i as int);
        let ghost post = ks.take(i + 1);
        let ghost k = ks[i as int];
        proof {
            assert(post.drop_last() =~= pre);
            assert(post.last() == k);
            assert(k == keys@[i as int]@);
            lemma_first_keys_distinct(pre);
        }
        // Find the group of this key, if it has one.
        let mut g: usize = 0;
        let mut found = false;
        loop
            invariant_except_break
                ks == labels_views(keys@),
                i < keys@.len(),
                k == ks[i as int],
                g <= groups@.len(),
                groups@.len() == first_keys(pre).len(),
                !found,
                forall|h: int|
                    0 <= h < groups@.len() ==> (#[trigger] groups@[h])@.len() > 0 && groups@[h]@[0] < i
                        && ks[groups@[h]@[0] as int] == first_keys(pre)[h],
                forall|h: int| 0 <= h < g ==> first_keys(pre)[h] != k,
            ensures
                g <= groups@.len(),
                found ==> g < groups@.len() && first_keys(pre)[g as int] == k,
                !found ==> g == groups@.len() && forall|h: int|
                    0 <= h < groups@.len() ==> first_keys(pre)[h] != k,
            decreases groups@.len() - g,
        {
            if g >= groups.len() {
                break;
            }
            let first = groups[g][0];
            assert(ks[first as int] == keys@[first as int]@);
            if keys[first].same(&keys[i]) {
                found = true;
                break;
            }
            g = g + 1;
        }
        let ghost old_groups = groups@;
        if found {
            let mut members_g = groups.remove(g);
            members_g.push(i);
            groups.insert(g, members_g);
            proof {
                assert(first_keys(pre)[g as int] == k);
                assert(pre.contains(k)) by {
                    let f = old_groups[g as int]@[0] as int;
                    assert(pre[f] == k);
                }
                assert(first_keys(pre).contains(k)) by {
                    assert(first_keys(pre)[g as int] == k);
                }
                assert(first_keys(post) == first_keys(pre));
                assert forall|h: int| 0 <= h < groups@.len() implies (#[trigger] groups@[h])@
                    == members(post, first_keys(post)[h]) by {
                    if h == g {
                        assert(groups@[h]@ =~= old_groups[h]@.push(i));
                    } else {
                        assert(groups@[h] == old_groups[h]);
                        assert(first_keys(pre)[h] != first_keys(pre)[g as int]);
                    }
                }
                assert forall|h: int| 0 <= h < groups@.len() implies (#[trigger] groups@[h])@.len() > 0
                    && groups@[h]@[0] < i + 1 && ks[groups@[h]@[0] as int] == first_keys(post)[h] by {
                    if h != g {
                        assert(groups@[h] == old_groups[h]);
                    } else {
                        assert(groups@[h]@[0] == old_groups[h]@[0]);
                    }
                }
            }
        } else {
            let mut fresh: Vec<usize> = Vec::new();
            fresh.push(i);
            groups.push(fresh);
            proof {
                assert(!first_keys(pre).contains(k)) by {
                    if first_keys(pre).contains(k) {
                        let h = choose|h: int| 0 <= h < first_keys(pre).len() && first_keys(pre)[h] == k;
                        assert(first_keys(pre)[h] != k);
                    }
                }
                assert(first_keys(post) == first_keys(pre).push(k));
                lemma_members_absent(pre, k);
                assert forall|h: int| 0 <= h < groups@.len() implies (#[trigger] groups@[h])@
                    == members(post, first_keys(post)[h]) by {
                    if h == old_groups.len() {
                        assert(groups@[h]@ =~= seq![i]);
                        assert(members(pre, k) =~= Seq::<usize>::empty());
                    } else {
                        assert(groups@[h] == old_groups[h]);
                        assert(first_keys(pre)[h] != k);
                    }
                }
                assert forall|h: int| 0 <= h < groups@.len() implies (#[trigger] groups@[h])@.len() > 0
                    && groups@[h]@[0] < i + 1 && ks[groups@[h]@[0] as int] == first_keys(post)[h] by {
                    if h < old_groups.len() {
                        assert(groups@[h] == old_groups[h]);
                    }
                }
            }
        }
        i = i + 1;
    }
    assert(ks.take(i as int) =~= ks);
    groups
}

/// A key not yet among the first keys has no members.
proof fn lemma_members_absent(ks: Seq<Map<Seq<char>, Seq<char>>>, k: Map<Seq<char>, Seq<char>>)
    requires
        !first_keys(ks).contains(k),
    ensures
        members(ks, k).len() == 0,
    decreases ks.len(),
{
    if ks.len() > 0 {
        let p = first_keys(ks.drop_last());
        if p.contains(k) {
            let h = choose|h: int| 0 <= h < p.len() && p[h] == k;
            assert(first_keys(ks)[h] == k);
        } else {
            if ks.last() == k {
                assert(first_keys(ks).last() == k);
                assert(first_keys(ks).contains(k));
            }
            lemma_members_absent(ks.drop_last(), k);
        }
    }
}

} // verus!
