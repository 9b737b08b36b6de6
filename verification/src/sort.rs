//! Ordering of a tree by subtree size: every directory's children are put in
//! descending order of their rolled-up totals, stably, at every level.
use crate::model::lemma_views_of_index;
use crate::model::lemma_views_of_len;
use crate::model::spec_children_count;
use crate::model::spec_children_total;
use crate::model::views_of;
use crate::model::DirEntry;
use crate::model::EntryView;
use vstd::prelude::*;

verus! {

/// Children stand in descending order of subtree total.
pub open spec fn sorted_desc(s: Seq<EntryView>) -> bool {
    forall|i: int, j: int| 0 <= i <= j < s.len() ==> s[i].total_size() >= s[j].total_size()
}

/// Every directory of the tree has its children in descending order of
/// subtree total.
pub open spec fn tree_sorted(e: EntryView) -> bool
    decreases e,
{
    &&& sorted_desc(e.children)
    &&& forall|i: int| 0 <= i < e.children.len() ==> tree_sorted(#[trigger] e.children[i])
}

/// Insert `x` into `s` directly before the first entry whose total is
/// strictly smaller, so that among equal totals the earlier arrival stays
/// first.
pub open spec fn spec_insert_desc(x: EntryView, s: Seq<EntryView>) -> Seq<EntryView>
    decreases s,
{
    if s.len() == 0 {
        seq![x]
    } else if x.total_size() > s[0].total_size() {
        seq![x] + s
    } else {
        seq![s[0]] + spec_insert_desc(x, s.drop_first())
    }
}

/// Stable descending sort of a sequence of entries by subtree total:
/// entries are inserted one by one, in their original order.
pub open spec fn spec_sort_desc(s: Seq<EntryView>) -> Seq<EntryView>
    decreases s,
{
    if s.len() == 0 {
        Seq::empty()
    } else {
        spec_insert_desc(s.last(), spec_sort_desc(s.drop_last()))
    }
}

/// Each entry of the sequence with its own subtree sorted.
pub open spec fn spec_sort_each(s: Seq<EntryView>) -> Seq<EntryView>
    decreases s,
{
    if s.len() == 0 {
        Seq::empty()
    } else {
        seq![spec_sort_tree(s[0])] + spec_sort_each(s.drop_first())
    }
}

/// The whole tree with every directory's children sorted by descending
/// subtree total, stably, at every level.
pub open spec fn spec_sort_tree(e: EntryView) -> EntryView
    decreases e,
{
    EntryView { children: spec_sort_desc(spec_sort_each(e.children)), ..e }
}

pub proof fn lemma_insert_desc_sums(x: EntryView, s: Seq<EntryView>)
    ensures
        spec_insert_desc(x, s).len() == s.len() + 1,
        spec_children_total(spec_insert_desc(x, s)) == x.total_size() + spec_children_total(s),
        spec_children_count(spec_insert_desc(x, s)) == x.item_count() + spec_children_count(s),
    decreases s,
{
    if s.len() == 0 {
        let r = seq![x];
        assert(spec_insert_desc(x, s) == r);
        assert(r.drop_first() =~= Seq::<EntryView>::empty());
        assert(r[0] == x);
        assert(spec_children_total(Seq::<EntryView>::empty()) == 0);
        assert(spec_children_count(Seq::<EntryView>::empty()) == 0);
        assert(spec_children_total(r) == x.total_size());
        assert(spec_children_count(r) == x.item_count());
    } else if x.total_size() > s[0].total_size() {
        let r = seq![x] + s;
        assert(spec_insert_desc(x, s) == r);
        assert(r.drop_first() =~= s);
        assert(r[0] == x);
        assert(spec_children_total(r) == x.total_size() + spec_children_total(s));
        assert(spec_children_count(r) == x.item_count() + spec_children_count(s));
    } else {
        lemma_insert_desc_sums(x, s.drop_first());
        let t = spec_insert_desc(x, s.drop_first());
        let r = seq![s[0]] + t;
        assert(spec_insert_desc(x, s) == r);
        assert(r.drop_first() =~= t);
        assert(r[0] == s[0]);
        assert(spec_children_total(r) == s[0].total_size() + spec_children_total(t));
        assert(spec_children_count(r) == s[0].item_count() + spec_children_count(t));
        assert(spec_children_total(s) == s[0].total_size() + spec_children_total(s.drop_first()));
        assert(spec_children_count(s) == s[0].item_count() + spec_children_count(s.drop_first()));
    }
}

/// Every entry of an insertion's result is the inserted entry or one of the
/// originals.
pub proof fn lemma_insert_desc_elems(x: EntryView, s: Seq<EntryView>)
    ensures
        forall|k: int|
            0 <= k < spec_insert_desc(x, s).len() ==> (#[trigger] spec_insert_desc(x, s)[k]) == x
                || s.contains(spec_insert_desc(x, s)[k]),
    decreases s,
{
    if s.len() == 0 {
    } else if x.total_size() > s[0].total_size() {
        assert forall|k: int| 0 <= k < spec_insert_desc(x, s).len() implies (
        #[trigger] spec_insert_desc(x, s)[k]) == x || s.contains(spec_insert_desc(x, s)[k]) by {
            if k > 0 {
                assert(spec_insert_desc(x, s)[k] == s[k - 1]);
            }
        }
    } else {
        lemma_insert_desc_elems(x, s.drop_first());
        assert forall|k: int| 0 <= k < spec_insert_desc(x, s).len() implies (
        #[trigger] spec_insert_desc(x, s)[k]) == x || s.contains(spec_insert_desc(x, s)[k]) by {
            let r = spec_insert_desc(x, s);
            if k == 0 {
                assert(r[0] == s[0]);
                assert(s.contains(s[0]));
            } else {
                let e = spec_insert_desc(x, s.drop_first())[k - 1];
                assert(r[k] == e);
                if e != x {
                    let j = choose|j: int|
                        0 <= j < s.drop_first().len() && s.drop_first()[j] == e;
                    assert(s[j + 1] == e);
                }
            }
        }
    }
}

/// Inserting into a descending sequence keeps it descending.
pub proof fn lemma_insert_desc_sorted(x: EntryView, s: Seq<EntryView>)
    requires
        sorted_desc(s),
    ensures
        sorted_desc(spec_insert_desc(x, s)),
    decreases s,
{
    if s.len() == 0 {
    } else if x.total_size() > s[0].total_size() {
        let r = seq![x] + s;
        assert forall|i: int, j: int| 0 <= i <= j < r.len() implies r[i].total_size()
            >= r[j].total_size() by {
            if i > 0 {
                assert(r[i] == s[i - 1] && r[j] == s[j - 1]);
            } else if j > 0 {
                assert(r[j] == s[j - 1]);
            }
        }
    } else {
        assert(sorted_desc(s.drop_first())) by {
            assert(forall|i: int, j: int|
                0 <= i <= j < s.drop_first().len() ==> s.drop_first()[i] == s[i + 1]
                    && s.drop_first()[j] == s[j + 1]);
        }
        lemma_insert_desc_sorted(x, s.drop_first());
        lemma_insert_desc_elems(x, s.drop_first());
        let t = spec_insert_desc(x, s.drop_first());
        let r = seq![s[0]] + t;
        assert forall|i: int, j: int| 0 <= i <= j < r.len() implies r[i].total_size()
            >= r[j].total_size() by {
            if i > 0 {
                assert(r[i] == t[i - 1] && r[j] == t[j - 1]);
            } else if j > 0 {
                assert(r[j] == t[j - 1]);
                if t[j - 1] != x {
                    let m = choose|m: int|
                        0 <= m < s.drop_first().len() && s.drop_first()[m] == t[j - 1];
                    assert(s[m + 1] == t[j - 1]);
                    assert(s[0].total_size() >= s[m + 1].total_size());
                }
            }
        }
    }
}

pub proof fn lemma_sort_desc_sums(s: Seq<EntryView>)
    ensures
        spec_sort_desc(s).len() == s.len(),
        spec_children_total(spec_sort_desc(s)) == spec_children_total(s),
        spec_children_count(spec_sort_desc(s)) == spec_children_count(s),
    decreases s,
{
    if s.len() > 0 {
        lemma_sort_desc_sums(s.drop_last());
        lemma_insert_desc_sums(s.last(), spec_sort_desc(s.drop_last()));
        crate::model::lemma_children_total_push(s.drop_last(), s.last());
        crate::model::lemma_children_count_push(s.drop_last(), s.last());
        assert(s.drop_last().push(s.last()) =~= s);
    }
}

pub proof fn lemma_sort_desc_sorted(s: Seq<EntryView>)
    ensures
        sorted_desc(spec_sort_desc(s)),
    decreases s,
{
    if s.len() > 0 {
        lemma_sort_desc_sorted(s.drop_last());
        lemma_insert_desc_sorted(s.last(), spec_sort_desc(s.drop_last()));
    }
}

/// Every entry of a sorted sequence is one of the originals.
pub proof fn lemma_sort_desc_elems(s: Seq<EntryView>)
    ensures
        forall|k: int|
            0 <= k < spec_sort_desc(s).len() ==> s.contains(#[trigger] spec_sort_desc(s)[k]),
    decreases s,
{
    if s.len() > 0 {
        lemma_sort_desc_elems(s.drop_last());
        lemma_insert_desc_elems(s.last(), spec_sort_desc(s.drop_last()));
        assert forall|k: int| 0 <= k < spec_sort_desc(s).len() implies s.contains(
        #[trigger] spec_sort_desc(s)[k]) by {
            let e = spec_sort_desc(s)[k];
            if e == s.last() {
                assert(s[s.len() - 1] == e);
            } else {
                assert(spec_sort_desc(s.drop_last()).contains(e));
                let m = choose|m: int|
                    0 <= m < spec_sort_desc(s.drop_last()).len() && spec_sort_desc(s.drop_last())[m]
                        == e;
                assert(s.drop_last().contains(spec_sort_desc(s.drop_last())[m]));
                let j = choose|j: int| 0 <= j < s.drop_last().len() && s.drop_last()[j] == e;
                assert(s[j] == e);
            }
        }
    }
}

pub proof fn lemma_sort_each_index(s: Seq<EntryView>)
    ensures
        spec_sort_each(s).len() == s.len(),
        forall|i: int|
            0 <= i < s.len() ==> #[trigger] spec_sort_each(s)[i] == spec_sort_tree(s[i]),
    decreases s,
{
    if s.len() > 0 {
        lemma_sort_each_index(s.drop_first());
        assert forall|i: int| 0 <= i < s.len() implies #[trigger] spec_sort_each(s)[i]
            == spec_sort_tree(s[i]) by {
            if i > 0 {
                assert(spec_sort_each(s)[i] == spec_sort_each(s.drop_first())[i - 1]);
                assert(s.drop_first()[i - 1] == s[i]);
            }
        }
    }
}

pub proof fn lemma_sort_each_push(s: Seq<EntryView>, x: EntryView)
    ensures
        spec_sort_each(s.push(x)) == spec_sort_each(s).push(spec_sort_tree(x)),
    decreases s,
{
    if s.len() == 0 {
        assert(s.push(x)[0] == x);
        assert(s.push(x).drop_first() =~= Seq::<EntryView>::empty());
        assert(spec_sort_each(Seq::<EntryView>::empty()) =~= Seq::<EntryView>::empty());
        assert(spec_sort_each(s.push(x)) =~= spec_sort_each(s).push(spec_sort_tree(x)));
    } else {
        assert(s.push(x).drop_first() =~= s.drop_first().push(x));
        lemma_sort_each_push(s.drop_first(), x);
        assert(s.push(x)[0] == s[0]);
        assert(spec_sort_each(s.push(x)) =~= spec_sort_each(s).push(spec_sort_tree(x)));
    }
}

/// Sorting never changes a subtree's total size or item count.
pub proof fn lemma_sort_tree_sums(e: EntryView)
    ensures
        spec_sort_tree(e).total_size() == e.total_size(),
        spec_sort_tree(e).item_count() == e.item_count(),
    decreases e,
{
    lemma_sort_each_sums(e.children);
    lemma_sort_desc_sums(spec_sort_each(e.children));
}

pub proof fn lemma_sort_each_sums(s: Seq<EntryView>)
    ensures
        spec_children_total(spec_sort_each(s)) == spec_children_total(s),
        spec_children_count(spec_sort_each(s)) == spec_children_count(s),
    decreases s,
{
    if s.len() > 0 {
        lemma_sort_tree_sums(s[0]);
        lemma_sort_each_sums(s.drop_first());
        assert(spec_sort_each(s).drop_first() =~= spec_sort_each(s.drop_first()));
        assert(spec_sort_each(s)[0] == spec_sort_tree(s[0]));
    }
}

/// Sorting keeps the aggregation invariant.
pub proof fn lemma_sort_tree_sizes_ok(e: EntryView)
    requires
        e.sizes_ok(),
    ensures
        spec_sort_tree(e).sizes_ok(),
    decreases e,
{
    lemma_sort_each_sums(e.children);
    lemma_sort_desc_sums(spec_sort_each(e.children));
    lemma_sort_each_index(e.children);
    lemma_sort_desc_elems(spec_sort_each(e.children));
    let r = spec_sort_tree(e);
    assert forall|i: int| 0 <= i < r.children.len() implies (#[trigger] r.children[i]).sizes_ok()
        by {
        assert(spec_sort_each(e.children).contains(r.children[i]));
        let m = choose|m: int|
            0 <= m < spec_sort_each(e.children).len() && spec_sort_each(e.children)[m]
                == r.children[i];
        assert(spec_sort_each(e.children)[m] == spec_sort_tree(e.children[m]));
        lemma_sort_tree_sizes_ok(e.children[m]);
    }
    if e.is_file {
        assert(r.children.len() == 0);
    }
}

/// The result of sorting is sorted, at every level.
pub proof fn lemma_sort_tree_sorted(e: EntryView)
    ensures
        tree_sorted(spec_sort_tree(e)),
    decreases e,
{
    lemma_sort_desc_sorted(spec_sort_each(e.children));
    lemma_sort_each_index(e.children);
    lemma_sort_desc_elems(spec_sort_each(e.children));
    let r = spec_sort_tree(e);
    assert forall|i: int| 0 <= i < r.children.len() implies tree_sorted(#[trigger] r.children[i])
        by {
        assert(spec_sort_each(e.children).contains(r.children[i]));
        let m = choose|m: int|
            0 <= m < spec_sort_each(e.children).len() && spec_sort_each(e.children)[m]
                == r.children[i];
        assert(spec_sort_each(e.children)[m] == spec_sort_tree(e.children[m]));
        lemma_sort_tree_sorted(e.children[m]);
    }
}


/// Inserting an entry with a fresh path keeps sibling paths distinct.
proof fn lemma_insert_desc_distinct(x: EntryView, s: Seq<EntryView>)
    requires
        forall|i: int, j: int|
            0 <= i < j < s.len() ==> (#[trigger] s[i]).path != (#[trigger] s[j]).path,
        forall|i: int| 0 <= i < s.len() ==> (#[trigger] s[i]).path != x.path,
    ensures
        forall|i: int, j: int|
            0 <= i < j < spec_insert_desc(x, s).len() ==> (#[trigger] spec_insert_desc(x, s)[i]).path
                != (#[trigger] spec_insert_desc(x, s)[j]).path,
    decreases s,
{
    let r = spec_insert_desc(x, s);
    if s.len() == 0 {
    } else if x.total_size() > s[0].total_size() {
        assert forall|i: int, j: int| 0 <= i < j < r.len() implies (#[trigger] r[i]).path != (
        #[trigger] r[j]).path by {
            if i == 0 {
                assert(r[j] == s[j - 1]);
            } else {
                assert(r[i] == s[i - 1] && r[j] == s[j - 1]);
            }
        }
    } else {
        assert(forall|i: int, j: int|
            0 <= i < j < s.drop_first().len() ==> (#[trigger] s.drop_first()[i]).path != (
            #[trigger] s.drop_first()[j]).path);
        assert(forall|i: int|
            0 <= i < s.drop_first().len() ==> (#[trigger] s.drop_first()[i]).path != x.path);
        lemma_insert_desc_distinct(x, s.drop_first());
        lemma_insert_desc_elems(x, s.drop_first());
        let t = spec_insert_desc(x, s.drop_first());
        assert forall|i: int, j: int| 0 <= i < j < r.len() implies (#[trigger] r[i]).path != (
        #[trigger] r[j]).path by {
            if i == 0 {
                assert(r[j] == t[j - 1]);
                if t[j - 1] != x {
                    assert(s.drop_first().contains(t[j - 1]));
                    let m = choose|m: int|
                        0 <= m < s.drop_first().len() && s.drop_first()[m] == t[j - 1];
                    assert(s[m + 1] == t[j - 1]);
                }
            } else {
                assert(r[i] == t[i - 1] && r[j] == t[j - 1]);
            }
        }
    }
}

/// Sorting keeps sibling paths distinct.
proof fn lemma_sort_desc_distinct(s: Seq<EntryView>)
    requires
        forall|i: int, j: int|
            0 <= i < j < s.len() ==> (#[trigger] s[i]).path != (#[trigger] s[j]).path,
    ensures
        forall|i: int, j: int|
            0 <= i < j < spec_sort_desc(s).len() ==> (#[trigger] spec_sort_desc(s)[i]).path != (
            #[trigger] spec_sort_desc(s)[j]).path,
    decreases s,
{
    if s.len() > 0 {
        let d = s.drop_last();
        assert(forall|i: int, j: int|
            0 <= i < j < d.len() ==> (#[trigger] d[i]).path != (#[trigger] d[j]).path);
        lemma_sort_desc_distinct(d);
        lemma_sort_desc_elems(d);
        assert forall|k: int| 0 <= k < spec_sort_desc(d).len() implies (
        #[trigger] spec_sort_desc(d)[k]).path != s.last().path by {
            assert(d.contains(spec_sort_desc(d)[k]));
            let m = choose|m: int| 0 <= m < d.len() && d[m] == spec_sort_desc(d)[k];
            assert(s[m] == spec_sort_desc(d)[k]);
            assert(s[m].path != s[s.len() - 1].path);
        }
        lemma_insert_desc_distinct(s.last(), spec_sort_desc(d));
    }
}

/// Sorting keeps the path invariant: every entry keeps its own path and
/// every level keeps the same set of sibling paths.
pub proof fn lemma_sort_tree_paths_wf(e: EntryView)
    requires
        e.paths_wf(),
    ensures
        spec_sort_tree(e).paths_wf(),
    decreases e,
{
    lemma_sort_each_index(e.children);
    let t = spec_sort_each(e.children);
    assert forall|i: int| 0 <= i < t.len() implies (#[trigger] t[i]).path == e.children[i].path
        && t[i].paths_wf() by {
        assert(t[i] == spec_sort_tree(e.children[i]));
        lemma_sort_tree_paths_wf(e.children[i]);
    }
    assert(forall|i: int, j: int|
        0 <= i < j < t.len() ==> (#[trigger] t[i]).path != (#[trigger] t[j]).path);
    lemma_sort_desc_distinct(t);
    lemma_sort_desc_elems(t);
    lemma_sort_desc_sums(t);
    let r = spec_sort_tree(e);
    assert forall|k: int| 0 <= k < r.children.len() implies crate::text::spec_is_path_child(
        r.path,
        (#[trigger] r.children[k]).path,
    ) && r.children[k].paths_wf() by {
        assert(t.contains(r.children[k]));
        let m = choose|m: int| 0 <= m < t.len() && t[m] == r.children[k];
        assert(t[m].path == e.children[m].path);
    }
}

/// Inserting an entry no larger than anything present appends it.
pub proof fn lemma_insert_desc_at_end(x: EntryView, s: Seq<EntryView>)
    requires
        forall|i: int| 0 <= i < s.len() ==> (#[trigger] s[i]).total_size() >= x.total_size(),
    ensures
        spec_insert_desc(x, s) == s.push(x),
    decreases s,
{
    if s.len() == 0 {
        assert(spec_insert_desc(x, s) =~= s.push(x));
    } else {
        assert(forall|i: int|
            0 <= i < s.drop_first().len() ==> (#[trigger] s.drop_first()[i]).total_size()
                >= x.total_size());
        lemma_insert_desc_at_end(x, s.drop_first());
        assert(spec_insert_desc(x, s) =~= s.push(x));
    }
}

/// Sorting a sequence already in descending order leaves it unchanged.
pub proof fn lemma_sort_desc_of_sorted(s: Seq<EntryView>)
    requires
        sorted_desc(s),
    ensures
        spec_sort_desc(s) == s,
    decreases s,
{
    if s.len() > 0 {
        assert(sorted_desc(s.drop_last())) by {
            assert(forall|i: int, j: int|
                0 <= i <= j < s.drop_last().len() ==> s.drop_last()[i] == s[i]
                    && s.drop_last()[j] == s[j]);
        }
        lemma_sort_desc_of_sorted(s.drop_last());
        assert(forall|i: int|
            0 <= i < s.drop_last().len() ==> (#[trigger] s.drop_last()[i]).total_size()
                >= s.last().total_size());
        lemma_insert_desc_at_end(s.last(), s.drop_last());
        assert(s.drop_last().push(s.last()) =~= s);
    }
}

/// Sorting a tree that is already sorted at every level leaves it unchanged:
/// re-sorting is idempotent.
pub proof fn lemma_sort_tree_of_sorted(e: EntryView)
    requires
        tree_sorted(e),
    ensures
        spec_sort_tree(e) == e,
    decreases e,
{
    lemma_sort_each_of_sorted(e.children);
    lemma_sort_desc_of_sorted(e.children);
    assert(spec_sort_tree(e) =~= e);
}

pub proof fn lemma_sort_each_of_sorted(s: Seq<EntryView>)
    requires
        forall|i: int| 0 <= i < s.len() ==> tree_sorted(#[trigger] s[i]),
    ensures
        spec_sort_each(s) == s,
    decreases s,
{
    if s.len() > 0 {
        lemma_sort_tree_of_sorted(s[0]);
        assert(forall|i: int|
            0 <= i < s.drop_first().len() ==> tree_sorted(#[trigger] s.drop_first()[i]));
        lemma_sort_each_of_sorted(s.drop_first());
        assert(spec_sort_each(s) =~= s);
    }
}

/// Sorting a second time changes nothing: one pass already leaves every
/// directory's children in descending order of total, and a sorted tree is a
/// fixed point of the sort.
pub proof fn lemma_sort_idempotent(e: EntryView)
    ensures
        tree_sorted(spec_sort_tree(e)),
        spec_sort_tree(spec_sort_tree(e)) == spec_sort_tree(e),
{
    lemma_sort_tree_sorted(e);
    lemma_sort_tree_of_sorted(spec_sort_tree(e));
}

/// Insertion before the first strictly smaller entry, written as a split of
/// the original sequence at that position.
proof fn lemma_insert_desc_split(x: EntryView, s: Seq<EntryView>, i: int)
    requires
        0 <= i <= s.len(),
        forall|j: int| 0 <= j < i ==> (#[trigger] s[j]).total_size() >= x.total_size(),
        i < s.len() ==> s[i].total_size() < x.total_size(),
    ensures
        spec_insert_desc(x, s) == s.take(i) + seq![x] + s.skip(i),
    decreases i,
{
    if i == 0 {
        if s.len() == 0 {
            assert(spec_insert_desc(x, s) =~= s.take(0) + seq![x] + s.skip(0));
        } else {
            assert(spec_insert_desc(x, s) =~= s.take(0) + seq![x] + s.skip(0));
        }
    } else {
        assert(forall|j: int|
            0 <= j < i - 1 ==> (#[trigger] s.drop_first()[j]).total_size() >= x.total_size() && s.drop_first()[j] == s[j+1]);
        assert(i - 1 < s.drop_first().len() ==> s.drop_first()[i - 1] == s[i]);
        lemma_insert_desc_split(x, s.drop_first(), i - 1);
        assert(s[0].total_size() >= x.total_size());
        assert(spec_insert_desc(x, s) == seq![s[0]] + spec_insert_desc(x, s.drop_first()));
        assert(seq![s[0]] + (s.drop_first().take(i - 1) + seq![x] + s.drop_first().skip(i - 1))
            =~= s.take(i) + seq![x] + s.skip(i));
    }
}

/// First position whose child has a subtree total strictly below `xt`, or
/// the length when there is none.
fn find_insert_pos(v: &Vec<DirEntry>, xt: u64) -> (i: usize)
    requires
        forall|i: int|
            0 <= i < v@.len() ==> (#[trigger] views_of(v@)[i]).total_size() <= u64::MAX,
    ensures
        i <= v@.len(),
        forall|j: int| 0 <= j < i ==> (#[trigger] views_of(v@)[j]).total_size() >= xt as int,
        i < v@.len() ==> views_of(v@)[i as int].total_size() < xt as int,
{
    let ghost vs = views_of(v@);
    proof {
        lemma_views_of_len(v@);
    }
    let mut i: usize = 0;
    while i < v.len()
        invariant
            i <= v@.len(),
            vs == views_of(v@),
            vs.len() == v@.len(),
            forall|i: int| 0 <= i < vs.len() ==> (#[trigger] vs[i]).total_size() <= u64::MAX,
            forall|j: int| 0 <= j < i ==> (#[trigger] vs[j]).total_size() >= xt as int,
        decreases v@.len() - i,
    {
        proof {
            lemma_views_of_index(v@, i as int);
            crate::model::lemma_total_nonneg(vs[i as int]);
        }
        let ct = v[i].total_size();
        if ct < xt {
            return i;
        }
        i = i + 1;
    }
    i
}

/// Insert one already-sorted child into the vector, before the first child
/// whose subtree total is strictly smaller.
fn insert_child_desc(v: &mut Vec<DirEntry>, x: DirEntry)
    requires
        x@.total_size() <= u64::MAX,
        forall|i: int|
            0 <= i < old(v)@.len() ==> (#[trigger] views_of(old(v)@)[i]).total_size() <= u64::MAX,
    ensures
        views_of(final(v)@) == spec_insert_desc(x@, views_of(old(v)@)),
{
    let ghost vs = views_of(old(v)@);
    proof {
        lemma_views_of_len(old(v)@);
        crate::model::lemma_total_nonneg(x@);
    }
    let xt = x.total_size();
    let i = find_insert_pos(v, xt);
    proof {
        lemma_insert_desc_split(x@, vs, i as int);
    }
    v.insert(i, x);
    proof {
        lemma_views_of_len(v@);
        assert forall|k: int| 0 <= k < views_of(v@).len() implies views_of(v@)[k] == (vs.take(
            i as int,
        ) + seq![x@] + vs.skip(i as int))[k] by {
            lemma_views_of_index(v@, k);
            if k < i as int {
                lemma_views_of_index(old(v)@, k);
                assert(v@[k] == old(v)@[k]);
            } else if k > i as int {
                lemma_views_of_index(old(v)@, k - 1);
                assert(v@[k] == old(v)@[k - 1]);
            } else {
                assert(v@[k] == x);
            }
        }
        assert(views_of(v@) =~= vs.take(i as int) + seq![x@] + vs.skip(i as int));
    }
}

/// The tree with every directory's children sorted, built by taking the
/// entry apart and re-inserting each recursively sorted child in order.
#[verifier::loop_isolation(false)]
fn sorted_tree_exec(e: DirEntry) -> (r: DirEntry)
    requires
        e@.sizes_ok(),
    ensures
        r@ == spec_sort_tree(e@),
    decreases e,
{
    let ghost orig = e;
    let ghost vs = orig@.children;
    let mut e = e;
    let mut rest: Vec<DirEntry> = Vec::new();
    core::mem::swap(&mut e.children, &mut rest);
    let mut sorted: Vec<DirEntry> = Vec::new();
    let ghost mut k: int = 0;
    proof {
        lemma_views_of_len(orig.children@);
        assert(vs.take(0) =~= Seq::<EntryView>::empty());
        assert(views_of(sorted@) =~= Seq::<EntryView>::empty());
        assert(spec_sort_each(Seq::<EntryView>::empty()) =~= Seq::<EntryView>::empty());
        assert(spec_sort_desc(Seq::<EntryView>::empty()) =~= Seq::<EntryView>::empty());
        assert(rest@ =~= orig.children@.skip(0));
    }
    while rest.len() > 0
        invariant
            0 <= k <= orig.children@.len(),
            e.path == orig.path,
            e.name == orig.name,
            e.size == orig.size,
            e.file_type == orig.file_type,
            e.is_file == orig.is_file,
            orig@.sizes_ok(),
            vs == orig@.children,
            vs == views_of(orig.children@),
            vs.len() == orig.children@.len(),
            rest@ == orig.children@.skip(k),
            views_of(sorted@) == spec_sort_desc(spec_sort_each(vs.take(k))),
            forall|i: int|
                0 <= i < views_of(sorted@).len() ==> (#[trigger] views_of(sorted@)[i]).sizes_ok(),
        decreases rest@.len(),
    {
        proof {
            lemma_views_of_len(rest@);
            lemma_views_of_index(orig.children@, k);
            assert(rest@[0] == orig.children@[k]);
        }
        let c = rest.remove(0);
        proof {
            assert(c == orig.children@[k]);
            assert(c@ == vs[k]);
            assert(vs[k].sizes_ok());
            assert(decreases_to!(orig => orig.children));
            vstd::std_specs::vec::axiom_vec_decreases_to_view::<DirEntry>(orig.children);
            vstd::seq::axiom_seq_index_decreases::<DirEntry>(orig.children@, k);
            assert(decreases_to!(orig.children@ => orig.children@[k]));
            assert(decreases_to!(orig => c));
        }
        let c = sorted_tree_exec(c);
        proof {
            lemma_sort_tree_sizes_ok(vs[k]);
            lemma_sort_tree_sums(vs[k]);
            assert(c@.total_size() == vs[k].total_size());
            assert(c@.total_size() == c@.size as int);
            lemma_views_of_len(sorted@);
        }
        let ghost prev = views_of(sorted@);
        insert_child_desc(&mut sorted, c);
        proof {
            lemma_insert_desc_sums(c@, prev);
            lemma_sort_each_push(vs.take(k), vs[k]);
            assert(vs.take(k + 1) =~= vs.take(k).push(vs[k]));
            let t = spec_sort_each(vs.take(k + 1));
            assert(t == spec_sort_each(vs.take(k)).push(spec_sort_tree(vs[k])));
            assert(t.drop_last() =~= spec_sort_each(vs.take(k)));
            assert(t.last() == spec_sort_tree(vs[k]));
            assert(views_of(sorted@) == spec_sort_desc(t));
            lemma_insert_desc_elems(c@, spec_sort_desc(spec_sort_each(vs.take(k))));
            lemma_views_of_len(sorted@);
            assert forall|i: int| 0 <= i < views_of(sorted@).len() implies (
            #[trigger] views_of(sorted@)[i]).sizes_ok() by {
                let x = views_of(sorted@)[i];
                if x != c@ {
                    assert(spec_sort_desc(spec_sort_each(vs.take(k))).contains(x));
                }
            }
            assert(rest@ =~= orig.children@.skip(k + 1));
            k = k + 1;
        }
    }
    proof {
        assert(vs.take(vs.len() as int) =~= vs);
        assert(rest@.len() == 0);
    }
    e.children = sorted;
    proof {
        assert(e@ =~= spec_sort_tree(orig@));
    }
    e
}

impl DirEntry {
    /// Sort children by size (largest first), stably and recursively.
    pub fn sort_by_size(&mut self)
        requires
            old(self)@.sizes_ok(),
        ensures
            final(self)@ == spec_sort_tree(old(self)@),
    {
        let mut taken = DirEntry {
            path: String::new(),
            name: String::new(),
            size: 0,
            file_type: crate::model::FileType::Directory,
            children: Vec::new(),
            is_file: false,
        };
        core::mem::swap(self, &mut taken);
        let mut sorted = sorted_tree_exec(taken);
        core::mem::swap(self, &mut sorted);
    }
}

} // verus!
