//! Targeted removal: prune one entry from the tree by path and recompute
//! every stale ancestor's size before returning.
use crate::model::lemma_child_total_le;
use crate::model::lemma_children_total_concat;
use crate::model::lemma_children_total_nonneg;
use crate::model::lemma_children_total_push;
use crate::model::lemma_children_total_split;
use crate::model::lemma_total_nonneg;
use crate::model::lemma_views_of_index;
use crate::model::lemma_views_of_len;
use crate::model::lemma_views_of_push;
use crate::model::spec_children_total;
use crate::model::views_of;
use crate::model::DirEntry;
use crate::model::EntryView;
use vstd::prelude::*;

verus! {

/// Index of the first child whose own path is `t`, or -1 when none matches.
pub open spec fn spec_first_child_match(s: Seq<EntryView>, t: Seq<char>) -> int
    decreases s,
{
    if s.len() == 0 {
        -1
    } else if s[0].path == t {
        0
    } else if spec_first_child_match(s.drop_first(), t) == -1 {
        -1
    } else {
        1 + spec_first_child_match(s.drop_first(), t)
    }
}

pub proof fn lemma_first_child_match_bounds(s: Seq<EntryView>, t: Seq<char>)
    ensures
        -1 <= spec_first_child_match(s, t) < s.len(),
        spec_first_child_match(s, t) >= 0 ==> s[spec_first_child_match(s, t)].path == t,
        forall|j: int|
            0 <= j < s.len() && (spec_first_child_match(s, t) == -1 || j < spec_first_child_match(
                s,
                t,
            )) ==> s[j].path != t,
    decreases s,
{
    if s.len() > 0 && s[0].path != t {
        lemma_first_child_match_bounds(s.drop_first(), t);
        assert forall|j: int|
            0 <= j < s.len() && (spec_first_child_match(s, t) == -1 || j < spec_first_child_match(
                s,
                t,
            )) implies s[j].path != t by {
            if j > 0 {
                assert(s.drop_first()[j - 1] == s[j]);
            }
        }
    }
}

/// The tree after removing the entry with path `t`, paired with whether
/// anything was removed. The search is depth first; at the first node one of
/// whose children carries the path, that child is deleted whole, the descent
/// stops, and each ancestor's size is recomputed from what is left.
pub open spec fn spec_remove(e: EntryView, t: Seq<char>) -> (EntryView, bool)
    decreases e,
{
    let i = spec_first_child_match(e.children, t);
    if i >= 0 {
        let cs = e.children.remove(i);
        (
            EntryView {
                size: if e.is_file {
                    e.size
                } else {
                    spec_children_total(cs) as u64
                },
                children: cs,
                ..e
            },
            true,
        )
    } else {
        let (cs, found) = spec_remove_children(e.children, t);
        if found {
            (
                EntryView {
                    size: if e.is_file {
                        e.size
                    } else {
                        spec_children_total(cs) as u64
                    },
                    children: cs,
                    ..e
                },
                true,
            )
        } else {
            (e, false)
        }
    }
}

/// The children after trying the removal on each in order, stopping at the
/// first subtree where it succeeds.
pub open spec fn spec_remove_children(s: Seq<EntryView>, t: Seq<char>) -> (Seq<EntryView>, bool)
    decreases s,
{
    if s.len() == 0 {
        (s, false)
    } else {
        let (c0, f0) = spec_remove(s[0], t);
        if f0 {
            (seq![c0] + s.drop_first(), true)
        } else {
            let (rest, f) = spec_remove_children(s.drop_first(), t);
            (seq![s[0]] + rest, f)
        }
    }
}

/// A removal that found nothing is a no-op.
pub proof fn lemma_remove_unfound_id(e: EntryView, t: Seq<char>)
    requires
        !spec_remove(e, t).1,
    ensures
        spec_remove(e, t).0 == e,
{
}

/// When nothing in the children matched, the children come back unchanged.
pub proof fn lemma_remove_children_unfound_id(s: Seq<EntryView>, t: Seq<char>)
    requires
        !spec_remove_children(s, t).1,
    ensures
        spec_remove_children(s, t).0 == s,
    decreases s,
{
    if s.len() > 0 {
        lemma_remove_children_unfound_id(s.drop_first(), t);
        assert(spec_remove_children(s, t).0 =~= s);
    }
}


/// A depth-first search over children succeeds exactly when some child's
/// subtree holds the path.
pub proof fn lemma_find_children_some_iff(s: Seq<EntryView>, t: Seq<char>)
    ensures
        (crate::model::spec_find_children(s, t) is Some) <==> exists|i: int|
            0 <= i < s.len() && (#[trigger] s[i]).find(t) is Some,
    decreases s,
{
    if s.len() > 0 {
        lemma_find_children_some_iff(s.drop_first(), t);
        if s[0].find(t) is Some {
        } else if crate::model::spec_find_children(s.drop_first(), t) is Some {
            let j = choose|j: int|
                0 <= j < s.drop_first().len() && (#[trigger] s.drop_first()[j]).find(t) is Some;
            assert(s[j + 1].find(t) is Some);
        } else {
            assert forall|i: int| 0 <= i < s.len() implies !((#[trigger] s[i]).find(t) is Some)
                by {
                if i > 0 {
                    assert(s.drop_first()[i - 1] == s[i]);
                }
            }
        }
    }
}

/// The removal walk over children succeeds exactly when it succeeds on one
/// of them.
pub proof fn lemma_remove_children_any(s: Seq<EntryView>, t: Seq<char>)
    ensures
        spec_remove_children(s, t).1 <==> exists|i: int|
            0 <= i < s.len() && (#[trigger] spec_remove(s[i], t)).1,
    decreases s,
{
    if s.len() > 0 {
        lemma_remove_children_any(s.drop_first(), t);
        if spec_remove(s[0], t).1 {
        } else if spec_remove_children(s.drop_first(), t).1 {
            let j = choose|j: int|
                0 <= j < s.drop_first().len() && (#[trigger] spec_remove(
                    s.drop_first()[j],
                    t,
                )).1;
            assert(spec_remove(s[j + 1], t).1);
        } else {
            assert forall|i: int| 0 <= i < s.len() implies !(#[trigger] spec_remove(s[i], t)).1
                by {
                if i > 0 {
                    assert(s.drop_first()[i - 1] == s[i]);
                }
            }
        }
    }
}

/// Removal finds its target exactly when the target lies strictly inside
/// the tree: somewhere below the node the removal starts from.
pub proof fn lemma_remove_found_iff(e: EntryView, t: Seq<char>)
    ensures
        spec_remove(e, t).1 <==> (crate::model::spec_find_children(e.children, t) is Some),
    decreases e,
{
    lemma_first_child_match_bounds(e.children, t);
    lemma_remove_children_any(e.children, t);
    lemma_find_children_some_iff(e.children, t);
    let i = spec_first_child_match(e.children, t);
    if i >= 0 {
        assert(e.children[i].find(t) is Some);
    } else {
        assert forall|j: int| 0 <= j < e.children.len() implies ((#[trigger] e.children[j]).find(
            t,
        ) is Some) == (spec_remove(e.children[j], t)).1 by {
            lemma_remove_found_iff(e.children[j], t);
            lemma_first_child_match_bounds(e.children[j].children, t);
            assert(e.children[j].path != t);
        }
    }
}


/// Removal keeps the node's own path.
pub proof fn lemma_remove_keeps_path(e: EntryView, t: Seq<char>)
    ensures
        spec_remove(e, t).0.path == e.path,
{
}

/// Removal keeps the path invariant: surviving entries keep their paths,
/// so the hierarchy and the distinctness of siblings survive any deletion.
pub proof fn lemma_remove_paths_wf(e: EntryView, t: Seq<char>)
    requires
        e.paths_wf(),
    ensures
        spec_remove(e, t).0.paths_wf(),
    decreases e,
{
    let i = spec_first_child_match(e.children, t);
    let r = spec_remove(e, t).0;
    if i >= 0 {
        lemma_first_child_match_bounds(e.children, t);
        let cs = e.children.remove(i);
        assert forall|k: int| 0 <= k < cs.len() implies crate::text::spec_is_path_child(
            r.path,
            (#[trigger] cs[k]).path,
        ) && cs[k].paths_wf() by {
            if k < i {
                assert(cs[k] == e.children[k]);
            } else {
                assert(cs[k] == e.children[k + 1]);
            }
        }
        assert forall|k: int, l: int| 0 <= k < l < cs.len() implies (#[trigger] cs[k]).path != (
        #[trigger] cs[l]).path by {
            if l < i {
                assert(cs[k] == e.children[k] && cs[l] == e.children[l]);
            } else if k < i {
                assert(cs[k] == e.children[k] && cs[l] == e.children[l + 1]);
            } else {
                assert(cs[k] == e.children[k + 1] && cs[l] == e.children[l + 1]);
            }
        }
    } else {
        let (cs, found) = spec_remove_children(e.children, t);
        if found {
            lemma_remove_children_paths(e.children, t);
            assert(forall|k: int|
                0 <= k < cs.len() ==> (#[trigger] cs[k]).path == e.children[k].path);
        } else {
        }
    }
}

/// The removal walk leaves every child at its place with its own path, and
/// each one still carries the path invariant.
proof fn lemma_remove_children_paths(s: Seq<EntryView>, t: Seq<char>)
    requires
        forall|i: int| 0 <= i < s.len() ==> (#[trigger] s[i]).paths_wf(),
    ensures
        spec_remove_children(s, t).0.len() == s.len(),
        forall|i: int|
            0 <= i < s.len() ==> (#[trigger] spec_remove_children(s, t).0[i]).path == s[i].path,
        forall|i: int|
            0 <= i < s.len() ==> (#[trigger] spec_remove_children(s, t).0[i]).paths_wf(),
    decreases s,
{
    if s.len() > 0 {
        let (c0, f0) = spec_remove(s[0], t);
        assert(s[0].paths_wf());
        let r = spec_remove_children(s, t).0;
        if f0 {
            lemma_remove_keeps_path(s[0], t);
            lemma_remove_paths_wf(s[0], t);
            assert forall|i: int| 0 <= i < s.len() implies (#[trigger] r[i]).path == s[i].path
                && r[i].paths_wf() by {
                if i > 0 {
                    assert(r[i] == s[i]);
                }
            }
        } else {
            assert(forall|i: int|
                0 <= i < s.drop_first().len() ==> (#[trigger] s.drop_first()[i]) == s[i + 1]);
            lemma_remove_children_paths(s.drop_first(), t);
            let rest = spec_remove_children(s.drop_first(), t).0;
            assert forall|i: int| 0 <= i < s.len() implies (#[trigger] r[i]).path == s[i].path
                && r[i].paths_wf() by {
                if i > 0 {
                    assert(r[i] == rest[i - 1]);
                    assert(rest[i - 1].path == s.drop_first()[i - 1].path);
                }
            }
        }
    }
}

/// Removal never increases a subtree's total, and the new total stays a
/// representable size.
pub proof fn lemma_remove_total_le(e: EntryView, t: Seq<char>)
    requires
        e.sizes_ok(),
    ensures
        0 <= spec_remove(e, t).0.total_size() <= e.total_size(),
    decreases e,
{
    let i = spec_first_child_match(e.children, t);
    if i >= 0 {
        lemma_first_child_match_bounds(e.children, t);
        let cs = e.children.remove(i);
        assert(cs =~= e.children.take(i) + e.children.skip(i + 1));
        lemma_children_total_concat(e.children.take(i), e.children.skip(i + 1));
        lemma_children_total_split(e.children, i);
        assert(e.children.skip(i).drop_first() =~= e.children.skip(i + 1));
        assert(spec_children_total(e.children.skip(i)) == e.children[i].total_size()
            + spec_children_total(e.children.skip(i + 1)));
        lemma_total_nonneg(e.children[i]);
        lemma_children_total_nonneg(cs);
        if e.is_file {
        } else {
            assert(spec_children_total(cs) <= spec_children_total(e.children));
        }
    } else {
        let (cs, found) = spec_remove_children(e.children, t);
        if found {
            lemma_remove_children_total_le(e.children, t);
            lemma_children_total_nonneg(cs);
        } else {
            lemma_total_nonneg(e);
        }
    }
}

pub proof fn lemma_remove_children_total_le(s: Seq<EntryView>, t: Seq<char>)
    requires
        forall|i: int| 0 <= i < s.len() ==> (#[trigger] s[i]).sizes_ok(),
    ensures
        0 <= spec_children_total(spec_remove_children(s, t).0) <= spec_children_total(s),
    decreases s,
{
    lemma_children_total_nonneg(spec_remove_children(s, t).0);
    if s.len() > 0 {
        let (c0, f0) = spec_remove(s[0], t);
        assert(s[0].sizes_ok());
        if f0 {
            lemma_remove_total_le(s[0], t);
            let r = seq![c0] + s.drop_first();
            assert(r.drop_first() =~= s.drop_first());
            assert(r[0] == c0);
        } else {
            assert(forall|i: int|
                0 <= i < s.drop_first().len() ==> (#[trigger] s.drop_first()[i]) == s[i + 1]);
            lemma_remove_children_total_le(s.drop_first(), t);
            let (rest, _f) = spec_remove_children(s.drop_first(), t);
            let r = seq![s[0]] + rest;
            assert(r.drop_first() =~= rest);
            assert(r[0] == s[0]);
        }
    }
}

/// Removal keeps the aggregation invariant: every ancestor of the removed
/// entry has its size recomputed, and nothing else changes.
pub proof fn lemma_remove_sizes_ok(e: EntryView, t: Seq<char>)
    requires
        e.sizes_ok(),
    ensures
        spec_remove(e, t).0.sizes_ok(),
    decreases e,
{
    let i = spec_first_child_match(e.children, t);
    if i >= 0 {
        lemma_first_child_match_bounds(e.children, t);
        let cs = e.children.remove(i);
        assert(cs =~= e.children.take(i) + e.children.skip(i + 1));
        lemma_children_total_concat(e.children.take(i), e.children.skip(i + 1));
        lemma_children_total_split(e.children, i);
        assert(e.children.skip(i).drop_first() =~= e.children.skip(i + 1));
        assert(spec_children_total(e.children.skip(i)) == e.children[i].total_size()
            + spec_children_total(e.children.skip(i + 1)));
        lemma_total_nonneg(e.children[i]);
        lemma_children_total_nonneg(cs);
        let r = spec_remove(e, t).0;
        assert(e.is_file ==> e.children.len() == 0);
        assert(!e.is_file);
        assert(spec_children_total(cs) <= spec_children_total(e.children));
        assert(r.size as int == spec_children_total(cs));
        assert forall|j: int| 0 <= j < r.children.len() implies (#[trigger] r.children[j]).sizes_ok()
            by {
            if j < i {
                assert(r.children[j] == e.children[j]);
            } else {
                assert(r.children[j] == e.children[j + 1]);
            }
        }
    } else {
        let (cs, found) = spec_remove_children(e.children, t);
        if found {
            lemma_remove_children_sizes_ok(e.children, t);
            lemma_remove_children_total_le(e.children, t);
            lemma_children_total_nonneg(cs);
            let r = spec_remove(e, t).0;
            assert(!e.is_file) by {
                if e.is_file {
                    assert(e.children.len() == 0);
                }
            }
            assert(r.size as int == spec_children_total(cs));
        }
    }
}

pub proof fn lemma_remove_children_sizes_ok(s: Seq<EntryView>, t: Seq<char>)
    requires
        forall|i: int| 0 <= i < s.len() ==> (#[trigger] s[i]).sizes_ok(),
    ensures
        forall|i: int|
            0 <= i < spec_remove_children(s, t).0.len() ==> (#[trigger] spec_remove_children(
                s,
                t,
            ).0[i]).sizes_ok(),
        spec_remove_children(s, t).0.len() == s.len(),
    decreases s,
{
    if s.len() > 0 {
        let (c0, f0) = spec_remove(s[0], t);
        assert(s[0].sizes_ok());
        if f0 {
            lemma_remove_sizes_ok(s[0], t);
            let r = seq![c0] + s.drop_first();
            assert forall|i: int| 0 <= i < r.len() implies (#[trigger] r[i]).sizes_ok() by {
                if i > 0 {
                    assert(r[i] == s[i]);
                }
            }
        } else {
            assert(forall|i: int|
                0 <= i < s.drop_first().len() ==> (#[trigger] s.drop_first()[i]) == s[i + 1]);
            lemma_remove_children_sizes_ok(s.drop_first(), t);
            let (rest, _f) = spec_remove_children(s.drop_first(), t);
            let r = seq![s[0]] + rest;
            assert forall|i: int| 0 <= i < r.len() implies (#[trigger] r[i]).sizes_ok() by {
                if i > 0 {
                    assert(r[i] == rest[i - 1]);
                }
            }
        }
    }
}

/// Sum of the subtree totals of the children, as they stand.
pub(crate) fn children_total_of(v: &Vec<DirEntry>) -> (r: u64)
    requires
        spec_children_total(views_of(v@)) <= u64::MAX,
    ensures
        r as int == spec_children_total(views_of(v@)),
{
    let ghost cs = views_of(v@);
    let mut sum: u64 = 0;
    let mut i: usize = 0;
    proof {
        lemma_views_of_len(v@);
        assert(cs.take(0) =~= Seq::<EntryView>::empty());
    }
    while i < v.len()
        invariant
            i <= v@.len(),
            cs == views_of(v@),
            cs.len() == v@.len(),
            spec_children_total(cs) <= u64::MAX,
            sum as int == spec_children_total(cs.take(i as int)),
        decreases v@.len() - i,
    {
        proof {
            lemma_views_of_index(v@, i as int);
            lemma_child_total_le(cs, i as int);
            lemma_total_nonneg(cs[i as int]);
            lemma_children_total_split(cs, i as int);
            lemma_children_total_nonneg(cs.take(i as int));
            lemma_children_total_nonneg(cs.skip(i as int + 1));
            assert(cs.skip(i as int).drop_first() =~= cs.skip(i as int + 1));
            assert(spec_children_total(cs.skip(i as int)) == cs[i as int].total_size()
                + spec_children_total(cs.skip(i as int + 1)));
        }
        let ct = v[i].total_size();
        proof {
            assert(cs.take(i as int + 1) =~= cs.take(i as int).push(cs[i as int]));
            lemma_children_total_push(cs.take(i as int), cs[i as int]);
        }
        sum = sum + ct;
        i = i + 1;
    }
    proof {
        assert(cs.take(cs.len() as int) =~= cs);
    }
    sum
}

/// Index of the first child whose path equals the target, if any.
fn find_child_match(v: &Vec<DirEntry>, target: &String) -> (r: Option<usize>)
    ensures
        match r {
            Some(i) => i as int == spec_first_child_match(views_of(v@), target@),
            None => spec_first_child_match(views_of(v@), target@) == -1,
        },
{
    let ghost cs = views_of(v@);
    proof {
        lemma_views_of_len(v@);
        lemma_first_child_match_bounds(cs, target@);
    }
    let mut i: usize = 0;
    while i < v.len()
        invariant
            i <= v@.len(),
            cs == views_of(v@),
            cs.len() == v@.len(),
            forall|j: int| 0 <= j < i ==> (#[trigger] cs[j]).path != target@,
        decreases v@.len() - i,
    {
        proof {
            lemma_views_of_index(v@, i as int);
        }
        if v[i].path == *target {
            proof {
                lemma_first_match_at(cs, target@, i as int);
            }
            return Some(i);
        }
        i = i + 1;
    }
    proof {
        lemma_first_child_match_bounds(cs, target@);
    }
    None
}

/// When everything before `i` misses and `i` hits, `i` is the first match.
proof fn lemma_first_match_at(s: Seq<EntryView>, t: Seq<char>, i: int)
    requires
        0 <= i < s.len(),
        s[i].path == t,
        forall|j: int| 0 <= j < i ==> (#[trigger] s[j]).path != t,
    ensures
        spec_first_child_match(s, t) == i,
    decreases s,
{
    if i > 0 {
        assert(forall|j: int| 0 <= j < s.drop_first().len() ==> s.drop_first()[j] == s[j + 1]);
        lemma_first_match_at(s.drop_first(), t, i - 1);
    }
}

/// The by-value removal walk: the tree after the removal, and whether the
/// target was found.
#[verifier::loop_isolation(false)]
fn remove_tree_exec(e: DirEntry, target: &String) -> (r: (DirEntry, bool))
    requires
        e@.sizes_ok(),
    ensures
        r.0@ == spec_remove(e@, target@).0,
        r.1 == spec_remove(e@, target@).1,
    decreases e,
{
    let ghost orig = e;
    let ghost vs = orig@.children;
    let mut e = e;
    proof {
        lemma_views_of_len(orig.children@);
        lemma_first_child_match_bounds(vs, target@);
    }
    match find_child_match(&e.children, target) {
        Some(i) => {
            let ghost gi = i as int;
            let removed = e.children.remove(i);
            proof {
                assert(e.children@ =~= orig.children@.remove(gi));
                lemma_views_of_remove(orig.children@, gi);
                assert(views_of(e.children@) == vs.remove(gi));
                assert(vs.remove(gi) =~= vs.take(gi) + vs.skip(gi + 1));
                lemma_children_total_concat(vs.take(gi), vs.skip(gi + 1));
                lemma_children_total_split(vs, gi);
                assert(vs.skip(gi).drop_first() =~= vs.skip(gi + 1));
                assert(spec_children_total(vs.skip(gi)) == vs[gi].total_size()
                    + spec_children_total(vs.skip(gi + 1)));
                lemma_total_nonneg(vs[gi]);
                lemma_children_total_nonneg(views_of(e.children@));
                assert(!orig.is_file);
            }
            let new_size = children_total_of(&e.children);
            e.size = new_size;
            proof {
                assert(e@ =~= spec_remove(orig@, target@).0);
            }
            (e, true)
        },
        None => {
            let mut rest: Vec<DirEntry> = Vec::new();
            core::mem::swap(&mut e.children, &mut rest);
            let mut done: Vec<DirEntry> = Vec::new();
            let mut found = false;
            let ghost mut k: int = 0;
            proof {
                assert(vs.take(0) =~= Seq::<EntryView>::empty());
                assert(views_of(done@) =~= Seq::<EntryView>::empty());
                assert(rest@ =~= orig.children@.skip(0));
            }
            while rest.len() > 0
                invariant
                    0 <= k <= orig.children@.len(),
                    rest@ == orig.children@.skip(k),
                    !found ==> views_of(done@) == vs.take(k)
                        && !spec_remove_children(vs.take(k), target@).1,
                    found ==> views_of(done@) == spec_remove_children(vs.take(k), target@).0
                        && spec_remove_children(vs.take(k), target@).1,
                decreases rest@.len(),
            {
                proof {
                    lemma_views_of_len(rest@);
                    lemma_views_of_index(orig.children@, k);
                    assert(rest@[0] == orig.children@[k]);
                }
                let c = rest.remove(0);
                proof {
                    assert(c == orig.children@[k]);
                    assert(c@ == vs[k]);
                    assert(vs[k].sizes_ok());
                    assert(decreases_to!(orig => orig.children));
                    vstd::std_specs::vec::axiom_vec_decreases_to_view::<DirEntry>(orig.children);
                    vstd::seq::axiom_seq_index_decreases::<DirEntry>(orig.children@, k);
                    assert(decreases_to!(orig => c));
                }
                if found {
                    let ghost prev_done = done@;
                    done.push(c);
                    proof {
                        lemma_views_of_push(prev_done, c);
                        lemma_remove_children_found_push(vs.take(k), vs[k], target@);
                        assert(vs.take(k + 1) =~= vs.take(k).push(vs[k]));
                    }
                } else {
                    let (c2, f2) = remove_tree_exec(c, target);
                    let ghost prev_done = done@;
                    done.push(c2);
                    found = f2;
                    proof {
                        lemma_views_of_push(prev_done, c2);
                        lemma_remove_children_step(vs.take(k), vs[k], target@);
                        if !f2 {
                            lemma_remove_unfound_id(vs[k], target@);
                        }
                        assert(vs.take(k + 1) =~= vs.take(k).push(vs[k]));
                    }
                }
                proof {
                    assert(rest@ =~= orig.children@.skip(k + 1));
                    k = k + 1;
                }
            }
            proof {
                assert(vs.take(vs.len() as int) =~= vs);
            }
            e.children = done;
            if found {
                if !e.is_file {
                    proof {
                        lemma_remove_children_total_le(vs, target@);
                        lemma_children_total_nonneg(views_of(e.children@));
                    }
                    let new_size = children_total_of(&e.children);
                    e.size = new_size;
                }
                proof {
                    assert(!orig.is_file);
                    assert(e@ =~= spec_remove(orig@, target@).0);
                }
                (e, true)
            } else {
                proof {
                    lemma_remove_children_unfound_id(vs, target@);
                    assert(e@ =~= orig@);
                    assert(e@ =~= spec_remove(orig@, target@).0);
                }
                (e, false)
            }
        },
    }
}

/// Removing one element of a sequence removes its shape from the views.
proof fn lemma_views_of_remove(s: Seq<DirEntry>, i: int)
    requires
        0 <= i < s.len(),
    ensures
        views_of(s.remove(i)) == views_of(s).remove(i),
{
    lemma_views_of_len(s);
    lemma_views_of_len(s.remove(i));
    assert forall|k: int| 0 <= k < views_of(s.remove(i)).len() implies views_of(s.remove(i))[k]
        == views_of(s).remove(i)[k] by {
        lemma_views_of_index(s.remove(i), k);
        if k < i {
            lemma_views_of_index(s, k);
            assert(s.remove(i)[k] == s[k]);
        } else {
            lemma_views_of_index(s, k + 1);
            assert(s.remove(i)[k] == s[k + 1]);
        }
    }
    assert(views_of(s.remove(i)) =~= views_of(s).remove(i));
}

/// Extending an already successful removal leaves the new child untouched.
proof fn lemma_remove_children_found_push(s: Seq<EntryView>, x: EntryView, t: Seq<char>)
    requires
        spec_remove_children(s, t).1,
    ensures
        spec_remove_children(s.push(x), t).1,
        spec_remove_children(s.push(x), t).0 == spec_remove_children(s, t).0.push(x),
    decreases s,
{
    assert(s.len() > 0);
    let (c0, f0) = spec_remove(s[0], t);
    assert(s.push(x)[0] == s[0]);
    assert(s.push(x).drop_first() =~= s.drop_first().push(x));
    if f0 {
        assert(spec_remove_children(s.push(x), t).0 =~= spec_remove_children(s, t).0.push(x));
    } else {
        lemma_remove_children_found_push(s.drop_first(), x, t);
        assert(spec_remove_children(s.push(x), t).0 =~= spec_remove_children(s, t).0.push(x));
    }
}

/// One more child extends the removal walk: when the prefix missed, the
/// outcome on the new child decides.
proof fn lemma_remove_children_step(s: Seq<EntryView>, x: EntryView, t: Seq<char>)
    requires
        !spec_remove_children(s, t).1,
    ensures
        spec_remove_children(s.push(x), t).1 == spec_remove(x, t).1,
        spec_remove_children(s.push(x), t).0 == s.push(spec_remove(x, t).0),
    decreases s,
{
    lemma_remove_children_unfound_id(s, t);
    if s.len() == 0 {
        assert(s.push(x)[0] == x);
        assert(s.push(x).drop_first() =~= Seq::<EntryView>::empty());
        assert(!spec_remove_children(Seq::<EntryView>::empty(), t).1);
        assert(spec_remove_children(Seq::<EntryView>::empty(), t).0
            =~= Seq::<EntryView>::empty());
        if spec_remove(x, t).1 {
            assert(spec_remove_children(s.push(x), t).0 =~= s.push(spec_remove(x, t).0));
        } else {
            lemma_remove_unfound_id(x, t);
            assert(spec_remove_children(s.push(x), t).0 =~= s.push(spec_remove(x, t).0));
        }
    } else {
        let (c0, f0) = spec_remove(s[0], t);
        assert(!f0);
        assert(s.push(x)[0] == s[0]);
        assert(s.push(x).drop_first() =~= s.drop_first().push(x));
        lemma_remove_children_step(s.drop_first(), x, t);
        assert(spec_remove_children(s.push(x), t).0 =~= s.push(spec_remove(x, t).0));
    }
}

/// Prune the entry with the given path from the tree, recomputing every
/// ancestor's size on the way back; removing a path that is not present
/// changes nothing.
pub fn remove_entry_from_tree(entry: &mut DirEntry, target: &String) -> (found: bool)
    requires
        old(entry)@.sizes_ok(),
    ensures
        final(entry)@ == spec_remove(old(entry)@, target@).0,
        found == spec_remove(old(entry)@, target@).1,
{
    let mut taken = DirEntry {
        path: String::new(),
        name: String::new(),
        size: 0,
        file_type: crate::model::FileType::Directory,
        children: Vec::new(),
        is_file: false,
    };
    core::mem::swap(entry, &mut taken);
    let (mut done, found) = remove_tree_exec(taken, target);
    core::mem::swap(entry, &mut done);
    found
}

} // verus!
