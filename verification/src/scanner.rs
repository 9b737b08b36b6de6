//! Scanner core: turn a raw listing of a filesystem subtree into the tree
//! model, skipping symbolic links and virtual filesystems, aggregating
//! directory sizes bottom-up, and sorting every level by descending total.
//!
//! Reading the filesystem itself, streaming progress, and the background
//! schedule belong to the embedding program; this module holds everything
//! that decides what the resulting tree is.
use crate::model::lemma_children_total_push;
use crate::model::spec_children_total;
use crate::model::view_of;
use crate::model::views_of;
use crate::model::DirEntry;
use crate::model::EntryView;
use crate::model::FileType;
use crate::sort::spec_sort_tree;
use crate::text::spec_file_name;
use vstd::prelude::*;

verus! {

/// Progress update during scanning.
#[derive(Debug)]
pub enum ScanProgress {
    /// Currently scanning this directory.
    Scanning(String),
    /// Number of items scanned so far.
    ItemCount(usize),
    /// Scan completed with result.
    Complete(DirEntry),
    /// Scan failed with error.
    Error(String),
}

/// One entry of the raw listing that a filesystem walk produced: its
/// metadata as read, and its children as listed. Unreadable entries never
/// appear here; symbolic links appear with their flag set and are dropped
/// by the builder.
#[derive(Debug)]
pub struct RawNode {
    pub path: String,
    pub size: u64,
    pub is_file: bool,
    pub is_symlink: bool,
    pub children: Vec<RawNode>,
}

/// The mathematical shape of a raw listing entry.
#[verifier::ext_equal]
pub struct RawView {
    pub path: Seq<char>,
    pub size: u64,
    pub is_file: bool,
    pub is_symlink: bool,
    pub children: Seq<RawView>,
}

/// The shape that a `RawNode` stands for.
pub open spec fn raw_view_of(r: RawNode) -> RawView
    decreases r,
{
    RawView {
        path: r.path@,
        size: r.size,
        is_file: r.is_file,
        is_symlink: r.is_symlink,
        children: raw_views_of(r.children@),
    }
}

/// The shapes of a sequence of raw entries, in order.
pub open spec fn raw_views_of(s: Seq<RawNode>) -> Seq<RawView>
    decreases s,
{
    if s.len() == 0 {
        Seq::empty()
    } else {
        seq![raw_view_of(s[0])] + raw_views_of(s.drop_first())
    }
}

impl View for RawNode {
    type V = RawView;

    open spec fn view(&self) -> RawView {
        raw_view_of(*self)
    }
}

pub proof fn lemma_raw_views_of_len(s: Seq<RawNode>)
    ensures
        raw_views_of(s).len() == s.len(),
    decreases s,
{
    if s.len() > 0 {
        lemma_raw_views_of_len(s.drop_first());
    }
}

pub proof fn lemma_raw_views_of_index(s: Seq<RawNode>, i: int)
    requires
        0 <= i < s.len(),
    ensures
        raw_views_of(s)[i] == raw_view_of(s[i]),
    decreases s,
{
    lemma_raw_views_of_len(s);
    if i > 0 {
        lemma_raw_views_of_index(s.drop_first(), i - 1);
    }
}

/// Mount points that do not represent real disk usage and are excluded
/// from scanning, as exact paths or as prefixes.
pub open spec fn spec_is_virtual(p: Seq<char>) -> bool {
    ||| p == "/proc"@
    ||| is_seq_prefix(p, "/proc/"@)
    ||| p == "/sys"@
    ||| is_seq_prefix(p, "/sys/"@)
    ||| p == "/dev"@
    ||| is_seq_prefix(p, "/dev/"@)
    ||| p == "/run"@
    ||| is_seq_prefix(p, "/run/"@)
    ||| p == "/snap"@
    ||| is_seq_prefix(p, "/snap/"@)
}

/// Whether `pre` starts the sequence `p`.
pub open spec fn is_seq_prefix(p: Seq<char>, pre: Seq<char>) -> bool {
    p.len() >= pre.len() && p.take(pre.len() as int) == pre
}

/// Check if a path is a virtual filesystem that should be skipped.
pub fn is_virtual_fs(path: &String) -> (r: bool)
    ensures
        r == spec_is_virtual(path@),
{
    crate::text::str_eq(path.as_str(), "/proc") || crate::text::str_has_prefix(
        path.as_str(),
        "/proc/",
    ) || crate::text::str_eq(path.as_str(), "/sys") || crate::text::str_has_prefix(
        path.as_str(),
        "/sys/",
    ) || crate::text::str_eq(path.as_str(), "/dev") || crate::text::str_has_prefix(
        path.as_str(),
        "/dev/",
    ) || crate::text::str_eq(path.as_str(), "/run") || crate::text::str_has_prefix(
        path.as_str(),
        "/run/",
    ) || crate::text::str_eq(path.as_str(), "/snap") || crate::text::str_has_prefix(
        path.as_str(),
        "/snap/",
    )
}

/// Whether a listed child makes it into the tree: symbolic links are always
/// dropped, and a directory under a virtual mount point is dropped whole.
pub open spec fn spec_keep(c: RawView) -> bool {
    !c.is_symlink && (c.is_file || !spec_is_virtual(c.path))
}

/// The tree that a raw listing builds: files carry their own size and a
/// type drawn from their extension; a directory's entry keeps the children
/// that pass the skip rules, built recursively, and its size is the sum of
/// their subtree totals.
pub open spec fn spec_build(r: RawView) -> EntryView
    decreases r,
{
    if r.is_file {
        EntryView {
            path: r.path,
            name: spec_file_name(r.path),
            size: r.size,
            file_type: crate::model::spec_file_type_of_path(r.path),
            children: Seq::empty(),
            is_file: true,
        }
    } else {
        let cs = spec_build_kept(r.children);
        EntryView {
            path: r.path,
            name: spec_file_name(r.path),
            size: spec_children_total(cs) as u64,
            file_type: FileType::Directory,
            children: cs,
            is_file: false,
        }
    }
}

/// The kept children of a raw listing, each built recursively, in order.
pub open spec fn spec_build_kept(s: Seq<RawView>) -> Seq<EntryView>
    decreases s,
{
    if s.len() == 0 {
        Seq::empty()
    } else {
        (if spec_keep(s[0]) {
            seq![spec_build(s[0])]
        } else {
            Seq::<EntryView>::empty()
        }) + spec_build_kept(s.drop_first())
    }
}

/// Whether every directory sum along the build stays representable: the
/// one way a raw listing can fail to build.
pub open spec fn spec_fits(r: RawView) -> bool
    decreases r,
{
    if r.is_file {
        true
    } else {
        &&& forall|i: int|
            0 <= i < r.children.len() && spec_keep(#[trigger] r.children[i]) ==> spec_fits(
                r.children[i],
            )
        &&& spec_children_total(spec_build_kept(r.children)) <= u64::MAX
    }
}


/// The path invariant of a raw listing: each listed child's path is the
/// parent's path plus exactly one component, no two siblings share a path,
/// and the same holds below. A real filesystem walk produces this shape.
pub open spec fn raw_paths_wf(r: RawView) -> bool
    decreases r,
{
    &&& forall|i: int|
        0 <= i < r.children.len() ==> crate::text::spec_is_path_child(
            r.path,
            (#[trigger] r.children[i]).path,
        )
    &&& forall|i: int| 0 <= i < r.children.len() ==> raw_paths_wf(#[trigger] r.children[i])
    &&& forall|i: int, j: int|
        0 <= i < j < r.children.len() ==> (#[trigger] r.children[i]).path != (
        #[trigger] r.children[j]).path
}

/// Building keeps the node's own path.
pub proof fn lemma_build_keeps_path(r: RawView)
    ensures
        spec_build(r).path == r.path,
{
}

/// Every built kept child is the build of some kept listed child.
proof fn lemma_build_kept_elem(s: Seq<RawView>, k: int)
    requires
        0 <= k < spec_build_kept(s).len(),
    ensures
        exists|i: int|
            0 <= i < s.len() && spec_keep(s[i]) && spec_build_kept(s)[k] == spec_build(
                #[trigger] s[i],
            ),
    decreases s,
{
    assert(s.len() > 0);
    let rest = spec_build_kept(s.drop_first());
    if spec_keep(s[0]) {
        if k == 0 {
            assert(spec_build_kept(s)[0] == spec_build(s[0]));
        } else {
            assert(spec_build_kept(s)[k] == rest[k - 1]);
            lemma_build_kept_elem(s.drop_first(), k - 1);
            let i = choose|i: int|
                0 <= i < s.drop_first().len() && spec_keep(s.drop_first()[i]) && rest[k - 1]
                    == spec_build(#[trigger] s.drop_first()[i]);
            assert(s[i + 1] == s.drop_first()[i]);
            assert(spec_keep(s[i + 1]) && spec_build_kept(s)[k] == spec_build(s[i + 1]));
        }
    } else {
        assert(spec_build_kept(s) =~= rest);
        lemma_build_kept_elem(s.drop_first(), k);
        let i = choose|i: int|
            0 <= i < s.drop_first().len() && spec_keep(s.drop_first()[i]) && rest[k] == spec_build(
                #[trigger] s.drop_first()[i],
            );
        assert(s[i + 1] == s.drop_first()[i]);
        assert(spec_keep(s[i + 1]) && spec_build_kept(s)[k] == spec_build(s[i + 1]));
    }
}

/// Distinct sibling paths survive the skip rules.
proof fn lemma_build_kept_distinct(s: Seq<RawView>)
    requires
        forall|i: int, j: int|
            0 <= i < j < s.len() ==> (#[trigger] s[i]).path != (#[trigger] s[j]).path,
    ensures
        forall|k: int, l: int|
            0 <= k < l < spec_build_kept(s).len() ==> (#[trigger] spec_build_kept(s)[k]).path != (
            #[trigger] spec_build_kept(s)[l]).path,
    decreases s,
{
    if s.len() > 0 {
        assert(forall|i: int, j: int|
            0 <= i < j < s.drop_first().len() ==> (#[trigger] s.drop_first()[i]).path != (
            #[trigger] s.drop_first()[j]).path);
        lemma_build_kept_distinct(s.drop_first());
        let rest = spec_build_kept(s.drop_first());
        if spec_keep(s[0]) {
            assert forall|k: int, l: int| 0 <= k < l < spec_build_kept(s).len() implies (
            #[trigger] spec_build_kept(s)[k]).path != (#[trigger] spec_build_kept(s)[l]).path by {
                if k == 0 {
                    assert(spec_build_kept(s)[0] == spec_build(s[0]));
                    assert(spec_build_kept(s)[l] == rest[l - 1]);
                    lemma_build_kept_elem(s.drop_first(), l - 1);
                    let i = choose|i: int|
                        0 <= i < s.drop_first().len() && spec_keep(s.drop_first()[i]) && rest[l - 1]
                            == spec_build(#[trigger] s.drop_first()[i]);
                    assert(s[i + 1] == s.drop_first()[i]);
                    lemma_build_keeps_path(s[0]);
                    lemma_build_keeps_path(s[i + 1]);
                    assert(s[0].path != s[i + 1].path);
                } else {
                    assert(spec_build_kept(s)[k] == rest[k - 1]
                        && spec_build_kept(s)[l] == rest[l - 1]);
                }
            }
        } else {
            assert(spec_build_kept(s) =~= rest);
        }
    }
}

/// A well-formed listing builds a tree with the path invariant: the skip
/// rules drop entries whole and never touch a surviving path.
pub proof fn lemma_build_paths_wf(r: RawView)
    requires
        raw_paths_wf(r),
    ensures
        spec_build(r).paths_wf(),
    decreases r,
{
    let b = spec_build(r);
    if r.is_file {
        assert(b.children =~= Seq::<EntryView>::empty());
    } else {
        lemma_build_kept_distinct(r.children);
        let cs = spec_build_kept(r.children);
        assert forall|k: int| 0 <= k < cs.len() implies crate::text::spec_is_path_child(
            b.path,
            (#[trigger] cs[k]).path,
        ) && cs[k].paths_wf() by {
            lemma_build_kept_elem(r.children, k);
            let i = choose|i: int|
                0 <= i < r.children.len() && spec_keep(r.children[i]) && cs[k] == spec_build(
                    #[trigger] r.children[i],
                );
            lemma_build_keeps_path(r.children[i]);
            lemma_build_paths_wf(r.children[i]);
        }
    }
}

pub proof fn lemma_build_kept_push(s: Seq<RawView>, x: RawView)
    ensures
        spec_build_kept(s.push(x)) == spec_build_kept(s) + (if spec_keep(x) {
            seq![spec_build(x)]
        } else {
            Seq::<EntryView>::empty()
        }),
    decreases s,
{
    if s.len() == 0 {
        assert(s.push(x)[0] == x);
        assert(s.push(x).drop_first() =~= Seq::<RawView>::empty());
        assert(spec_build_kept(Seq::<RawView>::empty()) =~= Seq::<EntryView>::empty());
        assert(spec_build_kept(s) =~= Seq::<EntryView>::empty());
        assert(spec_build_kept(s.push(x)) =~= spec_build_kept(s) + (if spec_keep(x) {
            seq![spec_build(x)]
        } else {
            Seq::<EntryView>::empty()
        }));
    } else {
        assert(s.push(x)[0] == s[0]);
        assert(s.push(x).drop_first() =~= s.drop_first().push(x));
        lemma_build_kept_push(s.drop_first(), x);
        assert(spec_build_kept(s.push(x)) =~= spec_build_kept(s) + (if spec_keep(x) {
            seq![spec_build(x)]
        } else {
            Seq::<EntryView>::empty()
        }));
    }
}

/// Built subtree totals are never negative: a file's total is its size, and
/// a directory's total is a sum of such totals.
pub proof fn lemma_build_total_nonneg(r: RawView)
    ensures
        spec_build(r).total_size() >= 0,
    decreases r,
{
    if !r.is_file {
        lemma_build_kept_total_nonneg(r.children);
    }
}

pub proof fn lemma_build_kept_total_nonneg(s: Seq<RawView>)
    ensures
        spec_children_total(spec_build_kept(s)) >= 0,
    decreases s,
{
    if s.len() == 0 {
    } else {
        lemma_build_kept_total_nonneg(s.drop_first());
        if spec_keep(s[0]) {
            lemma_build_total_nonneg(s[0]);
            let q = spec_build_kept(s);
            assert(q[0] == spec_build(s[0]));
            assert(q.drop_first() =~= spec_build_kept(s.drop_first()));
        } else {
            assert(spec_build_kept(s) =~= spec_build_kept(s.drop_first()));
        }
    }
}

/// A build that fits establishes the aggregation invariant.
pub proof fn lemma_build_sizes_ok(r: RawView)
    requires
        spec_fits(r),
    ensures
        spec_build(r).sizes_ok(),
    decreases r,
{
    if !r.is_file {
        lemma_build_kept_total_nonneg(r.children);
        lemma_build_kept_sizes_ok(r.children);
    }
}

pub proof fn lemma_build_kept_sizes_ok(s: Seq<RawView>)
    requires
        forall|i: int|
            0 <= i < s.len() && spec_keep(#[trigger] s[i]) ==> spec_fits(s[i]),
    ensures
        forall|i: int|
            0 <= i < spec_build_kept(s).len() ==> (#[trigger] spec_build_kept(s)[i]).sizes_ok(),
    decreases s,
{
    if s.len() > 0 {
        assert(forall|i: int|
            0 <= i < s.drop_first().len() ==> (#[trigger] s.drop_first()[i]) == s[i + 1]);
        lemma_build_kept_sizes_ok(s.drop_first());
        let q = spec_build_kept(s);
        if spec_keep(s[0]) {
            lemma_build_sizes_ok(s[0]);
            assert(q[0] == spec_build(s[0]));
            assert(q.drop_first() =~= spec_build_kept(s.drop_first()));
            assert forall|i: int| 0 <= i < q.len() implies (#[trigger] q[i]).sizes_ok() by {
                if i > 0 {
                    assert(q[i] == spec_build_kept(s.drop_first())[i - 1]);
                }
            }
        } else {
            assert(q =~= spec_build_kept(s.drop_first()));
        }
    }
}

/// Build the tree from a raw listing, applying the skip rules and summing
/// directory sizes bottom-up; fails exactly when some directory's sum would
/// not be representable.
#[verifier::loop_isolation(false)]
pub fn try_build_tree(raw: &RawNode) -> (r: Option<DirEntry>)
    ensures
        match r {
            Some(t) => spec_fits(raw@) && t@ == spec_build(raw@) && (raw_paths_wf(raw@)
                ==> t@.paths_wf()),
            None => !spec_fits(raw@),
        },
    decreases *raw,
{
    if raw.is_file {
        let t = DirEntry::new_file(raw.path.clone(), raw.size);
        proof {
            assert(views_of(t.children@) =~= Seq::<EntryView>::empty());
            assert(t@ =~= spec_build(raw@));
            if raw_paths_wf(raw@) {
                lemma_build_paths_wf(raw@);
            }
        }
        return Some(t);
    }
    let ghost rcs = raw@.children;
    let mut children: Vec<DirEntry> = Vec::new();
    let mut size_sum: u64 = 0;
    let mut i: usize = 0;
    proof {
        lemma_raw_views_of_len(raw.children@);
        assert(rcs.take(0) =~= Seq::<RawView>::empty());
        assert(spec_build_kept(rcs.take(0)) =~= Seq::<EntryView>::empty());
        assert(views_of(children@) =~= Seq::<EntryView>::empty());
    }
    while i < raw.children.len()
        invariant
            i <= raw.children@.len(),
            views_of(children@) == spec_build_kept(rcs.take(i as int)),
            size_sum as int == spec_children_total(spec_build_kept(rcs.take(i as int))),
            forall|j: int|
                0 <= j < i && spec_keep(#[trigger] rcs[j]) ==> spec_fits(rcs[j]),
        decreases raw.children@.len() - i,
    {
        let c = &raw.children[i];
        proof {
            lemma_raw_views_of_index(raw.children@, i as int);
            assert(c@ == rcs[i as int]);
            assert(rcs.take(i as int + 1) =~= rcs.take(i as int).push(rcs[i as int]));
            lemma_build_kept_push(rcs.take(i as int), rcs[i as int]);
        }
        let keep = if c.is_symlink {
            false
        } else if !c.is_file && is_virtual_fs(&c.path) {
            false
        } else {
            true
        };
        proof {
            assert(keep == spec_keep(rcs[i as int]));
        }
        if keep {
            proof {
                assert(decreases_to!(*raw => raw.children));
            }
            match try_build_tree(c) {
                None => {
                    proof {
                        lemma_unfit_child(raw@, i as int);
                    }
                    return None;
                },
                Some(child) => {
                    proof {
                        lemma_build_sizes_ok(rcs[i as int]);
                        crate::model::lemma_sizes_ok_total(child@);
                    }
                    let ct = child.total_size();
                    if ct > u64::MAX - size_sum {
                        proof {
                            lemma_overflowing_prefix(raw@, i as int, keep);
                        }
                        return None;
                    }
                    let ghost prev_children = children@;
                    children.push(child);
                    size_sum = size_sum + ct;
                    proof {
                        crate::model::lemma_views_of_push(prev_children, child);
                        assert(spec_build_kept(rcs.take(i as int)) + seq![spec_build(
                            rcs[i as int],
                        )] =~= spec_build_kept(rcs.take(i as int)).push(
                            spec_build(rcs[i as int]),
                        ));
                        lemma_children_total_push(
                            spec_build_kept(rcs.take(i as int)),
                            spec_build(rcs[i as int]),
                        );
                        assert(views_of(children@) =~= spec_build_kept(rcs.take(i as int + 1)));
                    }
                },
            }
        } else {
            proof {
                assert(spec_build_kept(rcs.take(i as int + 1)) =~= spec_build_kept(
                    rcs.take(i as int),
                ));
            }
        }
        i = i + 1;
    }
    proof {
        assert(rcs.take(rcs.len() as int) =~= rcs);
    }
    let name = crate::text::file_name_of(&raw.path);
    let t = DirEntry {
        path: raw.path.clone(),
        name,
        size: size_sum,
        file_type: FileType::Directory,
        children,
        is_file: false,
    };
    proof {
        assert(t@ =~= spec_build(raw@));
        if raw_paths_wf(raw@) {
            lemma_build_paths_wf(raw@);
        }
    }
    Some(t)
}

/// A kept child that does not fit makes the parent not fit.
proof fn lemma_unfit_child(r: RawView, i: int)
    requires
        !r.is_file,
        0 <= i < r.children.len(),
        spec_keep(r.children[i]),
        !spec_fits(r.children[i]),
    ensures
        !spec_fits(r),
{
}

/// When the sum over a prefix of the kept children already exceeds the
/// range of a size, the whole directory cannot fit.
proof fn lemma_overflowing_prefix(r: RawView, i: int, keep: bool)
    requires
        !r.is_file,
        0 <= i < r.children.len(),
        spec_keep(r.children[i]),
        spec_children_total(spec_build_kept(r.children.take(i))) + spec_build(
            r.children[i],
        ).total_size() > u64::MAX,
    ensures
        !spec_fits(r),
{
    let pre = r.children.take(i + 1);
    assert(pre =~= r.children.take(i).push(r.children[i]));
    lemma_build_kept_push(r.children.take(i), r.children[i]);
    assert(spec_build_kept(r.children.take(i)) + seq![spec_build(r.children[i])]
        =~= spec_build_kept(r.children.take(i)).push(spec_build(r.children[i])));
    lemma_children_total_push(
        spec_build_kept(r.children.take(i)),
        spec_build(r.children[i]),
    );
    assert(spec_children_total(spec_build_kept(pre)) > u64::MAX);
    lemma_build_kept_prefix_le(r.children, i + 1);
}

/// The kept-children sum over a prefix never exceeds the sum over the
/// whole sequence.
proof fn lemma_build_kept_prefix_le(s: Seq<RawView>, n: int)
    requires
        0 <= n <= s.len(),
    ensures
        spec_children_total(spec_build_kept(s.take(n))) <= spec_children_total(spec_build_kept(s)),
    decreases s.len() - n,
{
    if n == s.len() {
        assert(s.take(n) =~= s);
    } else {
        assert(s.take(n + 1) =~= s.take(n).push(s[n]));
        lemma_build_kept_push(s.take(n), s[n]);
        if spec_keep(s[n]) {
            assert(spec_build_kept(s.take(n)) + seq![spec_build(s[n])]
                =~= spec_build_kept(s.take(n)).push(spec_build(s[n])));
            lemma_children_total_push(spec_build_kept(s.take(n)), spec_build(s[n]));
            lemma_build_total_nonneg(s[n]);
        } else {
            assert(spec_build_kept(s.take(n + 1)) =~= spec_build_kept(s.take(n)));
        }
        lemma_build_kept_prefix_le(s, n + 1);
    }
}

/// The scanner's computed result for one raw listing: the tree built from
/// it, sorted at every level by descending subtree total; fails exactly
/// when the listing cannot build.
pub fn build_scanned_tree(raw: &RawNode) -> (r: Option<DirEntry>)
    ensures
        match r {
            Some(t) => spec_fits(raw@) && t@ == spec_sort_tree(spec_build(raw@)) && t@.sizes_ok()
                && (raw_paths_wf(raw@) ==> t@.paths_wf()),
            None => !spec_fits(raw@),
        },
{
    match try_build_tree(raw) {
        Some(mut t) => {
            proof {
                lemma_build_sizes_ok(raw@);
            }
            t.sort_by_size();
            proof {
                crate::sort::lemma_sort_tree_sizes_ok(spec_build(raw@));
                if raw_paths_wf(raw@) {
                    lemma_build_paths_wf(raw@);
                    crate::sort::lemma_sort_tree_paths_wf(spec_build(raw@));
                }
            }
            Some(t)
        },
        None => None,
    }
}

} // verus!
