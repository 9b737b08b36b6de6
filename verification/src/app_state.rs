//! View state: the tree owned for the lifetime of one scan, the current
//! zoom root, the cached segments for it, and navigation over the tree.
use crate::model::DirEntry;
use crate::model::EntryView;
use crate::sunburst::segviews_of;
use crate::sunburst::spec_build_segments;
use crate::sunburst::Segment;
use crate::sunburst::MAX_DEPTH;
use crate::text::spec_file_name;
use crate::text::spec_parent;
use vstd::prelude::*;
use vstd::string::StringExecFns;

verus! {

/// Application state.
#[derive(Debug)]
pub struct AppState {
    /// Root of the scanned tree.
    pub scan_root: Option<DirEntry>,
    /// Current view root (for zooming).
    pub view_root: String,
    /// Currently hovered segment.
    pub hover_path: Option<String>,
    /// Cached segments for current view.
    pub segments: Vec<Segment>,
    /// Is scanning in progress.
    pub scanning: bool,
    /// Scan progress message.
    pub progress_msg: String,
    /// Items scanned count.
    pub items_scanned: usize,
}

/// The shapes of a sequence of breadcrumbs, in order.
pub open spec fn crumb_views(s: Seq<(String, String)>) -> Seq<(Seq<char>, Seq<char>)> {
    Seq::new(s.len(), |i: int| (s[i].0@, s[i].1@))
}

impl AppState {
    /// The state's own invariant: whatever tree it holds satisfies the
    /// aggregation invariant and the path invariant (a scan of a real
    /// filesystem listing establishes both, and sorting and deletion keep
    /// them).
    pub open spec fn inv(self) -> bool {
        match self.scan_root {
            Some(root) => root@.sizes_ok() && root@.paths_wf(),
            None => true,
        }
    }

    /// The entry that the current zoom root resolves to, if any.
    pub open spec fn spec_view_entry(self) -> Option<EntryView> {
        match self.scan_root {
            Some(root) => root@.find(self.view_root@),
            None => None,
        }
    }

    /// Whether navigating up is possible: only away from the scan root, and
    /// only when the zoom root has a parent at all.
    pub open spec fn spec_can_navigate_up(self) -> bool {
        match self.scan_root {
            Some(root) => self.view_root@ != root.path@ && spec_parent(self.view_root@) is Some,
            None => false,
        }
    }

    /// A fresh state: no tree, the filesystem root as the view root, no
    /// segments, nothing in progress.
    pub fn new() -> (r: AppState)
        ensures
            r.scan_root is None,
            r.view_root@ =~= seq!['/'],
            r.hover_path is None,
            r.segments@.len() == 0,
            !r.scanning,
            r.progress_msg@.len() == 0,
            r.items_scanned == 0,
            r.inv(),
    {
        let view_root = String::from_str("/");
        proof {
            reveal_strlit("/");
            assert(view_root@ =~= seq!['/']);
        }
        AppState {
            scan_root: None,
            view_root,
            hover_path: None,
            segments: Vec::new(),
            scanning: false,
            progress_msg: String::new(),
            items_scanned: 0,
        }
    }

    /// Get current view entry from scan root.
    pub fn get_view_entry(&self) -> (r: Option<&DirEntry>)
        ensures
            match r {
                Some(e) => self.spec_view_entry() == Some(e@),
                None => self.spec_view_entry() is None,
            },
    {
        match &self.scan_root {
            Some(root) => root.find_by_path(&self.view_root),
            None => None,
        }
    }

    /// Rebuild segments from the current view: when the zoom root resolves,
    /// the cached segments become its layout; otherwise they are left as
    /// they were.
    pub fn rebuild_segments(&mut self)
        requires
            old(self).inv(),
        ensures
            final(self).scan_root == old(self).scan_root,
            final(self).view_root == old(self).view_root,
            final(self).hover_path == old(self).hover_path,
            final(self).scanning == old(self).scanning,
            final(self).progress_msg == old(self).progress_msg,
            final(self).items_scanned == old(self).items_scanned,
            match old(self).spec_view_entry() {
                Some(e) => segviews_of(final(self).segments@) == spec_build_segments(
                    e,
                    MAX_DEPTH as int,
                ),
                None => final(self).segments == old(self).segments,
            },
    {
        let new_segs: Option<Vec<Segment>> = match &self.scan_root {
            Some(root) => {
                match root.find_by_path(&self.view_root) {
                    Some(entry) => {
                        proof {
                            lemma_find_sizes_ok(root@, self.view_root@);
                        }
                        Some(crate::sunburst::build_segments(entry, MAX_DEPTH))
                    },
                    None => None,
                }
            },
            None => None,
        };
        match new_segs {
            Some(segs) => {
                self.segments = segs;
            },
            None => {},
        }
    }

    /// Navigate to a subdirectory: the zoom root moves only if the path
    /// resolves within the current tree, and the segments follow; an
    /// unresolvable path leaves the state unchanged.
    pub fn navigate_to(&mut self, path: String)
        requires
            old(self).inv(),
        ensures
            final(self).inv(),
            final(self).scan_root == old(self).scan_root,
            final(self).hover_path == old(self).hover_path,
            final(self).scanning == old(self).scanning,
            final(self).progress_msg == old(self).progress_msg,
            final(self).items_scanned == old(self).items_scanned,
            match old(self).scan_root {
                Some(root) => {
                    match root@.find(path@) {
                        Some(e) => final(self).view_root == path && segviews_of(
                            final(self).segments@,
                        ) == spec_build_segments(e, MAX_DEPTH as int),
                        None => *final(self) == *old(self),
                    }
                },
                None => *final(self) == *old(self),
            },
    {
        let resolvable = match &self.scan_root {
            Some(root) => root.find_by_path(&path).is_some(),
            None => false,
        };
        if resolvable {
            self.view_root = path;
            self.rebuild_segments();
        }
    }

    /// Navigate to the parent directory: only when the parent itself
    /// resolves within the scan tree, which stops navigation above the
    /// original scan root; from the scan root itself this is always a
    /// no-op, since under the path invariant nothing in the tree carries a
    /// path as short as the scan root's parent.
    pub fn navigate_up(&mut self)
        requires
            old(self).inv(),
        ensures
            final(self).inv(),
            final(self).scan_root == old(self).scan_root,
            final(self).hover_path == old(self).hover_path,
            final(self).scanning == old(self).scanning,
            final(self).progress_msg == old(self).progress_msg,
            final(self).items_scanned == old(self).items_scanned,
            match spec_parent(old(self).view_root@) {
                Some(p) => {
                    match old(self).scan_root {
                        Some(root) => {
                            match root@.find(p) {
                                Some(e) => final(self).view_root@ == p && segviews_of(
                                    final(self).segments@,
                                ) == spec_build_segments(e, MAX_DEPTH as int),
                                None => *final(self) == *old(self),
                            }
                        },
                        None => *final(self) == *old(self),
                    }
                },
                None => *final(self) == *old(self),
            },
            match old(self).scan_root {
                Some(root) => old(self).view_root@ == root.path@ ==> *final(self) == *old(self),
                None => true,
            },
    {
        match crate::text::parent_of(&self.view_root) {
            Some(parent) => {
                proof {
                    if old(self).scan_root is Some && old(self).view_root@ == old(
                        self,
                    ).scan_root->0.path@ {
                        let rootv = old(self).scan_root->0@;
                        crate::text::lemma_parent_shorter(old(self).view_root@);
                        if rootv.find(parent@) is Some {
                            crate::model::lemma_find_shape(rootv, parent@);
                            assert(crate::text::spec_path_sep(rootv.path).len() >= rootv.path.len());
                            assert(false);
                        }
                    }
                }
                let resolvable = match &self.scan_root {
                    Some(root) => root.find_by_path(&parent).is_some(),
                    None => false,
                };
                if resolvable {
                    self.view_root = parent;
                    self.rebuild_segments();
                }
            },
            None => {},
        }
    }

    /// Check if we can navigate up.
    pub fn can_navigate_up(&self) -> (r: bool)
        ensures
            r == self.spec_can_navigate_up(),
    {
        match &self.scan_root {
            Some(root) => {
                let differs = !crate::text::str_eq(self.view_root.as_str(), root.path.as_str());
                let has_parent = match crate::text::parent_of(&self.view_root) {
                    Some(_) => true,
                    None => false,
                };
                differs && has_parent
            },
            None => false,
        }
    }

    /// Get breadcrumb path components, in root-to-leaf order: the walk
    /// starts at the zoom root and climbs by parents, stopping at the scan
    /// root even if the parent chain continues past it.
    pub fn get_breadcrumbs(&self) -> (r: Vec<(String, String)>)
        ensures
            crumb_views(r@) == spec_crumbs_up(
                self.view_root@,
                match self.scan_root {
                    Some(root) => Some(root.path@),
                    None => None,
                },
            ).reverse(),
    {
        let ghost rootp: Option<Seq<char>> = match &self.scan_root {
            Some(root) => Some(root.path@),
            None => None,
        };
        let mut crumbs: Vec<(String, String)> = Vec::new();
        let mut current = self.view_root.clone();
        proof {
            assert(crumb_views(crumbs@) =~= Seq::<(Seq<char>, Seq<char>)>::empty());
        }
        loop
            invariant_except_break
                crumb_views(crumbs@) + spec_crumbs_up(current@, rootp) == spec_crumbs_up(
                    self.view_root@,
                    rootp,
                ),
            invariant
                rootp == (match self.scan_root {
                    Some(root) => Some(root.path@),
                    None => None,
                }),
            ensures
                crumb_views(crumbs@) == spec_crumbs_up(self.view_root@, rootp),
            decreases current@.len() + 1,
        {
            let name = crate::text::file_name_of(&current);
            let ghost prev_crumbs = crumbs@;
            crumbs.push((current.clone(), name));
            proof {
                assert(crumb_views(crumbs@) =~= crumb_views(prev_crumbs).push(
                    (current@, spec_file_name(current@)),
                ));
            }
            let at_root = match &self.scan_root {
                Some(root) => crate::text::str_eq(current.as_str(), root.path.as_str()),
                None => false,
            };
            if at_root {
                proof {
                    assert(rootp == Some(current@));
                    assert(spec_crumbs_up(current@, rootp) =~= seq![
                        (current@, spec_file_name(current@)),
                    ]);
                    lemma_concat_push_one(
                        crumb_views(prev_crumbs),
                        (current@, spec_file_name(current@)),
                    );
                }
                break;
            }
            match crate::text::parent_of(&current) {
                Some(parent) => {
                    proof {
                        crate::text::lemma_parent_shorter(current@);
                        assert(spec_crumbs_up(current@, rootp) == seq![
                            (current@, spec_file_name(current@)),
                        ] + spec_crumbs_up(parent@, rootp));
                        assert(crumb_views(crumbs@) + spec_crumbs_up(parent@, rootp)
                            =~= crumb_views(prev_crumbs) + spec_crumbs_up(current@, rootp));
                    }
                    current = parent;
                },
                None => {
                    proof {
                        assert(spec_crumbs_up(current@, rootp) =~= seq![
                            (current@, spec_file_name(current@)),
                        ]);
                        lemma_concat_push_one(
                            crumb_views(prev_crumbs),
                            (current@, spec_file_name(current@)),
                        );
                    }
                    break;
                },
            }
        }
        let mut result: Vec<(String, String)> = Vec::new();
        proof {
            assert(crumb_views(result@) =~= Seq::<(Seq<char>, Seq<char>)>::empty());
        }
        let ghost total = crumb_views(crumbs@);
        while crumbs.len() > 0
            invariant
                crumb_views(result@) == total.skip(crumbs@.len() as int).reverse(),
                crumb_views(crumbs@) == total.take(crumbs@.len() as int),
                total.len() >= crumbs@.len(),
            decreases crumbs@.len(),
        {
            let ghost prev_crumbs = crumbs@;
            let ghost prev_result = result@;
            let c = crumbs.pop().unwrap();
            result.push(c);
            proof {
                let n = prev_crumbs.len() as int;
                assert(crumbs@ =~= prev_crumbs.drop_last());
                assert(crumb_views(crumbs@) =~= total.take(n - 1));
                assert(crumb_views(result@) =~= crumb_views(prev_result).push(
                    (total.take(n)[n - 1].0, total.take(n)[n - 1].1),
                ));
                assert(total.take(n)[n - 1] == total[n - 1]);
                lemma_reverse_step(total, n);
                assert(crumb_views(result@) =~= total.skip(n - 1).reverse());
            }
        }
        proof {
            assert(total.take(0) =~= Seq::<(Seq<char>, Seq<char>)>::empty());
            assert(total.skip(0) =~= total);
        }
        result
    }
}

/// The breadcrumb chain from the zoom root up: the entry itself, then its
/// parents, ending at the scan root or at a path with no parent.
pub open spec fn spec_crumbs_up(current: Seq<char>, rootp: Option<Seq<char>>) -> Seq<
    (Seq<char>, Seq<char>),
>
    decreases current.len(),
    via spec_crumbs_up_decreases
{
    let head = seq![(current, spec_file_name(current))];
    if rootp == Some(current) {
        head
    } else {
        match spec_parent(current) {
            None => head,
            Some(p) => head + spec_crumbs_up(p, rootp),
        }
    }
}

#[via_fn]
proof fn spec_crumbs_up_decreases(current: Seq<char>, rootp: Option<Seq<char>>) {
    if rootp != Some(current) && spec_parent(current) is Some {
        crate::text::lemma_parent_shorter(current);
    }
}

/// Reversal grows from the far end: dropping the last element and pushing
/// it onto the reversed suffix.
proof fn lemma_reverse_step(total: Seq<(Seq<char>, Seq<char>)>, n: int)
    requires
        0 < n <= total.len(),
    ensures
        total.skip(n).reverse().push(total[n - 1]) =~= total.skip(n - 1).reverse(),
{
    assert(total.skip(n - 1).len() == total.len() - n + 1);
    assert forall|i: int| 0 <= i < total.len() - n + 1 implies #[trigger] total.skip(
        n - 1,
    ).reverse()[i] == total.skip(n).reverse().push(total[n - 1])[i] by {
        assert(total.skip(n - 1).reverse()[i] == total.skip(n - 1)[total.len() - n - i]);
        assert(total.skip(n - 1)[total.len() - n - i] == total[total.len() - 1 - i]);
        if i < total.len() - n {
            assert(total.skip(n).reverse()[i] == total.skip(n)[total.len() - n - 1 - i]);
            assert(total.skip(n)[total.len() - n - 1 - i] == total[total.len() - 1 - i]);
        }
    }
}

/// Concatenating one element equals pushing it.
proof fn lemma_concat_push_one(s: Seq<(Seq<char>, Seq<char>)>, x: (Seq<char>, Seq<char>))
    ensures
        s + seq![x] =~= s.push(x),
{
}

/// Searching a well-formed tree lands on a well-formed subtree: whatever
/// `find` returns satisfies the aggregation invariant too.
pub proof fn lemma_find_sizes_ok(e: EntryView, target: Seq<char>)
    requires
        e.sizes_ok(),
        e.find(target) is Some,
    ensures
        e.find(target).unwrap().sizes_ok(),
    decreases e,
{
    if e.path == target {
    } else {
        lemma_find_children_sizes_ok(e.children, target);
    }
}

proof fn lemma_find_children_sizes_ok(s: Seq<EntryView>, target: Seq<char>)
    requires
        forall|i: int| 0 <= i < s.len() ==> (#[trigger] s[i]).sizes_ok(),
        crate::model::spec_find_children(s, target) is Some,
    ensures
        crate::model::spec_find_children(s, target).unwrap().sizes_ok(),
    decreases s,
{
    if s[0].find(target) is Some {
        lemma_find_sizes_ok(s[0], target);
    } else {
        assert(forall|i: int|
            0 <= i < s.drop_first().len() ==> (#[trigger] s.drop_first()[i]) == s[i + 1]);
        lemma_find_children_sizes_ok(s.drop_first(), target);
    }
}

} // verus!
