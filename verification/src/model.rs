//! Tree model: entries of a scanned filesystem subtree and their pure
//! aggregation operations.
use vstd::prelude::*;

verus! {

/// File type categories used for downstream color coding.
#[derive(Debug, Clone, Copy, PartialEq, Eq, Structural)]
pub enum FileType {
    Directory,
    Video,
    Image,
    Audio,
    Archive,
    Document,
    Code,
    Other,
}

/// The mathematical shape of an entry: what a `DirEntry` means, with strings
/// as character sequences and children as a sequence of the same shape.
#[verifier::ext_equal]
pub struct EntryView {
    pub path: Seq<char>,
    pub name: Seq<char>,
    pub size: u64,
    pub file_type: FileType,
    pub children: Seq<EntryView>,
    pub is_file: bool,
}

impl EntryView {
    /// Total size of this entry's subtree: a file's own size, or the sum of
    /// the children's totals for a directory.
    pub open spec fn total_size(self) -> int
        decreases self,
    {
        if self.is_file {
            self.size as int
        } else {
            spec_children_total(self.children)
        }
    }

    /// Number of entries in this subtree, the entry itself included.
    pub open spec fn item_count(self) -> int
        decreases self,
    {
        1 + spec_children_count(self.children)
    }

    /// The aggregation invariant: every directory's `size` field equals the
    /// sum of its children's subtree totals, files carry no children, and the
    /// same holds recursively below.
    pub open spec fn sizes_ok(self) -> bool
        decreases self,
    {
        &&& (self.is_file ==> self.children.len() == 0)
        &&& (!self.is_file ==> self.size as int == spec_children_total(self.children))
        &&& forall|i: int| 0 <= i < self.children.len() ==> (#[trigger] self.children[i]).sizes_ok()
    }

    /// Where in this subtree the entry with the given path stands, if
    /// anywhere: the entry itself is checked first, then the children in
    /// order, depth first.
    pub open spec fn find(self, target: Seq<char>) -> Option<EntryView>
        decreases self,
    {
        if self.path == target {
            Some(self)
        } else {
            spec_find_children(self.children, target)
        }
    }
}

/// Sum of the subtree totals over a sequence of entries.
pub open spec fn spec_children_total(s: Seq<EntryView>) -> int
    decreases s,
{
    if s.len() == 0 {
        0
    } else {
        s[0].total_size() + spec_children_total(s.drop_first())
    }
}

/// Sum of the subtree item counts over a sequence of entries.
pub open spec fn spec_children_count(s: Seq<EntryView>) -> int
    decreases s,
{
    if s.len() == 0 {
        0
    } else {
        s[0].item_count() + spec_children_count(s.drop_first())
    }
}

/// First match of a depth-first path search over a sequence of entries.
pub open spec fn spec_find_children(s: Seq<EntryView>, target: Seq<char>) -> Option<EntryView>
    decreases s,
{
    if s.len() == 0 {
        None
    } else if s[0].find(target) is Some {
        s[0].find(target)
    } else {
        spec_find_children(s.drop_first(), target)
    }
}

/// A directory or file entry with size information.
///
/// For a file, `size` is its own length in bytes; for a directory, `size`
/// caches the sum of the children's rolled-up totals (see
/// `EntryView::sizes_ok`).
#[derive(Debug)]
pub struct DirEntry {
    pub path: String,
    pub name: String,
    pub size: u64,
    pub file_type: FileType,
    pub children: Vec<DirEntry>,
    pub is_file: bool,
}

/// The shape that a `DirEntry` stands for.
pub open spec fn view_of(e: DirEntry) -> EntryView
    decreases e,
{
    EntryView {
        path: e.path@,
        name: e.name@,
        size: e.size,
        file_type: e.file_type,
        children: views_of(e.children@),
        is_file: e.is_file,
    }
}

/// The shapes of a sequence of entries, in order.
pub open spec fn views_of(s: Seq<DirEntry>) -> Seq<EntryView>
    decreases s,
{
    if s.len() == 0 {
        Seq::empty()
    } else {
        seq![view_of(s[0])] + views_of(s.drop_first())
    }
}

impl View for DirEntry {
    type V = EntryView;

    open spec fn view(&self) -> EntryView {
        view_of(*self)
    }
}

pub broadcast proof fn lemma_views_of_len(s: Seq<DirEntry>)
    ensures
        (#[trigger] views_of(s)).len() == s.len(),
    decreases s,
{
    if s.len() > 0 {
        lemma_views_of_len(s.drop_first());
    }
}

pub broadcast proof fn lemma_views_of_index(s: Seq<DirEntry>, i: int)
    requires
        0 <= i < s.len(),
    ensures
        #[trigger] views_of(s)[i] == view_of(s[i]),
    decreases s,
{
    lemma_views_of_len(s);
    if i > 0 {
        lemma_views_of_index(s.drop_first(), i - 1);
    }
}

/// Subtree totals are never negative.
pub proof fn lemma_total_nonneg(e: EntryView)
    ensures
        e.total_size() >= 0,
    decreases e,
{
    if !e.is_file {
        lemma_children_total_nonneg(e.children);
    }
}

/// A sum of subtree totals is never negative.
pub proof fn lemma_children_total_nonneg(s: Seq<EntryView>)
    ensures
        spec_children_total(s) >= 0,
    decreases s,
{
    if s.len() > 0 {
        lemma_total_nonneg(s[0]);
        lemma_children_total_nonneg(s.drop_first());
    }
}

/// Subtree item counts are always positive.
pub proof fn lemma_count_pos(e: EntryView)
    ensures
        e.item_count() >= 1,
    decreases e,
{
    lemma_children_count_nonneg(e.children);
}

/// A sum of subtree item counts is never negative.
pub proof fn lemma_children_count_nonneg(s: Seq<EntryView>)
    ensures
        spec_children_count(s) >= 0,
    decreases s,
{
    if s.len() > 0 {
        lemma_count_pos(s[0]);
        lemma_children_count_nonneg(s.drop_first());
    }
}

/// Appending one entry adds its total to the sum.
pub proof fn lemma_children_total_push(s: Seq<EntryView>, x: EntryView)
    ensures
        spec_children_total(s.push(x)) == spec_children_total(s) + x.total_size(),
    decreases s,
{
    if s.len() == 0 {
        assert(s.push(x).drop_first() =~= s);
    } else {
        assert(s.push(x).drop_first() =~= s.drop_first().push(x));
        lemma_children_total_push(s.drop_first(), x);
    }
}

/// Appending one entry adds its item count to the sum.
pub proof fn lemma_children_count_push(s: Seq<EntryView>, x: EntryView)
    ensures
        spec_children_count(s.push(x)) == spec_children_count(s) + x.item_count(),
    decreases s,
{
    if s.len() == 0 {
        assert(s.push(x).drop_first() =~= s);
    } else {
        assert(s.push(x).drop_first() =~= s.drop_first().push(x));
        lemma_children_count_push(s.drop_first(), x);
    }
}

/// A sum of subtree totals splits at any index.
pub proof fn lemma_children_total_split(s: Seq<EntryView>, i: int)
    requires
        0 <= i <= s.len(),
    ensures
        spec_children_total(s) == spec_children_total(s.take(i)) + spec_children_total(s.skip(i)),
    decreases i,
{
    if i == 0 {
        assert(s.take(0) =~= Seq::<EntryView>::empty());
        assert(s.skip(0) =~= s);
    } else {
        lemma_children_total_split(s, i - 1);
        assert(s.take(i) =~= s.take(i - 1).push(s[i - 1]));
        lemma_children_total_push(s.take(i - 1), s[i - 1]);
        assert(s.skip(i - 1).drop_first() =~= s.skip(i));
        assert(spec_children_total(s.skip(i - 1))
            == s[i - 1].total_size() + spec_children_total(s.skip(i)));
    }
}

/// A sum of subtree item counts splits at any index.
pub proof fn lemma_children_count_split(s: Seq<EntryView>, i: int)
    requires
        0 <= i <= s.len(),
    ensures
        spec_children_count(s) == spec_children_count(s.take(i)) + spec_children_count(s.skip(i)),
    decreases i,
{
    if i == 0 {
        assert(s.take(0) =~= Seq::<EntryView>::empty());
        assert(s.skip(0) =~= s);
    } else {
        lemma_children_count_split(s, i - 1);
        assert(s.take(i) =~= s.take(i - 1).push(s[i - 1]));
        lemma_children_count_push(s.take(i - 1), s[i - 1]);
        assert(s.skip(i - 1).drop_first() =~= s.skip(i));
        assert(spec_children_count(s.skip(i - 1))
            == s[i - 1].item_count() + spec_children_count(s.skip(i)));
    }
}

/// One child's total never exceeds the sum over the whole sequence.
pub proof fn lemma_child_total_le(s: Seq<EntryView>, i: int)
    requires
        0 <= i < s.len(),
    ensures
        s[i].total_size() <= spec_children_total(s),
{
    lemma_children_total_split(s, i);
    lemma_children_total_nonneg(s.take(i));
    lemma_children_total_nonneg(s.skip(i).drop_first());
    assert(s.skip(i).drop_first() =~= s.skip(i + 1));
    assert(spec_children_total(s.skip(i))
        == s[i].total_size() + spec_children_total(s.skip(i).drop_first()));
}


/// A sum of subtree totals distributes over concatenation.
pub proof fn lemma_children_total_concat(a: Seq<EntryView>, b: Seq<EntryView>)
    ensures
        spec_children_total(a + b) == spec_children_total(a) + spec_children_total(b),
{
    lemma_children_total_split(a + b, a.len() as int);
    assert((a + b).take(a.len() as int) =~= a);
    assert((a + b).skip(a.len() as int) =~= b);
}

/// A sum of subtree item counts distributes over concatenation.
pub proof fn lemma_children_count_concat(a: Seq<EntryView>, b: Seq<EntryView>)
    ensures
        spec_children_count(a + b) == spec_children_count(a) + spec_children_count(b),
{
    lemma_children_count_split(a + b, a.len() as int);
    assert((a + b).take(a.len() as int) =~= a);
    assert((a + b).skip(a.len() as int) =~= b);
}




impl EntryView {
    /// The path invariant of the tree: every child's path is the parent's
    /// path plus exactly one component, no two siblings share a path, and
    /// the same holds recursively below. Together these make every path in
    /// the tree unique (see `lemma_paths_unique`).
    pub open spec fn paths_wf(self) -> bool
        decreases self,
    {
        &&& forall|i: int|
            0 <= i < self.children.len() ==> crate::text::spec_is_path_child(
                self.path,
                (#[trigger] self.children[i]).path,
            )
        &&& forall|i: int|
            0 <= i < self.children.len() ==> (#[trigger] self.children[i]).paths_wf()
        &&& forall|i: int, j: int|
            0 <= i < j < self.children.len() ==> (#[trigger] self.children[i]).path != (
            #[trigger] self.children[j]).path
    }

    /// How many entries of this subtree carry the path `q`.
    pub open spec fn count_path(self, q: Seq<char>) -> int
        decreases self,
    {
        (if self.path == q {
            1int
        } else {
            0int
        }) + spec_count_path_children(self.children, q)
    }
}

/// Sum of the path counts over a sequence of entries.
pub open spec fn spec_count_path_children(s: Seq<EntryView>, q: Seq<char>) -> int
    decreases s,
{
    if s.len() == 0 {
        0
    } else {
        s[0].count_path(q) + spec_count_path_children(s.drop_first(), q)
    }
}

pub proof fn lemma_count_path_nonneg(e: EntryView, q: Seq<char>)
    ensures
        e.count_path(q) >= 0,
    decreases e,
{
    lemma_count_path_children_nonneg(e.children, q);
}

pub proof fn lemma_count_path_children_nonneg(s: Seq<EntryView>, q: Seq<char>)
    ensures
        spec_count_path_children(s, q) >= 0,
    decreases s,
{
    if s.len() > 0 {
        lemma_count_path_nonneg(s[0], q);
        lemma_count_path_children_nonneg(s.drop_first(), q);
    }
}

/// A positive count over the children singles out some child subtree.
pub proof fn lemma_count_children_pos(s: Seq<EntryView>, q: Seq<char>)
    ensures
        spec_count_path_children(s, q) > 0 <==> exists|i: int|
            0 <= i < s.len() && (#[trigger] s[i]).count_path(q) > 0,
    decreases s,
{
    if s.len() > 0 {
        lemma_count_path_nonneg(s[0], q);
        lemma_count_path_children_nonneg(s.drop_first(), q);
        lemma_count_children_pos(s.drop_first(), q);
        if s[0].count_path(q) > 0 {
        } else if spec_count_path_children(s.drop_first(), q) > 0 {
            let j = choose|j: int|
                0 <= j < s.drop_first().len() && (#[trigger] s.drop_first()[j]).count_path(q) > 0;
            assert(s[j + 1].count_path(q) > 0);
        } else {
            assert forall|i: int| 0 <= i < s.len() implies !((#[trigger] s[i]).count_path(q) > 0)
                by {
                if i > 0 {
                    assert(s.drop_first()[i - 1] == s[i]);
                }
            }
        }
    }
}

/// Every path that occurs in a well-formed tree is the root's path or lies
/// below it.
pub proof fn lemma_count_path_shape(e: EntryView, q: Seq<char>)
    requires
        e.paths_wf(),
        e.count_path(q) > 0,
    ensures
        q == e.path || crate::text::spec_path_under(e.path, q),
    decreases e,
{
    if e.path == q {
    } else {
        lemma_count_children_pos(e.children, q);
        let i = choose|i: int|
            0 <= i < e.children.len() && (#[trigger] e.children[i]).count_path(q) > 0;
        lemma_count_path_shape(e.children[i], q);
        if q == e.children[i].path {
            crate::text::lemma_path_child_under(e.path, e.children[i].path);
        } else {
            crate::text::lemma_path_under_trans(e.path, e.children[i].path, q);
        }
    }
}

/// Every path that a well-formed tree resolves is the root's path or lies
/// below it.
pub proof fn lemma_find_shape(e: EntryView, q: Seq<char>)
    requires
        e.paths_wf(),
        e.find(q) is Some,
    ensures
        q == e.path || crate::text::spec_path_under(e.path, q),
    decreases e,
{
    if e.path == q {
    } else {
        lemma_find_children_shape(e.children, q, e.path);
    }
}

proof fn lemma_find_children_shape(s: Seq<EntryView>, q: Seq<char>, p: Seq<char>)
    requires
        forall|i: int| 0 <= i < s.len() ==> (#[trigger] s[i]).paths_wf(),
        forall|i: int|
            0 <= i < s.len() ==> crate::text::spec_is_path_child(p, (#[trigger] s[i]).path),
        spec_find_children(s, q) is Some,
    ensures
        crate::text::spec_path_under(p, q),
    decreases s,
{
    if s[0].find(q) is Some {
        lemma_find_shape(s[0], q);
        if q == s[0].path {
            crate::text::lemma_path_child_under(p, s[0].path);
        } else {
            crate::text::lemma_path_under_trans(p, s[0].path, q);
        }
    } else {
        assert(forall|i: int|
            0 <= i < s.drop_first().len() ==> (#[trigger] s.drop_first()[i]) == s[i + 1]);
        lemma_find_children_shape(s.drop_first(), q, p);
    }
}

/// The uniqueness of paths: in a tree with the path invariant, no path
/// occurs at more than one entry.
pub proof fn lemma_paths_unique(e: EntryView, q: Seq<char>)
    requires
        e.paths_wf(),
    ensures
        e.count_path(q) <= 1,
    decreases e,
{
    lemma_count_path_children_nonneg(e.children, q);
    if e.path == q {
        // nothing below the root can carry the root's own path
        if spec_count_path_children(e.children, q) > 0 {
            lemma_count_children_pos(e.children, q);
            let i = choose|i: int|
                0 <= i < e.children.len() && (#[trigger] e.children[i]).count_path(q) > 0;
            lemma_count_path_shape(e.children[i], q);
            crate::text::lemma_path_child_under(e.path, e.children[i].path);
            if q != e.children[i].path {
                crate::text::lemma_path_under_trans(e.path, e.children[i].path, q);
            }
            assert(false);
        }
    } else {
        lemma_count_children_unique(e.children, q, e.path);
    }
}

/// At most one child subtree of one parent can hold a given path, and it
/// holds it at most once.
proof fn lemma_count_children_unique(s: Seq<EntryView>, q: Seq<char>, p: Seq<char>)
    requires
        forall|i: int| 0 <= i < s.len() ==> (#[trigger] s[i]).paths_wf(),
        forall|i: int|
            0 <= i < s.len() ==> crate::text::spec_is_path_child(p, (#[trigger] s[i]).path),
        forall|i: int, j: int|
            0 <= i < j < s.len() ==> (#[trigger] s[i]).path != (#[trigger] s[j]).path,
    ensures
        spec_count_path_children(s, q) <= 1,
    decreases s,
{
    if s.len() > 0 {
        lemma_paths_unique(s[0], q);
        lemma_count_path_nonneg(s[0], q);
        lemma_count_path_children_nonneg(s.drop_first(), q);
        assert(forall|i: int|
            0 <= i < s.drop_first().len() ==> (#[trigger] s.drop_first()[i]) == s[i + 1]);
        lemma_count_children_unique(s.drop_first(), q, p);
        if s[0].count_path(q) > 0 && spec_count_path_children(s.drop_first(), q) > 0 {
            lemma_count_path_shape(s[0], q);
            lemma_count_children_pos(s.drop_first(), q);
            let j = choose|j: int|
                0 <= j < s.drop_first().len() && (#[trigger] s.drop_first()[j]).count_path(q) > 0;
            lemma_count_path_shape(s[j + 1], q);
            crate::text::lemma_path_siblings_separate(p, s[0].path, s[j + 1].path, q);
            assert(false);
        }
    }
}

/// Appending one entry appends its shape to the views.
pub proof fn lemma_views_of_push(s: Seq<DirEntry>, x: DirEntry)
    ensures
        views_of(s.push(x)) == views_of(s).push(view_of(x)),
    decreases s,
{
    if s.len() == 0 {
        assert(s.push(x)[0] == x);
        assert(s.push(x).drop_first() =~= Seq::<DirEntry>::empty());
        assert(views_of(Seq::<DirEntry>::empty()) =~= Seq::<EntryView>::empty());
        assert(views_of(s) =~= Seq::<EntryView>::empty());
        assert(views_of(s.push(x)) =~= views_of(s).push(view_of(x)));
    } else {
        assert(s.push(x).drop_first() =~= s.drop_first().push(x));
        lemma_views_of_push(s.drop_first(), x);
        assert(s.push(x)[0] == s[0]);
        assert(views_of(s.push(x)) =~= views_of(s).push(view_of(x)));
    }
}

/// An entry's item count is one for the entry itself plus the sum of its
/// children's item counts.
pub proof fn lemma_item_count_decomposition(e: EntryView)
    ensures
        e.item_count() == 1 + spec_children_count(e.children),
{
}

/// Under the aggregation invariant an entry's subtree total is exactly its
/// own `size` field, for files and directories alike.
pub proof fn lemma_sizes_ok_total(e: EntryView)
    requires
        e.sizes_ok(),
    ensures
        e.total_size() == e.size as int,
{
}

/// Appending one entry to a search that found nothing makes its own result
/// the result of the whole.
pub proof fn lemma_find_children_push(s: Seq<EntryView>, x: EntryView, target: Seq<char>)
    requires
        spec_find_children(s, target) is None,
    ensures
        spec_find_children(s.push(x), target) == x.find(target),
    decreases s,
{
    if s.len() == 0 {
        assert(s.push(x)[0] == x);
        assert(s.push(x).drop_first() =~= s);
    } else {
        assert(s.push(x).drop_first() =~= s.drop_first().push(x));
        lemma_find_children_push(s.drop_first(), x, target);
    }
}

/// Once a prefix of the children yields a match, the whole sequence yields
/// that same match.
pub proof fn lemma_find_children_extend(s: Seq<EntryView>, i: int, target: Seq<char>)
    requires
        0 < i <= s.len(),
        spec_find_children(s.take(i), target) is Some,
    ensures
        spec_find_children(s, target) == spec_find_children(s.take(i), target),
    decreases s,
{
    if s[0].find(target) is Some {
        assert(s.take(i)[0] == s[0]);
    } else {
        assert(s.take(i)[0] == s[0]);
        if i == 1 {
            assert(s.take(1).drop_first() =~= Seq::<EntryView>::empty());
        } else {
            assert(s.take(i).drop_first() =~= s.drop_first().take(i - 1));
            lemma_find_children_extend(s.drop_first(), i - 1, target);
        }
    }
}

impl DirEntry {
    /// Calculate total size including all children.
    pub fn total_size(&self) -> (r: u64)
        requires
            self@.total_size() <= u64::MAX,
        ensures
            r as int == self@.total_size(),
        decreases *self,
    {
        if self.is_file {
            self.size
        } else {
            let ghost cs = self@.children;
            let mut sum: u64 = 0;
            let mut i: usize = 0;
            proof {
                lemma_views_of_len(self.children@);
                lemma_total_nonneg(self@);
                assert(cs.take(0) =~= Seq::<EntryView>::empty());
            }
            while i < self.children.len()
                invariant
                    i <= self.children@.len(),
                    cs == self@.children,
                    cs == views_of(self.children@),
                    self@.total_size() <= u64::MAX,
                    !self.is_file,
                    sum as int == spec_children_total(cs.take(i as int)),
                decreases self.children@.len() - i,
            {
                let c = &self.children[i];
                proof {
                    lemma_views_of_len(self.children@);
                    lemma_views_of_index(self.children@, i as int);
                    assert(c@ == cs[i as int]);
                    lemma_child_total_le(cs, i as int);
                    lemma_total_nonneg(c@);
                    lemma_children_total_split(cs, i as int);
                    lemma_children_total_nonneg(cs.take(i as int));
                    lemma_children_total_nonneg(cs.skip(i as int + 1));
                    assert(cs.skip(i as int).drop_first() =~= cs.skip(i as int + 1));
                    assert(spec_children_total(cs.skip(i as int)) == c@.total_size()
                        + spec_children_total(cs.skip(i as int + 1)));
                    assert(decreases_to!(*self => self.children));
                }
                let ct = c.total_size();
                proof {
                    assert(cs.take(i as int + 1) =~= cs.take(i as int).push(cs[i as int]));
                    lemma_children_total_push(cs.take(i as int), cs[i as int]);
                }
                sum = sum + ct;
                i = i + 1;
            }
            proof {
                assert(cs.take(cs.len() as int) =~= cs);
            }
            sum
        }
    }

    /// Get the number of items (files + directories) including self.
    pub fn item_count(&self) -> (r: usize)
        requires
            self@.item_count() <= usize::MAX,
        ensures
            r as int == self@.item_count(),
        decreases *self,
    {
        let ghost cs = self@.children;
        let mut sum: usize = 1;
        let mut i: usize = 0;
        proof {
            lemma_views_of_len(self.children@);
            assert(cs.take(0) =~= Seq::<EntryView>::empty());
        }
        while i < self.children.len()
            invariant
                i <= self.children@.len(),
                cs == self@.children,
                cs == views_of(self.children@),
                self@.item_count() <= usize::MAX,
                sum as int == 1 + spec_children_count(cs.take(i as int)),
            decreases self.children@.len() - i,
        {
            let c = &self.children[i];
            proof {
                lemma_views_of_len(self.children@);
                lemma_views_of_index(self.children@, i as int);
                assert(c@ == cs[i as int]);
                lemma_children_count_split(cs, i as int);
                lemma_children_count_nonneg(cs.take(i as int));
                lemma_children_count_nonneg(cs.skip(i as int + 1));
                lemma_count_pos(c@);
                assert(cs.skip(i as int).drop_first() =~= cs.skip(i as int + 1));
                assert(spec_children_count(cs.skip(i as int)) == c@.item_count()
                    + spec_children_count(cs.skip(i as int + 1)));
                assert(decreases_to!(*self => self.children));
            }
            let cc = c.item_count();
            proof {
                assert(cs.take(i as int + 1) =~= cs.take(i as int).push(cs[i as int]));
                lemma_children_count_push(cs.take(i as int), cs[i as int]);
            }
            sum = sum + cc;
            i = i + 1;
        }
        proof {
            assert(cs.take(cs.len() as int) =~= cs);
        }
        sum
    }

    /// Find entry by path.
    pub fn find_by_path(&self, target: &String) -> (r: Option<&DirEntry>)
        ensures
            match r {
                Some(e) => self@.find(target@) == Some(e@),
                None => self@.find(target@) is None,
            },
        decreases *self,
    {
        if self.path == *target {
            return Some(self);
        }
        let ghost cs = self@.children;
        let mut i: usize = 0;
        proof {
            lemma_views_of_len(self.children@);
            assert(cs.take(0) =~= Seq::<EntryView>::empty());
        }
        while i < self.children.len()
            invariant
                i <= self.children@.len(),
                cs == self@.children,
                cs == views_of(self.children@),
                self.path@ != target@,
                spec_find_children(cs.take(i as int), target@) is None,
            decreases self.children@.len() - i,
        {
            proof {
                lemma_views_of_len(self.children@);
                lemma_views_of_index(self.children@, i as int);
                assert(self.children[i as int]@ == cs[i as int]);
                assert(decreases_to!(*self => self.children));
            }
            let found = self.children[i].find_by_path(target);
            proof {
                assert(cs.take(i as int + 1) =~= cs.take(i as int).push(cs[i as int]));
                lemma_find_children_push(cs.take(i as int), cs[i as int], target@);
            }
            match found {
                Some(f) => {
                    proof {
                        lemma_find_children_extend(cs, i as int + 1, target@);
                    }
                    return Some(f);
                },
                None => {},
            }
            i = i + 1;
        }
        proof {
            assert(cs.take(cs.len() as int) =~= cs);
        }
        None
    }
}

/// ASCII lowercasing of one character.
pub open spec fn spec_lower_char(c: char) -> char {
    match c {
        'A' => 'a',
        'B' => 'b',
        'C' => 'c',
        'D' => 'd',
        'E' => 'e',
        'F' => 'f',
        'G' => 'g',
        'H' => 'h',
        'I' => 'i',
        'J' => 'j',
        'K' => 'k',
        'L' => 'l',
        'M' => 'm',
        'N' => 'n',
        'O' => 'o',
        'P' => 'p',
        'Q' => 'q',
        'R' => 'r',
        'S' => 's',
        'T' => 't',
        'U' => 'u',
        'V' => 'v',
        'W' => 'w',
        'X' => 'x',
        'Y' => 'y',
        'Z' => 'z',
        _ => c,
    }
}

/// ASCII lowercasing of a character sequence.
pub open spec fn spec_lower(s: Seq<char>) -> Seq<char> {
    Seq::new(s.len(), |i: int| spec_lower_char(s[i]))
}

/// ASCII lowercasing of one character, as `spec_lower_char` states it.
fn lower_char(c: char) -> (r: char)
    ensures
        r == spec_lower_char(c),
{
    match c {
        'A' => 'a',
        'B' => 'b',
        'C' => 'c',
        'D' => 'd',
        'E' => 'e',
        'F' => 'f',
        'G' => 'g',
        'H' => 'h',
        'I' => 'i',
        'J' => 'j',
        'K' => 'k',
        'L' => 'l',
        'M' => 'm',
        'N' => 'n',
        'O' => 'o',
        'P' => 'p',
        'Q' => 'q',
        'R' => 'r',
        'S' => 's',
        'T' => 't',
        'U' => 'u',
        'V' => 'v',
        'W' => 'w',
        'X' => 'x',
        'Y' => 'y',
        'Z' => 'z',
        _ => c,
    }
}

/// Whether `ext`, lowercased, reads exactly as `lit`.
fn ext_matches(ext: &str, lit: &str) -> (r: bool)
    ensures
        r == (spec_lower(ext@) == lit@),
{
    let ne = ext.unicode_len();
    let nl = lit.unicode_len();
    if ne != nl {
        proof {
            assert(spec_lower(ext@).len() != lit@.len());
        }
        return false;
    }
    let mut i: usize = 0;
    while i < ne
        invariant
            i <= ne,
            ne as int == ext@.len(),
            ne as int == lit@.len(),
            forall|j: int| 0 <= j < i ==> spec_lower(ext@)[j] == lit@[j],
        decreases ne - i,
    {
        if lower_char(ext.get_char(i)) != lit.get_char(i) {
            proof {
                assert(spec_lower(ext@)[i as int] != lit@[i as int]);
            }
            return false;
        }
        i = i + 1;
    }
    proof {
        assert(spec_lower(ext@) =~= lit@);
    }
    true
}

/// The file type that an extension (compared case-insensitively) maps to.
pub open spec fn spec_file_type_of_ext(ext: Seq<char>) -> FileType {
    let l = spec_lower(ext);
    if ({
        ||| l == "mp4"@
        ||| l == "mkv"@
        ||| l == "avi"@
        ||| l == "mov"@
        ||| l == "wmv"@
        ||| l == "flv"@
        ||| l == "webm"@
        ||| l == "m4v"@
        ||| l == "mpeg"@
        ||| l == "mpg"@
    }) {
        FileType::Video
    } else     if ({
        ||| l == "jpg"@
        ||| l == "jpeg"@
        ||| l == "png"@
        ||| l == "gif"@
        ||| l == "bmp"@
        ||| l == "svg"@
        ||| l == "webp"@
        ||| l == "ico"@
        ||| l == "tiff"@
        ||| l == "raw"@
    }) {
        FileType::Image
    } else     if ({
        ||| l == "mp3"@
        ||| l == "flac"@
        ||| l == "wav"@
        ||| l == "aac"@
        ||| l == "ogg"@
        ||| l == "wma"@
        ||| l == "m4a"@
        ||| l == "opus"@
    }) {
        FileType::Audio
    } else     if ({
        ||| l == "zip"@
        ||| l == "tar"@
        ||| l == "gz"@
        ||| l == "bz2"@
        ||| l == "xz"@
        ||| l == "7z"@
        ||| l == "rar"@
        ||| l == "zst"@
        ||| l == "lz4"@
    }) {
        FileType::Archive
    } else     if ({
        ||| l == "pdf"@
        ||| l == "doc"@
        ||| l == "docx"@
        ||| l == "txt"@
        ||| l == "rtf"@
        ||| l == "odt"@
        ||| l == "xls"@
        ||| l == "xlsx"@
        ||| l == "ppt"@
        ||| l == "pptx"@
    }) {
        FileType::Document
    } else     if ({
        ||| l == "rs"@
        ||| l == "py"@
        ||| l == "js"@
        ||| l == "ts"@
        ||| l == "c"@
        ||| l == "cpp"@
        ||| l == "h"@
        ||| l == "java"@
        ||| l == "go"@
        ||| l == "rb"@
        ||| l == "php"@
        ||| l == "sh"@
        ||| l == "bash"@
        ||| l == "zsh"@
        ||| l == "json"@
        ||| l == "yaml"@
        ||| l == "yml"@
        ||| l == "toml"@
        ||| l == "xml"@
        ||| l == "html"@
        ||| l == "css"@
        ||| l == "scss"@
        ||| l == "md"@
        ||| l == "sql"@
    }) {
        FileType::Code
    } else {
        FileType::Other
    }
}

impl FileType {
    /// Determine file type from extension.
    pub fn from_extension(ext: &str) -> (r: FileType)
        ensures
            r == spec_file_type_of_ext(ext@),
    {
        if ext_matches(ext, "mp4")
            || ext_matches(ext, "mkv")
            || ext_matches(ext, "avi")
            || ext_matches(ext, "mov")
            || ext_matches(ext, "wmv")
            || ext_matches(ext, "flv")
            || ext_matches(ext, "webm")
            || ext_matches(ext, "m4v")
            || ext_matches(ext, "mpeg")
            || ext_matches(ext, "mpg") {
            return FileType::Video;
        }
        if ext_matches(ext, "jpg")
            || ext_matches(ext, "jpeg")
            || ext_matches(ext, "png")
            || ext_matches(ext, "gif")
            || ext_matches(ext, "bmp")
            || ext_matches(ext, "svg")
            || ext_matches(ext, "webp")
            || ext_matches(ext, "ico")
            || ext_matches(ext, "tiff")
            || ext_matches(ext, "raw") {
            return FileType::Image;
        }
        if ext_matches(ext, "mp3")
            || ext_matches(ext, "flac")
            || ext_matches(ext, "wav")
            || ext_matches(ext, "aac")
            || ext_matches(ext, "ogg")
            || ext_matches(ext, "wma")
            || ext_matches(ext, "m4a")
            || ext_matches(ext, "opus") {
            return FileType::Audio;
        }
        if ext_matches(ext, "zip")
            || ext_matches(ext, "tar")
            || ext_matches(ext, "gz")
            || ext_matches(ext, "bz2")
            || ext_matches(ext, "xz")
            || ext_matches(ext, "7z")
            || ext_matches(ext, "rar")
            || ext_matches(ext, "zst")
            || ext_matches(ext, "lz4") {
            return FileType::Archive;
        }
        if ext_matches(ext, "pdf")
            || ext_matches(ext, "doc")
            || ext_matches(ext, "docx")
            || ext_matches(ext, "txt")
            || ext_matches(ext, "rtf")
            || ext_matches(ext, "odt")
            || ext_matches(ext, "xls")
            || ext_matches(ext, "xlsx")
            || ext_matches(ext, "ppt")
            || ext_matches(ext, "pptx") {
            return FileType::Document;
        }
        if ext_matches(ext, "rs")
            || ext_matches(ext, "py")
            || ext_matches(ext, "js")
            || ext_matches(ext, "ts")
            || ext_matches(ext, "c")
            || ext_matches(ext, "cpp")
            || ext_matches(ext, "h")
            || ext_matches(ext, "java")
            || ext_matches(ext, "go")
            || ext_matches(ext, "rb")
            || ext_matches(ext, "php")
            || ext_matches(ext, "sh")
            || ext_matches(ext, "bash")
            || ext_matches(ext, "zsh")
            || ext_matches(ext, "json")
            || ext_matches(ext, "yaml")
            || ext_matches(ext, "yml")
            || ext_matches(ext, "toml")
            || ext_matches(ext, "xml")
            || ext_matches(ext, "html")
            || ext_matches(ext, "css")
            || ext_matches(ext, "scss")
            || ext_matches(ext, "md")
            || ext_matches(ext, "sql") {
            return FileType::Code;
        }
        FileType::Other
    }
}

/// The file type that a whole path maps to: the extension of its display
/// name when one is present, else `Other`.
pub open spec fn spec_file_type_of_path(p: Seq<char>) -> FileType {
    let name = crate::text::spec_file_name(p);
    let i = crate::text::spec_last_index_of(name, '.');
    if i > 0 {
        spec_file_type_of_ext(name.skip(i + 1))
    } else {
        FileType::Other
    }
}

impl DirEntry {
    /// Create a new directory entry.
    pub fn new_dir(path: String) -> (r: DirEntry)
        ensures
            r.path == path,
            r.name@ == crate::text::spec_file_name(path@),
            r.size == 0,
            r.file_type == FileType::Directory,
            r@.children.len() == 0,
            !r.is_file,
            r@.sizes_ok(),
    {
        let name = crate::text::file_name_of(&path);
        DirEntry {
            path,
            name,
            size: 0,
            file_type: FileType::Directory,
            children: Vec::new(),
            is_file: false,
        }
    }

    /// Create a new file entry.
    pub fn new_file(path: String, size: u64) -> (r: DirEntry)
        ensures
            r.path == path,
            r.name@ == crate::text::spec_file_name(path@),
            r.size == size,
            r.file_type == spec_file_type_of_path(path@),
            r@.children.len() == 0,
            r.is_file,
            r@.sizes_ok(),
    {
        let name = crate::text::file_name_of(&path);
        proof {
            crate::text::lemma_last_index_of_bounds(name@, '.');
        }
        let file_type = match crate::text::last_char_index(name.as_str(), '.') {
            Some(i) => {
                if i > 0 {
                    let n = name.as_str().unicode_len();
                    let ext = name.as_str().substring_char(i + 1, n);
                    proof {
                        assert(name@.subrange(i as int + 1, n as int) =~= name@.skip(i as int + 1));
                    }
                    FileType::from_extension(ext)
                } else {
                    FileType::Other
                }
            },
            None => FileType::Other,
        };
        DirEntry {
            path,
            name,
            size,
            file_type,
            children: Vec::new(),
            is_file: true,
        }
    }

    /// Get parent path.
    pub fn parent_path(&self) -> (r: Option<String>)
        ensures
            match r {
                Some(q) => crate::text::spec_parent(self.path@) == Some(q@),
                None => crate::text::spec_parent(self.path@) is None,
            },
    {
        crate::text::parent_of(&self.path)
    }
}

/// The fixed set of system paths that deletion refuses to touch.
pub open spec fn spec_is_protected(p: Seq<char>) -> bool {
    ||| p == "/"@
    ||| p == "/usr"@
    ||| p == "/etc"@
    ||| p == "/bin"@
    ||| p == "/sbin"@
    ||| p == "/lib"@
    ||| p == "/lib64"@
    ||| p == "/boot"@
    ||| p == "/dev"@
    ||| p == "/proc"@
    ||| p == "/sys"@
    ||| p == "/run"@
    ||| p == "/var"@
    ||| p == "/root"@
}

/// Check if a path is protected from deletion.
pub fn is_protected_path(path: &String) -> (r: bool)
    ensures
        r == spec_is_protected(path@),
{
    crate::text::str_eq(path.as_str(), "/")
        || crate::text::str_eq(path.as_str(), "/usr")
        || crate::text::str_eq(path.as_str(), "/etc")
        || crate::text::str_eq(path.as_str(), "/bin")
        || crate::text::str_eq(path.as_str(), "/sbin")
        || crate::text::str_eq(path.as_str(), "/lib")
        || crate::text::str_eq(path.as_str(), "/lib64")
        || crate::text::str_eq(path.as_str(), "/boot")
        || crate::text::str_eq(path.as_str(), "/dev")
        || crate::text::str_eq(path.as_str(), "/proc")
        || crate::text::str_eq(path.as_str(), "/sys")
        || crate::text::str_eq(path.as_str(), "/run")
        || crate::text::str_eq(path.as_str(), "/var")
        || crate::text::str_eq(path.as_str(), "/root")
}

} // verus!

