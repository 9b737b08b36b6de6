//! Sunburst layout: turn a tree into angle-annotated ring segments, and map
//! a polar point back to the segment occupying it.
//!
//! Angles are exact integers in hundred-millionths of a radian, so the full
//! turn is `FULL_TURN` units and the layout arithmetic carries no rounding
//! beyond one floor division per boundary. Each child's boundaries are placed
//! at the true proportional positions of the cumulative sizes, so a pruned
//! sliver leaves a gap and never shifts its siblings.
use crate::model::lemma_children_total_nonneg;
use crate::model::lemma_children_total_push;
use crate::model::lemma_children_total_split;
use crate::model::lemma_total_nonneg;
use crate::model::lemma_views_of_index;
use crate::model::lemma_views_of_len;
use crate::model::spec_children_total;
use crate::model::views_of;
use crate::model::DirEntry;
use crate::model::EntryView;
use crate::model::FileType;
use vstd::prelude::*;

verus! {

/// Maximum depth of rings to display.
pub const MAX_DEPTH: usize = 5;

/// One full turn, in hundred-millionths of a radian (2 pi times ten to the
/// eighth, truncated).
pub const FULL_TURN: u64 = 628_318_530;

/// Minimum angular span for a segment to be kept, in the same units: a
/// hundredth of a radian.
pub const MIN_ANGLE: u64 = 1_000_000;

/// A segment in the sunburst chart. Angles are in hundred-millionths of a
/// radian, measured from the zero axis, and each segment covers the
/// half-open interval `[start_angle, end_angle)` on its ring.
#[derive(Debug, Clone)]
pub struct Segment {
    pub path: String,
    pub name: String,
    pub size: u64,
    pub file_type: FileType,
    pub depth: usize,
    pub start_angle: u64,
    pub end_angle: u64,
    pub is_file: bool,
}

/// The mathematical shape of a segment.
#[verifier::ext_equal]
pub struct SegView {
    pub path: Seq<char>,
    pub name: Seq<char>,
    pub size: u64,
    pub file_type: FileType,
    pub depth: int,
    pub start_angle: int,
    pub end_angle: int,
    pub is_file: bool,
}

impl View for Segment {
    type V = SegView;

    open spec fn view(&self) -> SegView {
        SegView {
            path: self.path@,
            name: self.name@,
            size: self.size,
            file_type: self.file_type,
            depth: self.depth as int,
            start_angle: self.start_angle as int,
            end_angle: self.end_angle as int,
            is_file: self.is_file,
        }
    }
}

/// The shapes of a sequence of segments, in order.
pub open spec fn segviews_of(s: Seq<Segment>) -> Seq<SegView>
    decreases s,
{
    if s.len() == 0 {
        Seq::empty()
    } else {
        seq![s[0]@] + segviews_of(s.drop_first())
    }
}

pub proof fn lemma_segviews_of_len(s: Seq<Segment>)
    ensures
        segviews_of(s).len() == s.len(),
    decreases s,
{
    if s.len() > 0 {
        lemma_segviews_of_len(s.drop_first());
    }
}

pub proof fn lemma_segviews_of_index(s: Seq<Segment>, i: int)
    requires
        0 <= i < s.len(),
    ensures
        segviews_of(s)[i] == s[i]@,
    decreases s,
{
    lemma_segviews_of_len(s);
    if i > 0 {
        lemma_segviews_of_index(s.drop_first(), i - 1);
    }
}

pub proof fn lemma_segviews_of_push(s: Seq<Segment>, x: Segment)
    ensures
        segviews_of(s.push(x)) == segviews_of(s).push(x@),
    decreases s,
{
    if s.len() == 0 {
        assert(s.push(x)[0] == x);
        assert(s.push(x).drop_first() =~= Seq::<Segment>::empty());
        assert(segviews_of(Seq::<Segment>::empty()) =~= Seq::<SegView>::empty());
        assert(segviews_of(s.push(x)) =~= segviews_of(s).push(x@));
    } else {
        assert(s.push(x).drop_first() =~= s.drop_first().push(x));
        lemma_segviews_of_push(s.drop_first(), x);
        assert(s.push(x)[0] == s[0]);
        assert(segviews_of(s.push(x)) =~= segviews_of(s).push(x@));
    }
}

/// The angular position that a cumulative size `cum` out of `total` maps to
/// inside a span of `range` units: the floor of the exact proportion.
pub open spec fn spec_pos(cum: int, range: int, total: int) -> int {
    (cum * range) / total
}

/// The proportional position lies between zero and the whole span.
pub proof fn lemma_pos_le(cum: int, range: int, total: int)
    requires
        0 <= cum <= total,
        0 < total,
        0 <= range,
    ensures
        0 <= spec_pos(cum, range, total) <= range,
{
    vstd::arithmetic::mul::lemma_mul_nonnegative(cum, range);
    vstd::arithmetic::mul::lemma_mul_inequality(cum, total, range);
    vstd::arithmetic::div_mod::lemma_div_is_ordered(0, cum * range, total);
    vstd::arithmetic::div_mod::lemma_div_is_ordered(cum * range, total * range, total);
    vstd::arithmetic::div_mod::lemma_div_multiples_vanish(range, total);
    assert(total * range == range * total) by (nonlinear_arith);
    assert((total * range) / total == range);
}

/// The proportional position never decreases as the cumulative size grows.
pub proof fn lemma_pos_monotone(c1: int, c2: int, range: int, total: int)
    requires
        c1 <= c2,
        0 < total,
        0 <= range,
    ensures
        spec_pos(c1, range, total) <= spec_pos(c2, range, total),
{
    vstd::arithmetic::mul::lemma_mul_inequality(c1, c2, range);
    vstd::arithmetic::div_mod::lemma_div_is_ordered(c1 * range, c2 * range, total);
}

/// The layout of one entry's subtree: segments for its children at ring
/// `depth` within the parent span `[s, e)`, and below them recursively, out
/// to ring `m`. `total` is the entry's subtree total; `cum` the sum of the
/// sizes of the children before `k`.
pub open spec fn spec_layout_children(
    cs: Seq<EntryView>,
    k: int,
    cum: int,
    depth: int,
    s: int,
    e: int,
    total: int,
    m: int,
) -> Seq<SegView>
    decreases cs, cs.len() - k,
{
    if k < 0 || k >= cs.len() {
        Seq::empty()
    } else {
        let sz = cs[k].total_size();
        let st = s + spec_pos(cum, e - s, total);
        let ed = s + spec_pos(cum + sz, e - s, total);
        let here = if ed - st >= MIN_ANGLE {
            let direct = SegView {
                path: cs[k].path,
                name: cs[k].name,
                size: sz as u64,
                file_type: cs[k].file_type,
                depth: depth,
                start_angle: st,
                end_angle: ed,
                is_file: cs[k].is_file,
            };
            let sub = if !cs[k].is_file && cs[k].children.len() > 0 {
                spec_layout_entry(cs[k], depth + 1, st, ed, sz, m)
            } else {
                Seq::empty()
            };
            seq![direct] + sub
        } else {
            Seq::empty()
        };
        here + spec_layout_children(cs, k + 1, cum + sz, depth, s, e, total, m)
    }
}

/// The segments below one entry, rings `depth` and deeper, inside `[s, e)`.
pub open spec fn spec_layout_entry(
    en: EntryView,
    depth: int,
    s: int,
    e: int,
    total: int,
    m: int,
) -> Seq<SegView>
    decreases en, 0int,
{
    if depth > m || total <= 0 {
        Seq::empty()
    } else {
        spec_layout_children(en.children, 0, 0, depth, s, e, total, m)
    }
}

/// The whole chart for a tree: one segment for the root spanning the full
/// circle, then its subtree out to ring `m`; an empty tree (total size zero)
/// has no segments at all.
pub open spec fn spec_build_segments(root: EntryView, m: int) -> Seq<SegView> {
    if root.total_size() <= 0 {
        Seq::empty()
    } else {
        seq![
            SegView {
                path: root.path,
                name: root.name,
                size: root.total_size() as u64,
                file_type: root.file_type,
                depth: 0,
                start_angle: 0,
                end_angle: FULL_TURN as int,
                is_file: root.is_file,
            },
        ] + spec_layout_entry(root, 1, 0, FULL_TURN as int, root.total_size(), m)
    }
}

/// Floor of `a * b / c`, computed without overflow.
fn mul_div(a: u64, b: u64, c: u64) -> (r: u64)
    requires
        c > 0,
        (a as int * b as int) / c as int <= u64::MAX,
    ensures
        r as int == (a as int * b as int) / c as int,
{
    proof {
        vstd::arithmetic::mul::lemma_mul_upper_bound(
            a as int,
            u64::MAX as int,
            b as int,
            u64::MAX as int,
        );
        assert(u64::MAX as int * u64::MAX as int == 340282366920938463426481119284349108225int)
            by (nonlinear_arith);
        vstd::arithmetic::div_mod::lemma_div_is_ordered(0, a as int * b as int, c as int);
    }
    (((a as u128) * (b as u128)) / (c as u128)) as u64
}

#[verifier::loop_isolation(false)]
fn build_segments_recursive(
    entry: &DirEntry,
    depth: usize,
    start_angle: u64,
    end_angle: u64,
    total: u64,
    max_depth: usize,
    segments: &mut Vec<Segment>,
)
    requires
        entry@.sizes_ok(),
        entry@.total_size() == total as int,
        total > 0,
        start_angle <= end_angle,
        end_angle <= FULL_TURN,
    ensures
        segviews_of(final(segments)@) == segviews_of(old(segments)@) + spec_layout_entry(
            entry@,
            depth as int,
            start_angle as int,
            end_angle as int,
            total as int,
            max_depth as int,
        ),
    decreases *entry,
{
    let ghost base = segviews_of(old(segments)@);
    let ghost cs = entry@.children;
    let ghost gs = start_angle as int;
    let ghost ge = end_angle as int;
    let ghost gt = total as int;
    let ghost gm = max_depth as int;
    let ghost gd = depth as int;
    if depth > max_depth {
        proof {
            assert(segviews_of(segments@) =~= base + spec_layout_entry(
                entry@,
                gd,
                gs,
                ge,
                gt,
                gm,
            ));
        }
        return ;
    }
    let range = end_angle - start_angle;
    let mut cum: u64 = 0;
    let mut i: usize = 0;
    proof {
        lemma_views_of_len(entry.children@);
        assert(cs.take(0) =~= Seq::<EntryView>::empty());
        lemma_children_total_nonneg(cs);
        if entry.is_file {
            assert(cs.len() == 0);
            assert(spec_layout_children(cs, 0, 0, gd, gs, ge, gt, gm) =~= Seq::<SegView>::empty());
        }
    }
    while i < entry.children.len()
        invariant
            i <= entry.children@.len(),
            cum as int == spec_children_total(cs.take(i as int)),
            cum <= total,
            segviews_of(segments@) + spec_layout_children(
                cs,
                i as int,
                cum as int,
                gd,
                gs,
                ge,
                gt,
                gm,
            ) == base + spec_layout_children(cs, 0, 0, gd, gs, ge, gt, gm),
        decreases entry.children@.len() - i,
    {
        let c = &entry.children[i];
        proof {
            lemma_views_of_index(entry.children@, i as int);
            assert(c@ == cs[i as int]);
            assert(cs[i as int].sizes_ok());
            lemma_total_nonneg(cs[i as int]);
            assert(!entry.is_file);
            lemma_children_total_split(cs, i as int);
            lemma_children_total_nonneg(cs.take(i as int));
            lemma_children_total_nonneg(cs.skip(i as int + 1));
            assert(cs.skip(i as int).drop_first() =~= cs.skip(i as int + 1));
            assert(spec_children_total(cs.skip(i as int)) == cs[i as int].total_size()
                + spec_children_total(cs.skip(i as int + 1)));
            assert(cs[i as int].total_size() <= gt);
        }
        let sz = c.total_size();
        proof {
            assert(cs.take(i as int + 1) =~= cs.take(i as int).push(cs[i as int]));
            lemma_children_total_push(cs.take(i as int), cs[i as int]);
            assert(cum as int + sz as int <= gt);
            lemma_pos_le(cum as int, range as int, gt);
            lemma_pos_le(cum as int + sz as int, range as int, gt);
            lemma_pos_monotone(cum as int, cum as int + sz as int, range as int, gt);
        }
        let st = start_angle + mul_div(cum, range, total);
        let ed = start_angle + mul_div(cum + sz, range, total);
        let ghost gst = gs + spec_pos(cum as int, ge - gs, gt);
        let ghost ged = gs + spec_pos(cum as int + sz as int, ge - gs, gt);
        proof {
            assert(st as int == gst);
            assert(ed as int == ged);
        }
        let span = ed - st;
        let ghost here = spec_layout_children(cs, i as int, cum as int, gd, gs, ge, gt, gm);
        let ghost rest = spec_layout_children(
            cs,
            i as int + 1,
            cum as int + sz as int,
            gd,
            gs,
            ge,
            gt,
            gm,
        );
        if span >= MIN_ANGLE {
            proof {
                if sz == 0 {
                    assert(ged == gst);
                }
                assert(sz > 0);
            }
            let ghost before_push = segments@;
            segments.push(
                Segment {
                    path: c.path.clone(),
                    name: c.name.clone(),
                    size: sz,
                    file_type: c.file_type,
                    depth,
                    start_angle: st,
                    end_angle: ed,
                    is_file: c.is_file,
                },
            );
            proof {
                lemma_segviews_of_push(before_push, segments@.last());
            }
            if !c.is_file && c.children.len() > 0 && depth < max_depth {
                proof {
                    assert(decreases_to!(*entry => entry.children));
                }
                build_segments_recursive(c, depth + 1, st, ed, sz, max_depth, segments);
            }
            proof {
                let direct = SegView {
                    path: cs[i as int].path,
                    name: cs[i as int].name,
                    size: cs[i as int].total_size() as u64,
                    file_type: cs[i as int].file_type,
                    depth: gd,
                    start_angle: gst,
                    end_angle: ged,
                    is_file: cs[i as int].is_file,
                };
                let sub = if !cs[i as int].is_file && cs[i as int].children.len() > 0 {
                    spec_layout_entry(cs[i as int], gd + 1, gst, ged, sz as int, gm)
                } else {
                    Seq::<SegView>::empty()
                };
                if !(!cs[i as int].is_file && cs[i as int].children.len() > 0 && gd < gm) {
                    assert(sub =~= Seq::<SegView>::empty());
                    assert(segviews_of(segments@) =~= segviews_of(before_push).push(direct));
                } else {
                }
                assert(here == (seq![direct] + sub) + rest);
                assert(segviews_of(segments@) =~= (segviews_of(before_push) + seq![direct]) + sub);
                assert(segviews_of(segments@) + rest =~= base + spec_layout_children(
                    cs,
                    0,
                    0,
                    gd,
                    gs,
                    ge,
                    gt,
                    gm,
                ));
            }
        } else {
            proof {
                assert(here =~= rest);
            }
        }
        cum = cum + sz;
        i = i + 1;
    }
    proof {
        assert(cs.take(cs.len() as int) =~= cs);
        assert(spec_layout_children(
            cs,
            cs.len() as int,
            cum as int,
            gd,
            gs,
            ge,
            gt,
            gm,
        ) =~= Seq::<SegView>::empty());
        assert(segviews_of(segments@) =~= base + spec_layout_entry(entry@, gd, gs, ge, gt, gm));
    }
}

/// Build segments from a tree: the root spans the full circle at ring zero
/// and each directory's span is divided among its children in proportion to
/// their subtree totals, dropping spans below the minimum angle.
pub fn build_segments(root: &DirEntry, max_depth: usize) -> (r: Vec<Segment>)
    requires
        root@.sizes_ok(),
    ensures
        segviews_of(r@) == spec_build_segments(root@, max_depth as int),
{
    let mut segments: Vec<Segment> = Vec::new();
    proof {
        crate::model::lemma_sizes_ok_total(root@);
        lemma_total_nonneg(root@);
        assert(segviews_of(segments@) =~= Seq::<SegView>::empty());
    }
    let total_size = root.total_size();
    if total_size == 0 {
        return segments;
    }
    let ghost before_push = segments@;
    segments.push(
        Segment {
            path: root.path.clone(),
            name: root.name.clone(),
            size: total_size,
            file_type: root.file_type,
            depth: 0,
            start_angle: 0,
            end_angle: FULL_TURN,
            is_file: root.is_file,
        },
    );
    proof {
        lemma_segviews_of_push(before_push, segments@.last());
    }
    build_segments_recursive(root, 1, 0, FULL_TURN, total_size, max_depth, &mut segments);
    proof {
        assert(segviews_of(segments@) =~= spec_build_segments(root@, max_depth as int));
    }
    segments
}


/// Every segment's half-open interval is nonempty and lies inside `[lo, hi]`.
pub open spec fn segs_in_range(q: Seq<SegView>, lo: int, hi: int) -> bool {
    forall|i: int|
        0 <= i < q.len() ==> lo <= (#[trigger] q[i]).start_angle < q[i].end_angle <= hi
}

/// Segments on one ring appear in increasing angular order and never
/// overlap: of two distinct same-depth segments, the earlier one ends no
/// later than the later one starts.
pub open spec fn segs_disjoint_per_depth(q: Seq<SegView>) -> bool {
    forall|i: int, j: int|
        0 <= i < j < q.len() && (#[trigger] q[i]).depth == (#[trigger] q[j]).depth
            ==> q[i].end_angle <= q[j].start_angle
}

/// All depths lie in `[d, m]`.
pub open spec fn segs_depth_between(q: Seq<SegView>, d: int, m: int) -> bool {
    forall|i: int| 0 <= i < q.len() ==> d <= (#[trigger] q[i]).depth <= m
}

/// Geometry of one entry's layout: every produced segment is a nonempty
/// sub-interval of the parent span, segments of one ring never overlap and
/// come in increasing angular order, and ring indices stay within bounds.
pub proof fn lemma_layout_entry_props(en: EntryView, depth: int, s: int, e: int, total: int, m: int)
    requires
        en.sizes_ok(),
        spec_children_total(en.children) <= total,
        s <= e,
    ensures
        segs_in_range(spec_layout_entry(en, depth, s, e, total, m), s, e),
        segs_disjoint_per_depth(spec_layout_entry(en, depth, s, e, total, m)),
        segs_depth_between(spec_layout_entry(en, depth, s, e, total, m), depth, m),
    decreases en, 0int,
{
    if depth > m || total <= 0 {
    } else {
        assert(en.children.skip(0) =~= en.children);
        lemma_layout_children_props(en.children, 0, 0, depth, s, e, total, m);
        assert(spec_pos(0, e - s, total) == 0) by {
            vstd::arithmetic::div_mod::lemma_div_is_ordered(0, 0, total);
            assert(0 * (e - s) == 0) by (nonlinear_arith);
            vstd::arithmetic::div_mod::lemma_basic_div(0, total);
            assert(0int / total == 0);
        }
    }
}

pub proof fn lemma_layout_children_props(
    cs: Seq<EntryView>,
    k: int,
    cum: int,
    depth: int,
    s: int,
    e: int,
    total: int,
    m: int,
)
    requires
        forall|i: int| 0 <= i < cs.len() ==> (#[trigger] cs[i]).sizes_ok(),
        0 <= cum,
        0 <= k,
        k <= cs.len() ==> cum + spec_children_total(cs.skip(k)) <= total,
        k > cs.len() ==> cum <= total,
        0 < total,
        s <= e,
        depth <= m,
    ensures
        segs_in_range(spec_layout_children(cs, k, cum, depth, s, e, total, m), s + spec_pos(
            cum,
            e - s,
            total,
        ), e),
        segs_disjoint_per_depth(spec_layout_children(cs, k, cum, depth, s, e, total, m)),
        segs_depth_between(spec_layout_children(cs, k, cum, depth, s, e, total, m), depth, m),
    decreases cs, cs.len() - k,
{
    if k <= cs.len() {
        lemma_children_total_nonneg(cs.skip(k));
    }
    lemma_pos_le(cum, e - s, total);
    if k >= cs.len() {
    } else {
        let sz = cs[k].total_size();
        let st = s + spec_pos(cum, e - s, total);
        let ed = s + spec_pos(cum + sz, e - s, total);
        assert(cs.skip(k).drop_first() =~= cs.skip(k + 1));
        assert(spec_children_total(cs.skip(k)) == sz + spec_children_total(cs.skip(k + 1)));
        lemma_total_nonneg(cs[k]);
        lemma_children_total_nonneg(cs.skip(k + 1));
        assert(cum + sz + spec_children_total(cs.skip(k + 1)) <= total);
        assert(cum + sz <= total);
        lemma_pos_le(cum + sz, e - s, total);
        lemma_pos_monotone(cum, cum + sz, e - s, total);
        assert(st <= ed <= e);
        lemma_layout_children_props(cs, k + 1, cum + sz, depth, s, e, total, m);
        let rest = spec_layout_children(cs, k + 1, cum + sz, depth, s, e, total, m);
        let q = spec_layout_children(cs, k, cum, depth, s, e, total, m);
        if ed - st >= MIN_ANGLE {
            let sub = if !cs[k].is_file && cs[k].children.len() > 0 {
                spec_layout_entry(cs[k], depth + 1, st, ed, sz, m)
            } else {
                Seq::<SegView>::empty()
            };
            if !cs[k].is_file && cs[k].children.len() > 0 {
                assert(spec_children_total(cs[k].children) <= sz);
                lemma_layout_entry_props(cs[k], depth + 1, st, ed, sz, m);
            }
            assert(segs_in_range(sub, st, ed));
            assert(segs_disjoint_per_depth(sub));
            assert(segs_depth_between(sub, depth + 1, m));
            let direct = q[0];
            assert(q == (seq![direct] + sub) + rest) by {
                assert(q =~= (seq![
                    SegView {
                        path: cs[k].path,
                        name: cs[k].name,
                        size: sz as u64,
                        file_type: cs[k].file_type,
                        depth: depth,
                        start_angle: st,
                        end_angle: ed,
                        is_file: cs[k].is_file,
                    },
                ] + sub) + rest);
            }
            let nsub = sub.len();
            assert forall|i: int| 0 <= i < q.len() implies s + spec_pos(cum, e - s, total) <= (
            #[trigger] q[i]).start_angle < q[i].end_angle <= e by {
                if i == 0 {
                } else if i < 1 + nsub {
                    assert(q[i] == sub[i - 1]);
                } else {
                    assert(q[i] == rest[i - 1 - nsub]);
                }
            }
            assert forall|i: int| 0 <= i < q.len() implies depth <= (#[trigger] q[i]).depth <= m
                by {
                if i == 0 {
                    assert(depth <= m);
                } else if i < 1 + nsub {
                    assert(q[i] == sub[i - 1]);
                } else {
                    assert(q[i] == rest[i - 1 - nsub]);
                }
            }
            assert forall|i: int, j: int|
                0 <= i < j < q.len() && (#[trigger] q[i]).depth == (#[trigger] q[j]).depth implies
                q[i].end_angle <= q[j].start_angle by {
                if i == 0 {
                    if j < 1 + nsub {
                        assert(q[j] == sub[j - 1]);
                        assert(q[j].depth >= depth + 1);
                        assert(false);
                    } else {
                        assert(q[j] == rest[j - 1 - nsub]);
                        assert(q[i].end_angle == ed);
                        assert(rest[j - 1 - nsub].start_angle >= s + spec_pos(
                            cum + sz,
                            e - s,
                            total,
                        ));
                    }
                } else if i < 1 + nsub {
                    assert(q[i] == sub[i - 1]);
                    if j < 1 + nsub {
                        assert(q[j] == sub[j - 1]);
                    } else {
                        assert(q[j] == rest[j - 1 - nsub]);
                        assert(q[i].end_angle <= ed);
                        assert(rest[j - 1 - nsub].start_angle >= s + spec_pos(
                            cum + sz,
                            e - s,
                            total,
                        ));
                    }
                } else {
                    assert(q[i] == rest[i - 1 - nsub]);
                    assert(q[j] == rest[j - 1 - nsub]);
                }
            }
        } else {
            assert(q =~= rest);
        }
    }
}

/// The chart as a whole: segments of one ring never overlap, each is a
/// nonempty interval inside the full turn, and ring indices run from the
/// root's ring out to the requested depth.
pub proof fn lemma_build_segments_props(root: EntryView, m: int)
    requires
        root.sizes_ok(),
    ensures
        segs_in_range(spec_build_segments(root, m), 0, FULL_TURN as int),
        segs_disjoint_per_depth(spec_build_segments(root, m)),
        segs_depth_between(spec_build_segments(root, m), 0, if m >= 0 {
            m
        } else {
            0
        }),
{
    if root.total_size() <= 0 {
    } else {
        crate::model::lemma_sizes_ok_total(root);
        let total = root.total_size();
        assert(spec_children_total(root.children) <= total) by {
            if root.is_file {
                assert(root.children.len() == 0);
                assert(spec_children_total(root.children) == 0);
            }
        }
        lemma_layout_entry_props(root, 1, 0, FULL_TURN as int, total, m);
        let q = spec_build_segments(root, m);
        let subq = spec_layout_entry(root, 1, 0, FULL_TURN as int, total, m);
        assert(q =~= seq![q[0]] + subq);
        assert forall|i: int| 0 <= i < q.len() implies 0 <= (#[trigger] q[i]).start_angle
            < q[i].end_angle <= FULL_TURN as int by {
            if i > 0 {
                assert(q[i] == subq[i - 1]);
            }
        }
        assert forall|i: int| 0 <= i < q.len() implies 0 <= (#[trigger] q[i]).depth <= (if m >= 0 {
            m
        } else {
            0
        }) by {
            if i > 0 {
                assert(q[i] == subq[i - 1]);
            }
        }
        assert forall|i: int, j: int|
            0 <= i < j < q.len() && (#[trigger] q[i]).depth == (#[trigger] q[j]).depth implies q[i].end_angle
            <= q[j].start_angle by {
            assert(q[j] == subq[j - 1]);
            if i == 0 {
                assert(q[j].depth >= 1);
                assert(false);
            } else {
                assert(q[i] == subq[i - 1]);
            }
        }
    }
}

/// Sum of the spans of the ring-`d` segments of `q`.
pub open spec fn spec_spans_at_depth(q: Seq<SegView>, d: int) -> int
    decreases q,
{
    if q.len() == 0 {
        0
    } else {
        (if q[0].depth == d {
            q[0].end_angle - q[0].start_angle
        } else {
            0
        }) + spec_spans_at_depth(q.drop_first(), d)
    }
}

/// Sum of the spans that pruning discarded among the children from `k` on:
/// the proportional span of every child whose span fell below the minimum
/// angle.
pub open spec fn spec_dropped_spans(
    cs: Seq<EntryView>,
    k: int,
    cum: int,
    s: int,
    e: int,
    total: int,
) -> int
    decreases cs.len() - k,
{
    if k < 0 || k >= cs.len() {
        0
    } else {
        let sz = cs[k].total_size();
        let st = s + spec_pos(cum, e - s, total);
        let ed = s + spec_pos(cum + sz, e - s, total);
        (if ed - st >= MIN_ANGLE {
            0
        } else {
            ed - st
        }) + spec_dropped_spans(cs, k + 1, cum + sz, s, e, total)
    }
}

proof fn lemma_spans_at_depth_concat(a: Seq<SegView>, b: Seq<SegView>, d: int)
    ensures
        spec_spans_at_depth(a + b, d) == spec_spans_at_depth(a, d) + spec_spans_at_depth(b, d),
    decreases a,
{
    if a.len() == 0 {
        assert(a + b =~= b);
    } else {
        assert((a + b).drop_first() =~= a.drop_first() + b);
        assert((a + b)[0] == a[0]);
        lemma_spans_at_depth_concat(a.drop_first(), b, d);
    }
}

proof fn lemma_spans_at_depth_absent(q: Seq<SegView>, d: int)
    requires
        forall|i: int| 0 <= i < q.len() ==> (#[trigger] q[i]).depth != d,
    ensures
        spec_spans_at_depth(q, d) == 0,
    decreases q,
{
    if q.len() > 0 {
        assert(forall|i: int|
            0 <= i < q.drop_first().len() ==> (#[trigger] q.drop_first()[i]) == q[i + 1]);
        lemma_spans_at_depth_absent(q.drop_first(), d);
    }
}

/// Exact accounting for one ring of one parent: the spans of the surviving
/// child segments plus the spans lost to pruning make up exactly the
/// interval between the first and the last proportional boundary.
pub proof fn lemma_spans_partition(
    cs: Seq<EntryView>,
    k: int,
    cum: int,
    depth: int,
    s: int,
    e: int,
    total: int,
    m: int,
)
    requires
        forall|i: int| 0 <= i < cs.len() ==> (#[trigger] cs[i]).sizes_ok(),
        0 <= cum,
        0 <= k <= cs.len(),
        cum + spec_children_total(cs.skip(k)) <= total,
        0 < total,
        s <= e,
        depth <= m,
    ensures
        spec_spans_at_depth(spec_layout_children(cs, k, cum, depth, s, e, total, m), depth)
            + spec_dropped_spans(cs, k, cum, s, e, total) == spec_pos(
            cum + spec_children_total(cs.skip(k)),
            e - s,
            total,
        ) - spec_pos(cum, e - s, total),
    decreases cs.len() - k,
{
    if k >= cs.len() {
        assert(cs.skip(k) =~= Seq::<EntryView>::empty());
    } else {
        let sz = cs[k].total_size();
        let st = s + spec_pos(cum, e - s, total);
        let ed = s + spec_pos(cum + sz, e - s, total);
        assert(cs.skip(k).drop_first() =~= cs.skip(k + 1));
        assert(spec_children_total(cs.skip(k)) == sz + spec_children_total(cs.skip(k + 1)));
        lemma_total_nonneg(cs[k]);
        lemma_children_total_nonneg(cs.skip(k + 1));
        lemma_spans_partition(cs, k + 1, cum + sz, depth, s, e, total, m);
        let rest = spec_layout_children(cs, k + 1, cum + sz, depth, s, e, total, m);
        let q = spec_layout_children(cs, k, cum, depth, s, e, total, m);
        if ed - st >= MIN_ANGLE {
            let sub = if !cs[k].is_file && cs[k].children.len() > 0 {
                spec_layout_entry(cs[k], depth + 1, st, ed, sz, m)
            } else {
                Seq::<SegView>::empty()
            };
            if !cs[k].is_file && cs[k].children.len() > 0 {
                assert(spec_children_total(cs[k].children) <= sz);
                lemma_pos_monotone(cum, cum + sz, e - s, total);
                lemma_layout_entry_props(cs[k], depth + 1, st, ed, sz, m);
            }
            lemma_spans_at_depth_absent(sub, depth);
            let direct = q[0];
            let hd = seq![direct] + sub;
            assert(q =~= hd + rest);
            lemma_spans_at_depth_concat(hd, rest, depth);
            assert(hd.drop_first() =~= sub);
            assert(hd[0] == direct);
            assert(spec_spans_at_depth(hd, depth) == ed - st);
        } else {
            assert(q =~= rest);
        }
    }
}

/// One parent ring adds up: with the whole span `[s, e)` divided among all
/// the children, surviving spans plus pruned spans equal the parent span
/// exactly, so the surviving spans alone never exceed it, with equality
/// exactly when nothing was pruned.
pub proof fn lemma_sibling_spans_bounded(en: EntryView, depth: int, s: int, e: int, m: int)
    requires
        en.sizes_ok(),
        !en.is_file,
        en.total_size() > 0,
        s <= e,
        depth <= m,
    ensures
        spec_spans_at_depth(
            spec_layout_entry(en, depth, s, e, en.total_size(), m),
            depth,
        ) + spec_dropped_spans(en.children, 0, 0, s, e, en.total_size()) == e - s,
        spec_dropped_spans(en.children, 0, 0, s, e, en.total_size()) >= 0,
        spec_spans_at_depth(spec_layout_entry(en, depth, s, e, en.total_size(), m), depth) <= e - s,
{
    let total = en.total_size();
    assert(cs_skip_zero(en.children));
    lemma_spans_partition(en.children, 0, 0, depth, s, e, total, m);
    assert(spec_pos(0, e - s, total) == 0) by {
        assert(0 * (e - s) == 0) by (nonlinear_arith);
        vstd::arithmetic::div_mod::lemma_basic_div(0, total);
    }
    assert(spec_children_total(en.children) == total);
    assert(spec_pos(total, e - s, total) == e - s) by {
        vstd::arithmetic::div_mod::lemma_div_multiples_vanish(e - s, total);
        assert(total * (e - s) == (e - s) * total) by (nonlinear_arith);
    }
    lemma_dropped_nonneg(en.children, 0, 0, s, e, total);
}

/// `skip(0)` is the sequence itself.
spec fn cs_skip_zero(cs: Seq<EntryView>) -> bool {
    cs.skip(0) =~= cs
}

proof fn lemma_dropped_nonneg(cs: Seq<EntryView>, k: int, cum: int, s: int, e: int, total: int)
    requires
        forall|i: int| 0 <= i < cs.len() ==> (#[trigger] cs[i]).sizes_ok(),
        0 <= cum,
        0 <= k,
        k <= cs.len() ==> cum + spec_children_total(cs.skip(k)) <= total,
        0 < total,
        s <= e,
    ensures
        spec_dropped_spans(cs, k, cum, s, e, total) >= 0,
    decreases cs.len() - k,
{
    if 0 <= k < cs.len() {
        let sz = cs[k].total_size();
        assert(cs.skip(k).drop_first() =~= cs.skip(k + 1));
        assert(spec_children_total(cs.skip(k)) == sz + spec_children_total(cs.skip(k + 1)));
        lemma_total_nonneg(cs[k]);
        lemma_children_total_nonneg(cs.skip(k + 1));
        lemma_pos_monotone(cum, cum + sz, e - s, total);
        lemma_dropped_nonneg(cs, k + 1, cum + sz, s, e, total);
    }
}



/// The normalized angle: wrapped into `[0, FULL_TURN)`.
pub open spec fn spec_norm(a: int) -> int {
    a % (FULL_TURN as int)
}

/// Whether a segment occupies the point at `a` angle units on ring `d`: the
/// ring must match and the wrapped angle must fall in the segment's
/// half-open interval.
pub open spec fn spec_contains_point(seg: SegView, a: int, d: int) -> bool {
    &&& seg.depth == d
    &&& seg.start_angle <= spec_norm(a) < seg.end_angle
}

impl Segment {
    /// Check if a point (in polar coordinates) is inside this segment.
    pub fn contains_point(&self, angle: u64, radius_depth: usize) -> (r: bool)
        ensures
            r == spec_contains_point(self@, angle as int, radius_depth as int),
    {
        if radius_depth != self.depth {
            return false;
        }
        let a = angle % FULL_TURN;
        a >= self.start_angle && a < self.end_angle
    }
}

/// The ring that a radial distance falls in: distances under one ring width
/// map to the center ring, everything else to the distance in ring widths,
/// clamped to the outermost displayed ring.
pub open spec fn spec_ring_index(distance: int, ring_width: int) -> int {
    if distance < ring_width {
        0
    } else if distance / ring_width > MAX_DEPTH as int {
        MAX_DEPTH as int
    } else {
        distance / ring_width
    }
}

/// Index of the first segment occupying ring `d` at wrapped angle `a`, or
/// -1 when the point falls in a gap.
pub open spec fn spec_find_hit(q: Seq<SegView>, d: int, a: int) -> int
    decreases q,
{
    if q.len() == 0 {
        -1
    } else if spec_contains_point(q[0], a, d) {
        0
    } else if spec_find_hit(q.drop_first(), d, a) == -1 {
        -1
    } else {
        1 + spec_find_hit(q.drop_first(), d, a)
    }
}

pub proof fn lemma_find_hit_bounds(q: Seq<SegView>, d: int, a: int)
    ensures
        -1 <= spec_find_hit(q, d, a) < q.len(),
        spec_find_hit(q, d, a) >= 0 ==> spec_contains_point(q[spec_find_hit(q, d, a)], a, d),
        forall|j: int|
            0 <= j < q.len() && (spec_find_hit(q, d, a) == -1 || j < spec_find_hit(q, d, a))
                ==> !spec_contains_point(#[trigger] q[j], a, d),
    decreases q,
{
    if q.len() > 0 && !spec_contains_point(q[0], a, d) {
        lemma_find_hit_bounds(q.drop_first(), d, a);
        assert forall|j: int|
            0 <= j < q.len() && (spec_find_hit(q, d, a) == -1 || j < spec_find_hit(q, d, a))
                implies !spec_contains_point(#[trigger] q[j], a, d) by {
            if j > 0 {
                assert(q.drop_first()[j - 1] == q[j]);
            }
        }
    }
}

/// When everything before `i` misses and `i` hits, `i` is the first hit.
proof fn lemma_find_hit_at(q: Seq<SegView>, d: int, a: int, i: int)
    requires
        0 <= i < q.len(),
        spec_contains_point(q[i], a, d),
        forall|j: int| 0 <= j < i ==> !spec_contains_point(#[trigger] q[j], a, d),
    ensures
        spec_find_hit(q, d, a) == i,
    decreases q,
{
    if i > 0 {
        assert(forall|j: int| 0 <= j < q.drop_first().len() ==> q.drop_first()[j] == q[j + 1]);
        lemma_find_hit_at(q.drop_first(), d, a, i - 1);
    }
}

/// Find the segment at a given point. The point comes pre-converted to
/// polar form: a radial distance and an angle in angle units, both measured
/// from the chart's center, plus the radial thickness of one ring.
pub fn find_segment_at_point(
    segments: &Vec<Segment>,
    distance: u64,
    angle: u64,
    ring_width: u64,
) -> (r: Option<&Segment>)
    requires
        ring_width > 0,
    ensures
        (r matches Some(seg) ==> spec_find_hit(
            segviews_of(segments@),
            spec_ring_index(distance as int, ring_width as int),
            angle as int,
        ) >= 0 && seg@ == segviews_of(segments@)[spec_find_hit(
            segviews_of(segments@),
            spec_ring_index(distance as int, ring_width as int),
            angle as int,
        )]),
        r is None ==> spec_find_hit(
            segviews_of(segments@),
            spec_ring_index(distance as int, ring_width as int),
            angle as int,
        ) == -1,
{
    let ghost q = segviews_of(segments@);
    let ghost d = spec_ring_index(distance as int, ring_width as int);
    let depth: usize = if distance < ring_width {
        0
    } else {
        let ratio = distance / ring_width;
        if ratio > MAX_DEPTH as u64 {
            MAX_DEPTH
        } else {
            ratio as usize
        }
    };
    proof {
        assert(depth as int == d);
        lemma_segviews_of_len(segments@);
        lemma_find_hit_bounds(q, d, angle as int);
    }
    let mut i: usize = 0;
    while i < segments.len()
        invariant
            i <= segments@.len(),
            q == segviews_of(segments@),
            q.len() == segments@.len(),
            depth as int == d,
            d == spec_ring_index(distance as int, ring_width as int),
            forall|j: int| 0 <= j < i ==> !spec_contains_point(#[trigger] q[j], angle as int, d),
        decreases segments@.len() - i,
    {
        proof {
            lemma_segviews_of_index(segments@, i as int);
        }
        if segments[i].contains_point(angle, depth) {
            let seg_ref = &segments[i];
            proof {
                lemma_find_hit_at(q, d, angle as int, i as int);
                lemma_segviews_of_index(segments@, i as int);
                assert(spec_find_hit(q, d, angle as int) == i as int);
                assert(seg_ref@ == q[i as int]);
            }
            return Some(seg_ref);
        }
        i = i + 1;
    }
    proof {
        lemma_find_hit_bounds(q, d, angle as int);
    }
    None
}

/// The round trip from layout to hit test: a point strictly inside a
/// surviving segment's bounds, on that segment's own ring, comes back as
/// exactly that segment, because segments of one ring never overlap.
pub proof fn lemma_hit_roundtrip(q: Seq<SegView>, i: int, a: int, d: int)
    requires
        segs_disjoint_per_depth(q),
        0 <= i < q.len(),
        q[i].depth == d,
        q[i].start_angle <= spec_norm(a) < q[i].end_angle,
    ensures
        spec_find_hit(q, d, a) == i,
{
    assert forall|j: int| 0 <= j < i implies !spec_contains_point(#[trigger] q[j], a, d) by {
        if q[j].depth == d {
            assert(q[j].end_angle <= q[i].start_angle);
        }
    }
    lemma_find_hit_at(q, d, a, i);
}

} // verus!
