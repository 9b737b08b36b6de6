use scorch::build_segments;
use scorch::find_segment_at_point;
use scorch::DirEntry;
use scorch::FULL_TURN;
use scorch::MAX_DEPTH;

fn file(path: &str, size: u64) -> DirEntry {
    DirEntry::new_file(path.to_string(), size)
}

fn dir(path: &str, children: Vec<DirEntry>) -> DirEntry {
    let mut d = DirEntry::new_dir(path.to_string());
    let total: u64 = children.iter().map(|c| c.total_size()).sum();
    d.children = children;
    d.size = total;
    d
}

fn sorted_dir(path: &str, children: Vec<DirEntry>) -> DirEntry {
    let mut d = dir(path, children);
    d.sort_by_size();
    d
}

/// Root with files of 300 and 100 bytes and one empty subdirectory: total
/// 400 and 4 items, and the two file segments take three quarters and one
/// quarter of the circle; the zero-size subdirectory gets no segment.
#[test]
fn two_files_and_empty_dir_scenario() {
    let t = sorted_dir(
        "/data",
        vec![
            file("/data/big", 300),
            file("/data/small", 100),
            dir("/data/empty", vec![]),
        ],
    );
    assert_eq!(t.total_size(), 400);
    assert_eq!(t.item_count(), 4);
    let segs = build_segments(&t, 1);
    assert_eq!(segs.len(), 3);
    assert_eq!(segs[0].path, "/data");
    assert_eq!(segs[0].depth, 0);
    assert_eq!(segs[0].start_angle, 0);
    assert_eq!(segs[0].end_angle, FULL_TURN);
    // three quarters of the circle, at the exact proportional boundary
    assert_eq!(segs[1].path, "/data/big");
    assert_eq!(segs[1].depth, 1);
    assert_eq!(segs[1].start_angle, 0);
    assert_eq!(segs[1].end_angle, 471238897);
    assert_eq!(segs[2].path, "/data/small");
    assert_eq!(segs[2].depth, 1);
    assert_eq!(segs[2].start_angle, 471238897);
    assert_eq!(segs[2].end_angle, FULL_TURN);
}

#[test]
fn empty_tree_yields_no_segments() {
    let t = dir("/data", vec![]);
    let segs = build_segments(&t, MAX_DEPTH);
    assert!(segs.is_empty());
}

#[test]
fn sliver_is_dropped_and_leaves_a_gap() {
    // 100_000 out of 1_000_000 would span a tenth of the circle; 1 out of
    // 1_000_000 spans well under the minimum angle and is pruned, leaving
    // the later sibling at its true proportional position.
    let t = sorted_dir(
        "/d",
        vec![
            file("/d/big", 899999),
            file("/d/mid", 100000),
            file("/d/tiny", 1),
        ],
    );
    let segs = build_segments(&t, 1);
    assert_eq!(segs.len(), 3);
    assert_eq!(segs[1].path, "/d/big");
    assert_eq!(segs[2].path, "/d/mid");
    // the pruned sliver leaves the circle short of a full cover
    assert!(segs[2].end_angle < FULL_TURN);
}

#[test]
fn segments_of_one_ring_never_overlap() {
    let t = sorted_dir(
        "/d",
        vec![
            sorted_dir("/d/s1", vec![file("/d/s1/a", 40), file("/d/s1/b", 30)]),
            sorted_dir("/d/s2", vec![file("/d/s2/c", 20), file("/d/s2/d", 10)]),
        ],
    );
    let segs = build_segments(&t, MAX_DEPTH);
    for i in 0..segs.len() {
        for j in (i + 1)..segs.len() {
            if segs[i].depth == segs[j].depth {
                assert!(segs[i].end_angle <= segs[j].start_angle);
            }
        }
    }
}

#[test]
fn sibling_spans_never_exceed_parent_span() {
    let t = sorted_dir(
        "/d",
        vec![
            file("/d/a", 500),
            file("/d/b", 300),
            file("/d/c", 200),
        ],
    );
    let segs = build_segments(&t, 1);
    let sum: u64 = segs
        .iter()
        .filter(|s| s.depth == 1)
        .map(|s| s.end_angle - s.start_angle)
        .sum();
    // nothing was pruned here, so the ring adds up to the full parent span
    assert_eq!(sum, FULL_TURN);
}

#[test]
fn contains_point_uses_half_open_interval() {
    let t = sorted_dir("/d", vec![file("/d/a", 300), file("/d/b", 100)]);
    let segs = build_segments(&t, 1);
    let first = &segs[1];
    assert!(first.contains_point(first.start_angle, 1));
    assert!(!first.contains_point(first.end_angle, 1));
    assert!(!first.contains_point(first.start_angle, 2));
}

/// A point strictly inside a surviving segment's angular and radial bounds
/// comes back as exactly that segment.
#[test]
fn hit_test_round_trip() {
    let t = sorted_dir(
        "/data",
        vec![file("/data/big", 300), file("/data/small", 100)],
    );
    let segs = build_segments(&t, 1);
    // inside the first ring, inside the big file's span
    let hit = find_segment_at_point(&segs, 15, 1000, 10).unwrap();
    assert_eq!(hit.path, "/data/big");
    // inside the small file's span
    let hit2 = find_segment_at_point(&segs, 15, 500_000_000, 10).unwrap();
    assert_eq!(hit2.path, "/data/small");
    // the center maps to the root segment
    let center = find_segment_at_point(&segs, 5, 1000, 10).unwrap();
    assert_eq!(center.path, "/data");
}

#[test]
fn hit_test_wraps_angles_and_clamps_depth() {
    let t = sorted_dir("/data", vec![file("/data/a", 1)]);
    let segs = build_segments(&t, 1);
    // one full turn more lands on the same segment
    let hit = find_segment_at_point(&segs, 15, FULL_TURN + 1000, 10).unwrap();
    assert_eq!(hit.path, "/data/a");
    // far outside every populated ring: the depth clamps to the outermost
    // ring, where nothing lies in this one-level chart
    assert!(find_segment_at_point(&segs, 10_000, 1000, 10).is_none());
}
