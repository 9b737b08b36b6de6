use scorch::delete_precheck;
use scorch::get_delete_info;
use scorch::AppState;
use scorch::DeleteResult;
use scorch::DirEntry;

fn file(path: &str, size: u64) -> DirEntry {
    DirEntry::new_file(path.to_string(), size)
}

fn dir(path: &str, children: Vec<DirEntry>) -> DirEntry {
    let mut d = DirEntry::new_dir(path.to_string());
    let total: u64 = children.iter().map(|c| c.total_size()).sum();
    d.children = children;
    d.size = total;
    d
}

fn state_with_tree() -> AppState {
    let tree = dir(
        "/data",
        vec![
            dir("/data/sub", vec![file("/data/sub/a", 300)]),
            file("/data/b", 100),
        ],
    );
    let mut state = AppState::new();
    state.view_root = "/data".to_string();
    state.scan_root = Some(tree);
    state.rebuild_segments();
    state
}

#[test]
fn fresh_state_is_empty() {
    let s = AppState::new();
    assert!(s.scan_root.is_none());
    assert_eq!(s.view_root, "/");
    assert!(s.segments.is_empty());
    assert!(!s.scanning);
    assert_eq!(s.items_scanned, 0);
}

#[test]
fn get_view_entry_resolves_zoom_root() {
    let s = state_with_tree();
    let e = s.get_view_entry().unwrap();
    assert_eq!(e.path, "/data");
    assert_eq!(e.size, 400);
}

#[test]
fn navigate_to_moves_only_to_resolvable_paths() {
    let mut s = state_with_tree();
    s.navigate_to("/data/sub".to_string());
    assert_eq!(s.view_root, "/data/sub");
    assert!(!s.segments.is_empty());
    assert_eq!(s.segments[0].path, "/data/sub");
    // an unresolvable path is a silent no-op
    s.navigate_to("/elsewhere".to_string());
    assert_eq!(s.view_root, "/data/sub");
    assert_eq!(s.segments[0].path, "/data/sub");
}

#[test]
fn navigate_up_returns_to_parent_within_tree() {
    let mut s = state_with_tree();
    s.navigate_to("/data/sub".to_string());
    assert!(s.can_navigate_up());
    s.navigate_up();
    assert_eq!(s.view_root, "/data");
    assert_eq!(s.segments[0].path, "/data");
}

/// From the scan root itself, navigating up is a no-op and the state says
/// so beforehand.
#[test]
fn navigate_up_at_scan_root_is_noop() {
    let mut s = state_with_tree();
    assert!(!s.can_navigate_up());
    let before_root = s.view_root.clone();
    let before_len = s.segments.len();
    s.navigate_up();
    assert_eq!(s.view_root, before_root);
    assert_eq!(s.segments.len(), before_len);
}

#[test]
fn breadcrumbs_run_root_to_leaf_and_stop_at_scan_root() {
    let mut s = state_with_tree();
    s.navigate_to("/data/sub".to_string());
    let crumbs = s.get_breadcrumbs();
    let got: Vec<(String, String)> = crumbs;
    assert_eq!(
        got,
        vec![
            ("/data".to_string(), "data".to_string()),
            ("/data/sub".to_string(), "sub".to_string()),
        ]
    );
}

#[test]
fn breadcrumbs_for_filesystem_root() {
    let mut s = AppState::new();
    s.scan_root = Some(dir("/", vec![file("/swapfile", 9)]));
    let crumbs = s.get_breadcrumbs();
    assert_eq!(crumbs, vec![("/".to_string(), "/".to_string())]);
}

#[test]
fn breadcrumbs_at_scan_root_is_single_entry() {
    let s = state_with_tree();
    let crumbs = s.get_breadcrumbs();
    assert_eq!(
        crumbs,
        vec![("/data".to_string(), "data".to_string())]
    );
}

/// Deleting the filesystem root, or any protected path, is refused before
/// anything happens, so tree and disk stay unchanged.
#[test]
fn protected_path_is_refused() {
    let r = delete_precheck(&"/".to_string(), true);
    assert!(matches!(r, Some(DeleteResult::ProtectedPath)));
    let r2 = delete_precheck(&"/usr".to_string(), true);
    assert!(matches!(r2, Some(DeleteResult::ProtectedPath)));
}

#[test]
fn missing_path_reports_not_found() {
    let r = delete_precheck(&"/data/gone".to_string(), false);
    assert!(matches!(r, Some(DeleteResult::NotFound)));
}

#[test]
fn deletable_path_passes_precheck() {
    let r = delete_precheck(&"/data/doomed".to_string(), true);
    assert!(r.is_none());
}

#[test]
fn delete_info_reports_count_and_size() {
    let t = dir(
        "/data",
        vec![file("/data/a", 300), file("/data/b", 100)],
    );
    let (count, size) = get_delete_info(&t);
    assert_eq!(count, 3);
    assert_eq!(size, 400);
}
