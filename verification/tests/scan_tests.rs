use scorch::build_scanned_tree;
use scorch::is_virtual_fs;
use scorch::try_build_tree;
use scorch::FileType;
use scorch::RawNode;

fn raw_file(path: &str, size: u64) -> RawNode {
    RawNode {
        path: path.to_string(),
        size,
        is_file: true,
        is_symlink: false,
        children: Vec::new(),
    }
}

fn raw_dir(path: &str, children: Vec<RawNode>) -> RawNode {
    RawNode {
        path: path.to_string(),
        size: 0,
        is_file: false,
        is_symlink: false,
        children,
    }
}

fn raw_symlink(path: &str, size: u64) -> RawNode {
    RawNode {
        path: path.to_string(),
        size,
        is_file: true,
        is_symlink: true,
        children: Vec::new(),
    }
}

#[test]
fn virtual_fs_matches_prefixes() {
    assert!(is_virtual_fs(&"/proc".to_string()));
    assert!(is_virtual_fs(&"/proc/1".to_string()));
    assert!(is_virtual_fs(&"/sys/devices".to_string()));
    assert!(is_virtual_fs(&"/snap".to_string()));
    assert!(!is_virtual_fs(&"/process".to_string()));
    assert!(!is_virtual_fs(&"/home".to_string()));
}

#[test]
fn build_aggregates_directory_sizes() {
    let raw = raw_dir(
        "/data",
        vec![
            raw_file("/data/a.txt", 300),
            raw_dir("/data/sub", vec![raw_file("/data/sub/b.txt", 100)]),
        ],
    );
    let t = try_build_tree(&raw).unwrap();
    assert_eq!(t.size, 400);
    assert_eq!(t.total_size(), 400);
    assert!(!t.is_file);
    assert_eq!(t.file_type, FileType::Directory);
    assert_eq!(t.children.len(), 2);
}

/// A symbolic link to a huge file is absent from the tree and contributes
/// nothing to the root's size.
#[test]
fn symlink_is_skipped_entirely() {
    let raw = raw_dir(
        "/data",
        vec![
            raw_file("/data/real.bin", 100),
            raw_symlink("/data/link.bin", 1_073_741_824),
        ],
    );
    let t = build_scanned_tree(&raw).unwrap();
    assert_eq!(t.size, 100);
    assert_eq!(t.children.len(), 1);
    assert_eq!(t.children[0].path, "/data/real.bin");
    assert!(t.find_by_path(&"/data/link.bin".to_string()).is_none());
}

#[test]
fn virtual_fs_children_are_excluded() {
    let raw = raw_dir(
        "/",
        vec![
            raw_dir("/proc", vec![raw_file("/proc/meminfo", 4096)]),
            raw_file("/swapfile", 1000),
        ],
    );
    let t = build_scanned_tree(&raw).unwrap();
    assert_eq!(t.size, 1000);
    assert_eq!(t.children.len(), 1);
    assert!(t.find_by_path(&"/proc".to_string()).is_none());
}

#[test]
fn scanned_tree_is_sorted_by_descending_total() {
    let raw = raw_dir(
        "/data",
        vec![
            raw_file("/data/small", 10),
            raw_dir("/data/sub", vec![raw_file("/data/sub/big", 500)]),
            raw_file("/data/mid", 100),
        ],
    );
    let t = build_scanned_tree(&raw).unwrap();
    assert_eq!(t.children[0].path, "/data/sub");
    assert_eq!(t.children[1].path, "/data/mid");
    assert_eq!(t.children[2].path, "/data/small");
}

#[test]
fn root_file_builds_as_file_entry() {
    let raw = raw_file("/data/movie.mkv", 777);
    let t = build_scanned_tree(&raw).unwrap();
    assert!(t.is_file);
    assert_eq!(t.size, 777);
    assert_eq!(t.file_type, FileType::Video);
}

#[test]
fn unrepresentable_sum_fails_to_build() {
    let raw = raw_dir(
        "/data",
        vec![raw_file("/data/a", u64::MAX), raw_file("/data/b", 1)],
    );
    assert!(try_build_tree(&raw).is_none());
    assert!(build_scanned_tree(&raw).is_none());
}
