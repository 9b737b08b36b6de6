use scorch::format_size;
use scorch::is_protected_path;
use scorch::remove_entry_from_tree;
use scorch::DirEntry;
use scorch::FileType;

fn file(path: &str, size: u64) -> DirEntry {
    DirEntry::new_file(path.to_string(), size)
}

fn dir(path: &str, children: Vec<DirEntry>) -> DirEntry {
    let mut d = DirEntry::new_dir(path.to_string());
    let total: u64 = children.iter().map(|c| c.total_size()).sum();
    d.children = children;
    d.size = total;
    d
}

#[test]
fn file_entry_fields() {
    let f = file("/data/movie.mp4", 1234);
    assert_eq!(f.name, "movie.mp4");
    assert_eq!(f.size, 1234);
    assert!(f.is_file);
    assert_eq!(f.file_type, FileType::Video);
    assert!(f.children.is_empty());
}

#[test]
fn dir_entry_fields() {
    let d = DirEntry::new_dir("/data/sub".to_string());
    assert_eq!(d.name, "sub");
    assert_eq!(d.size, 0);
    assert!(!d.is_file);
    assert_eq!(d.file_type, FileType::Directory);
}

#[test]
fn root_dir_keeps_its_text_as_name() {
    let d = DirEntry::new_dir("/".to_string());
    assert_eq!(d.name, "/");
}

#[test]
fn total_size_sums_recursively() {
    let t = dir(
        "/data",
        vec![
            file("/data/a", 300),
            dir("/data/sub", vec![file("/data/sub/b", 100)]),
        ],
    );
    assert_eq!(t.total_size(), 400);
}

#[test]
fn item_count_counts_self_and_descendants() {
    let t = dir(
        "/data",
        vec![
            file("/data/a", 300),
            file("/data/b", 100),
            dir("/data/sub", vec![]),
        ],
    );
    assert_eq!(t.item_count(), 4);
}

#[test]
fn item_count_is_one_plus_children() {
    let t = dir(
        "/data",
        vec![
            dir("/data/sub", vec![file("/data/sub/x", 1)]),
            file("/data/a", 2),
        ],
    );
    let child_sum: usize = t.children.iter().map(|c| c.item_count()).sum();
    assert_eq!(t.item_count(), 1 + child_sum);
}

#[test]
fn find_by_path_finds_nested_entry() {
    let t = dir(
        "/data",
        vec![
            file("/data/a", 300),
            dir("/data/sub", vec![file("/data/sub/b", 100)]),
        ],
    );
    let found = t.find_by_path(&"/data/sub/b".to_string()).unwrap();
    assert_eq!(found.size, 100);
    assert!(found.is_file);
    assert!(t.find_by_path(&"/data/missing".to_string()).is_none());
}

#[test]
fn sort_by_size_orders_descending() {
    let mut t = dir(
        "/data",
        vec![
            file("/data/small", 10),
            file("/data/big", 300),
            file("/data/mid", 100),
        ],
    );
    t.sort_by_size();
    let sizes: Vec<u64> = t.children.iter().map(|c| c.size).collect();
    assert_eq!(sizes, vec![300, 100, 10]);
    for i in 0..t.children.len() - 1 {
        assert!(t.children[i].total_size() >= t.children[i + 1].total_size());
    }
}

#[test]
fn sort_by_size_is_stable_and_idempotent() {
    let mut t = dir(
        "/data",
        vec![
            file("/data/first", 100),
            file("/data/second", 100),
            file("/data/big", 200),
        ],
    );
    t.sort_by_size();
    let order1: Vec<String> = t.children.iter().map(|c| c.path.clone()).collect();
    assert_eq!(order1, vec!["/data/big", "/data/first", "/data/second"]);
    t.sort_by_size();
    let order2: Vec<String> = t.children.iter().map(|c| c.path.clone()).collect();
    assert_eq!(order1, order2);
}

#[test]
fn sort_by_size_sorts_every_level() {
    let mut t = dir(
        "/d",
        vec![dir(
            "/d/sub",
            vec![file("/d/sub/a", 1), file("/d/sub/b", 9)],
        )],
    );
    t.sort_by_size();
    assert_eq!(t.children[0].children[0].size, 9);
    assert_eq!(t.children[0].children[1].size, 1);
}

#[test]
fn remove_child_recomputes_sizes() {
    let mut t = dir(
        "/data",
        vec![
            file("/data/a", 300),
            file("/data/victim", 50),
            file("/data/b", 50),
        ],
    );
    assert_eq!(t.total_size(), 400);
    let found = remove_entry_from_tree(&mut t, &"/data/victim".to_string());
    assert!(found);
    assert_eq!(t.size, 350);
    assert_eq!(t.total_size(), 350);
    assert_eq!(t.children.len(), 2);
    assert_eq!(t.children[0].path, "/data/a");
    assert_eq!(t.children[0].size, 300);
    assert_eq!(t.children[1].path, "/data/b");
    assert_eq!(t.children[1].size, 50);
}

#[test]
fn remove_nested_recomputes_ancestors() {
    let mut t = dir(
        "/d",
        vec![
            dir("/d/sub", vec![file("/d/sub/x", 70), file("/d/sub/y", 30)]),
            file("/d/a", 100),
        ],
    );
    assert_eq!(t.total_size(), 200);
    assert!(remove_entry_from_tree(&mut t, &"/d/sub/x".to_string()));
    assert_eq!(t.size, 130);
    assert_eq!(t.children[0].size, 30);
    assert_eq!(t.total_size(), 130);
}

#[test]
fn remove_missing_is_noop() {
    let mut t = dir("/data", vec![file("/data/a", 300)]);
    let found = remove_entry_from_tree(&mut t, &"/data/none".to_string());
    assert!(!found);
    assert_eq!(t.size, 300);
    assert_eq!(t.children.len(), 1);
}

#[test]
fn parent_path_walks_up() {
    let d = DirEntry::new_dir("/usr/lib".to_string());
    assert_eq!(d.parent_path(), Some("/usr".to_string()));
    let top = DirEntry::new_dir("/usr".to_string());
    assert_eq!(top.parent_path(), Some("/".to_string()));
    let root = DirEntry::new_dir("/".to_string());
    assert_eq!(root.parent_path(), None);
}

#[test]
fn from_extension_maps_known_kinds() {
    assert_eq!(FileType::from_extension("mp4"), FileType::Video);
    assert_eq!(FileType::from_extension("MP4"), FileType::Video);
    assert_eq!(FileType::from_extension("JPEG"), FileType::Image);
    assert_eq!(FileType::from_extension("flac"), FileType::Audio);
    assert_eq!(FileType::from_extension("tar"), FileType::Archive);
    assert_eq!(FileType::from_extension("pdf"), FileType::Document);
    assert_eq!(FileType::from_extension("rs"), FileType::Code);
    assert_eq!(FileType::from_extension("xyz"), FileType::Other);
    assert_eq!(FileType::from_extension(""), FileType::Other);
}

#[test]
fn extension_comes_from_file_name() {
    let f = file("/data/archive.tar.gz", 1);
    assert_eq!(f.file_type, FileType::Archive);
    let hidden = file("/data/.bashrc", 1);
    assert_eq!(hidden.file_type, FileType::Other);
}

#[test]
fn format_size_exact_values() {
    assert_eq!(format_size(0), "0 B");
    assert_eq!(format_size(512), "512 B");
    assert_eq!(format_size(1023), "1023 B");
    assert_eq!(format_size(1024), "1.00 KB");
    assert_eq!(format_size(1536), "1.50 KB");
    assert_eq!(format_size(2097152), "2.00 MB");
    assert_eq!(format_size(1073741824), "1.00 GB");
    assert_eq!(format_size(1099511627776), "1.00 TB");
    assert_eq!(format_size(u64::MAX), "16777216.00 TB");
}

#[test]
fn protected_paths_are_exact_matches() {
    assert!(is_protected_path(&"/".to_string()));
    assert!(is_protected_path(&"/usr".to_string()));
    assert!(is_protected_path(&"/etc".to_string()));
    assert!(!is_protected_path(&"/home".to_string()));
    assert!(!is_protected_path(&"/usr/lib".to_string()));
}
