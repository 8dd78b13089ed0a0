use pse::builder::{add_dir_to_fs_tree, build_fs_tree, Probe, ProbedEntry};
use pse::tree::{add_file_to_fs_tree, sort_fs_tree, Directory, File, FsEntry, FsTree};

fn file(path: &str, size: u64) -> ProbedEntry {
    ProbedEntry { path: path.to_string(), probe: Probe::File(size) }
}

fn dir(path: &str, listing: Vec<ProbedEntry>) -> ProbedEntry {
    ProbedEntry { path: path.to_string(), probe: Probe::Directory(Some(listing)) }
}

fn other(path: &str, probe: Probe) -> ProbedEntry {
    ProbedEntry { path: path.to_string(), probe }
}

fn path_of(e: &FsEntry) -> &str {
    match e {
        FsEntry::File(f) => f.path.as_str(),
        FsEntry::Directory(d) => d.path.as_str(),
    }
}

fn contents(e: &FsEntry) -> &FsTree {
    match e {
        FsEntry::Directory(d) => &d.contents,
        FsEntry::File(_) => panic!("not a directory"),
    }
}

#[test]
fn scenario_root_with_symlink_in_subdirectory() {
    let root = dir(
        "/r",
        vec![
            file("/r/a.txt", 10),
            file("/r/b.txt", 2000),
            dir("/r/sub", vec![file("/r/sub/c.txt", 5), other("/r/sub/link", Probe::Symlink)]),
        ],
    );
    let tree = build_fs_tree(root);
    assert_eq!(tree.len(), 1);
    assert_eq!(tree[0].size(), 2015);
    assert_eq!(tree[0].entry_type(), "directory");
    let children = contents(&tree[0]);
    let paths: Vec<&str> = children.iter().map(path_of).collect();
    assert_eq!(paths, vec!["/r/sub", "/r/b.txt", "/r/a.txt"]);
    assert_eq!(children[0].size(), 5);
    assert_eq!(children[1].size(), 2000);
    assert_eq!(children[2].size(), 10);
    let sub = contents(&children[0]);
    assert_eq!(sub.len(), 1);
    assert_eq!(path_of(&sub[0]), "/r/sub/c.txt");
}

#[test]
fn unreadable_subdirectory_among_ten_siblings() {
    let mut listing = Vec::new();
    for i in 0..10u64 {
        if i == 4 {
            listing.push(other("/r/locked", Probe::Directory(None)));
        } else {
            listing.push(dir(&format!("/r/d{}", i), vec![file(&format!("/r/d{}/f", i), 100 + i)]));
        }
    }
    let tree = build_fs_tree(dir("/r", listing));
    let expected: u64 = (0..10u64).filter(|i| *i != 4).map(|i| 100 + i).sum();
    assert_eq!(tree[0].size(), expected);
    assert_eq!(contents(&tree[0]).len(), 9);
    assert!(contents(&tree[0]).iter().all(|e| path_of(e) != "/r/locked"));
}

#[test]
fn empty_directory_has_size_zero() {
    let tree = build_fs_tree(dir("/e", vec![]));
    assert_eq!(tree.len(), 1);
    assert_eq!(tree[0].size(), 0);
    assert!(contents(&tree[0]).is_empty());
}

/// The size of `e`, asserting on the way that each directory's size is the
/// sum of its children's.
fn summed_size(e: &FsEntry) -> u64 {
    match e {
        FsEntry::File(f) => f.size,
        FsEntry::Directory(d) => {
            let sum: u64 = d.contents.iter().map(summed_size).sum();
            assert_eq!(d.size, sum);
            d.size
        }
    }
}

#[test]
fn directory_size_is_sum_at_every_level() {
    let root = dir(
        "/r",
        vec![
            dir("/r/x", vec![file("/r/x/1", 3), dir("/r/x/y", vec![file("/r/x/y/2", 4), file("/r/x/y/3", 5)])]),
            file("/r/z", 7),
        ],
    );
    let tree = build_fs_tree(root);
    assert_eq!(summed_size(&tree[0]), 19);
}

#[test]
fn symlinks_other_objects_and_inaccessible_entries_are_left_out() {
    let root = dir(
        "/r",
        vec![
            other("/r/l", Probe::Symlink),
            other("/r/fifo", Probe::Other),
            other("/r/gone", Probe::Inaccessible),
            file("/r/f", 1),
        ],
    );
    let tree = build_fs_tree(root);
    assert_eq!(tree[0].size(), 1);
    assert_eq!(contents(&tree[0]).len(), 1);
}

#[test]
fn root_that_is_not_kept_gives_empty_tree() {
    assert!(build_fs_tree(other("/l", Probe::Symlink)).is_empty());
    assert!(build_fs_tree(other("/u", Probe::Directory(None))).is_empty());
    assert!(build_fs_tree(other("/o", Probe::Other)).is_empty());
    assert!(build_fs_tree(other("/i", Probe::Inaccessible)).is_empty());
}

#[test]
fn root_file_gives_one_node() {
    let tree = build_fs_tree(file("/f", 42));
    assert_eq!(tree.len(), 1);
    assert_eq!(tree[0].entry_type(), "file");
    assert_eq!(tree[0].size(), 42);
    assert_eq!(path_of(&tree[0]), "/f");
}

#[test]
fn sizes_stop_at_the_largest_count() {
    let root = dir("/r", vec![file("/r/a", u64::MAX), file("/r/b", 5)]);
    let tree = build_fs_tree(root);
    assert_eq!(tree[0].size(), u64::MAX);
}

#[test]
fn sort_orders_every_level() {
    let mut tree: FsTree = Vec::new();
    add_file_to_fs_tree(&mut tree, "/r/b".to_string(), 5);
    add_file_to_fs_tree(&mut tree, "/r/a".to_string(), 5);
    add_file_to_fs_tree(&mut tree, "/r/c".to_string(), 9);
    tree.push(FsEntry::Directory(Directory {
        path: "/r/d".to_string(),
        size: 3,
        contents: vec![
            FsEntry::File(File { path: "/r/d/small".to_string(), size: 1 }),
            FsEntry::File(File { path: "/r/d/big".to_string(), size: 2 }),
        ],
    }));
    tree.push(FsEntry::Directory(Directory { path: "/r/e".to_string(), size: 0, contents: vec![] }));
    sort_fs_tree(&mut tree);
    let paths: Vec<&str> = tree.iter().map(path_of).collect();
    assert_eq!(paths, vec!["/r/d", "/r/e", "/r/c", "/r/a", "/r/b"]);
    let inner: Vec<&str> = contents(&tree[0]).iter().map(path_of).collect();
    assert_eq!(inner, vec!["/r/d/big", "/r/d/small"]);
    for w in tree.windows(2) {
        let (a, b) = (&w[0], &w[1]);
        let a_dir = a.entry_type() == "directory";
        let b_dir = b.entry_type() == "directory";
        assert!((a_dir && !b_dir) || (a_dir == b_dir && a.size() >= b.size()));
    }
}

#[test]
fn add_dir_of_unreadable_directory_adds_nothing() {
    let mut tree: FsTree = Vec::new();
    let size = add_dir_to_fs_tree(&mut tree, "/x".to_string(), None);
    assert_eq!(size, 0);
    assert!(tree.is_empty());
}

#[test]
fn add_dir_keeps_listing_order_and_returns_size() {
    let mut tree: FsTree = Vec::new();
    let size = add_dir_to_fs_tree(
        &mut tree,
        "/x".to_string(),
        Some(vec![file("/x/small", 1), file("/x/big", 50)]),
    );
    assert_eq!(size, 51);
    let paths: Vec<&str> = contents(&tree[0]).iter().map(path_of).collect();
    assert_eq!(paths, vec!["/x/small", "/x/big"]);
}

#[test]
fn entry_type_and_size() {
    let f = FsEntry::File(File { path: "/f".to_string(), size: 7 });
    let d = FsEntry::Directory(Directory { path: "/d".to_string(), size: 9, contents: vec![] });
    assert_eq!(f.entry_type(), "file");
    assert_eq!(d.entry_type(), "directory");
    assert_eq!(f.size(), 7);
    assert_eq!(d.size(), 9);
}

#[test]
fn sort_keeps_each_directory_its_own_children() {
    let mut tree: FsTree = vec![
        FsEntry::Directory(Directory {
            path: "/r/b".to_string(),
            size: 0,
            contents: vec![FsEntry::File(File { path: "/r/b/x".to_string(), size: 0 })],
        }),
        FsEntry::Directory(Directory { path: "/r/a".to_string(), size: 0, contents: vec![] }),
    ];
    sort_fs_tree(&mut tree);
    assert_eq!(path_of(&tree[0]), "/r/a");
    assert!(contents(&tree[0]).is_empty());
    assert_eq!(path_of(&tree[1]), "/r/b");
    assert_eq!(path_of(&contents(&tree[1])[0]), "/r/b/x");
}

#[test]
fn sorting_is_independent_of_listing_order() {
    let one = dir("/r", vec![file("/r/b", 5), file("/r/a", 5), dir("/r/d", vec![]), file("/r/c", 9)]);
    let two = dir("/r", vec![file("/r/c", 9), dir("/r/d", vec![]), file("/r/a", 5), file("/r/b", 5)]);
    let t1 = build_fs_tree(one);
    let t2 = build_fs_tree(two);
    let first_order: Vec<&str> = contents(&t1[0]).iter().map(path_of).collect();
    let second_order: Vec<&str> = contents(&t2[0]).iter().map(path_of).collect();
    assert_eq!(first_order, vec!["/r/d", "/r/c", "/r/a", "/r/b"]);
    assert_eq!(first_order, second_order);
    let mut again = t1;
    sort_fs_tree(&mut again);
    let resorted_order: Vec<&str> = contents(&again[0]).iter().map(path_of).collect();
    assert_eq!(resorted_order, second_order);
}
