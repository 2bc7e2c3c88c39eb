use pathprobe::path::{directory_segments, split_path};
use pathprobe::tree::{add_file, DirEntry, EntryKind, FileSystemEntry};

fn names(entries: &Vec<DirEntry>) -> Vec<String> {
    let mut out = Vec::new();
    for entry in entries {
        out.push(entry.name.clone());
    }
    out
}

fn entries_of(node: &FileSystemEntry) -> &Vec<DirEntry> {
    match node {
        FileSystemEntry::Dir { subentries } => subentries,
        FileSystemEntry::File => panic!("a file has no entries"),
    }
}

fn path(parts: &[&str]) -> Vec<String> {
    let mut out = Vec::new();
    for part in parts {
        out.push(part.to_string());
    }
    out
}

#[test]
fn new_tree_is_an_empty_directory() {
    let root = FileSystemEntry::new();
    assert!(entries_of(&root).is_empty());
    assert_eq!(root.kind_at(&path(&[])), Some(EntryKind::Dir));
    assert_eq!(root.kind_at(&path(&["a"])), None);
}

#[test]
fn split_path_keeps_empty_pieces() {
    assert_eq!(split_path("a/b//", '/'), path(&["a", "b", "", ""]));
    assert_eq!(split_path("", '/'), path(&[""]));
    assert_eq!(split_path("abc", '/'), path(&["abc"]));
    assert_eq!(split_path("/", '/'), path(&["", ""]));
    assert_eq!(split_path("a,b", ','), path(&["a", "b"]));
}

#[test]
fn directory_segments_drop_the_root_and_empty_pieces() {
    assert_eq!(directory_segments("../a/b/"), path(&["a", "b"]));
    assert_eq!(directory_segments("../"), path(&[]));
    assert_eq!(directory_segments(""), path(&[]));
    assert_eq!(directory_segments("..//a///b"), path(&["a", "b"]));
    assert_eq!(directory_segments("a/b"), path(&["b"]));
    assert_eq!(directory_segments("/a"), path(&["a"]));
    assert_eq!(directory_segments("root/a/b/c"), path(&["a", "b", "c"]));
}

#[test]
fn add_file_in_the_root() {
    let mut root = FileSystemEntry::new();
    add_file("../", "index.html", &mut root);
    let entries = entries_of(&root);
    assert_eq!(names(entries), path(&["index.html"]));
    assert!(matches!(entries[0].node, FileSystemEntry::File));
    assert!(root.has_file("../", "index.html"));
    assert!(!root.has_file("../", "index"));
    assert!(!root.has_file("../a/", "index.html"));
}

#[test]
fn add_file_makes_the_directories_on_the_way() {
    let mut root = FileSystemEntry::new();
    add_file("../a/b/", "c", &mut root);
    assert_eq!(root.kind_at(&path(&["a"])), Some(EntryKind::Dir));
    assert_eq!(root.kind_at(&path(&["a", "b"])), Some(EntryKind::Dir));
    assert_eq!(root.kind_at(&path(&["a", "b", "c"])), Some(EntryKind::File));
    assert_eq!(root.kind_at(&path(&["a", "b", "c", "d"])), None);
    assert_eq!(root.kind_at(&path(&["b"])), None);
    assert_eq!(root.kind_at(&path(&["a", "c"])), None);
}

#[test]
fn add_file_twice_changes_nothing() {
    let mut root = FileSystemEntry::new();
    add_file("../a/b/", "c", &mut root);
    add_file("../", "top", &mut root);
    let once = format!("{:?}", root);
    add_file("../a/b/", "c", &mut root);
    assert_eq!(format!("{:?}", root), once);
    add_file("../", "top", &mut root);
    assert_eq!(format!("{:?}", root), once);
    add_file("..//a/b", "c", &mut root);
    assert_eq!(format!("{:?}", root), once);
}

#[test]
fn siblings_share_their_directories() {
    let mut root = FileSystemEntry::new();
    add_file("../a/b/", "c", &mut root);
    add_file("../a/b/", "d", &mut root);
    let top = entries_of(&root);
    assert_eq!(names(top), path(&["a"]));
    let a = entries_of(&top[0].node);
    assert_eq!(names(a), path(&["b"]));
    let b = entries_of(&a[0].node);
    assert_eq!(names(b), path(&["c", "d"]));
    assert!(matches!(b[0].node, FileSystemEntry::File));
    assert!(matches!(b[1].node, FileSystemEntry::File));
}

#[test]
fn a_file_on_the_way_stops_the_walk() {
    let mut root = FileSystemEntry::new();
    add_file("../a/", "b", &mut root);
    let before = format!("{:?}", root);
    add_file("../a/b/", "c", &mut root);
    assert_eq!(format!("{:?}", root), before);
    add_file("../a/b/x/y/", "c", &mut root);
    assert_eq!(format!("{:?}", root), before);
    assert!(root.get_dir("../a/b/").is_none());
    assert!(root.get_dir("../a/").is_some());
    assert_eq!(format!("{:?}", root), before);
}

#[test]
fn a_file_for_a_root_takes_nothing() {
    let mut root = FileSystemEntry::File;
    add_file("../", "a", &mut root);
    assert!(matches!(root, FileSystemEntry::File));
    assert!(root.get_dir("../").is_none());
    assert_eq!(root.kind_at(&path(&[])), Some(EntryKind::File));
    assert_eq!(root.kind_at(&path(&["a"])), None);
}

#[test]
fn a_name_that_is_taken_stays_what_it_is() {
    let mut root = FileSystemEntry::new();
    add_file("../a/", "x", &mut root);
    let before = format!("{:?}", root);
    add_file("../", "a", &mut root);
    assert_eq!(format!("{:?}", root), before);
    assert_eq!(root.kind_at(&path(&["a"])), Some(EntryKind::Dir));
    assert!(root.has_file("../a/", "x"));
    assert!(!root.has_file("../", "a"));
}

#[test]
fn get_dir_hands_out_the_entries_of_the_directory() {
    let mut root = FileSystemEntry::new();
    add_file("../a/", "x", &mut root);
    {
        let dir = root.get_dir("../a/").unwrap();
        assert_eq!(names(dir), path(&["x"]));
        dir.push(DirEntry { name: "y".to_string(), node: FileSystemEntry::File });
    }
    assert!(root.has_file("../a/", "y"));
    {
        let fresh = root.get_dir("../n/m/").unwrap();
        assert!(fresh.is_empty());
    }
    assert_eq!(root.kind_at(&path(&["n"])), Some(EntryKind::Dir));
    assert_eq!(root.kind_at(&path(&["n", "m"])), Some(EntryKind::Dir));
    assert_eq!(names(entries_of(&root)), path(&["a", "n"]));
}

#[test]
fn get_next_dir_walks_from_the_given_part() {
    let mut root = FileSystemEntry::new();
    let parts = path(&["skipped", "a", "b"]);
    {
        let dir = root.get_next_dir(&parts, 1).unwrap();
        dir.push(DirEntry { name: "f".to_string(), node: FileSystemEntry::File });
    }
    assert_eq!(root.kind_at(&path(&["a", "b", "f"])), Some(EntryKind::File));
    assert_eq!(root.kind_at(&path(&["skipped"])), None);
    {
        let top = root.get_next_dir(&parts, 3).unwrap();
        assert_eq!(names(top), path(&["a"]));
    }
    {
        let top = root.get_next_dir(&parts, 7).unwrap();
        assert_eq!(names(top), path(&["a"]));
    }
    assert!(FileSystemEntry::File.get_next_dir(&parts, 3).is_none());
}

#[test]
fn the_first_entry_with_a_name_stands_for_it() {
    let mut root = FileSystemEntry::Dir {
        subentries: vec![
            DirEntry { name: "a".to_string(), node: FileSystemEntry::File },
            DirEntry { name: "a".to_string(), node: FileSystemEntry::new() },
        ],
    };
    assert_eq!(root.kind_at(&path(&["a"])), Some(EntryKind::File));
    add_file("../a/", "x", &mut root);
    assert_eq!(root.kind_at(&path(&["a", "x"])), None);
    assert_eq!(entries_of(&root).len(), 2);
}

fn numbered(n: usize) -> Vec<(String, String)> {
    let mut out = Vec::new();
    for i in 0..n {
        let directory = format!("../d{}/e{}/", i % 7, i % 3);
        let file = format!("f{}", i);
        out.push((directory, file));
    }
    out
}

fn all_present(n: usize) {
    let items = numbered(n);
    let mut forward = FileSystemEntry::new();
    for (directory, file) in &items {
        add_file(directory, file, &mut forward);
    }
    let mut backward = FileSystemEntry::new();
    for (directory, file) in items.iter().rev() {
        add_file(directory, file, &mut backward);
    }
    let mut shuffled = FileSystemEntry::new();
    for start in 0..3 {
        let mut i = start;
        while i < n {
            add_file(&items[i].0, &items[i].1, &mut shuffled);
            i += 3;
        }
    }
    for (directory, file) in &items {
        assert!(forward.has_file(directory, file));
        assert!(backward.has_file(directory, file));
        assert!(shuffled.has_file(directory, file));
    }
    let mut files = 0;
    for top in entries_of(&forward) {
        for mid in entries_of(&top.node) {
            files += entries_of(&mid.node).len();
        }
    }
    assert_eq!(files, n);
    assert!(!forward.has_file("../d0/e0/", "missing"));
    let mut expected = Vec::new();
    for i in 0..n {
        expected.push(vec![format!("d{}", i % 7), format!("e{}", i % 3), format!("f{}", i)]);
    }
    expected.sort();
    for tree in [&forward, &backward, &shuffled] {
        let mut listing = tree.files();
        listing.sort();
        assert_eq!(listing, expected);
        let mut directories = 0;
        for top in entries_of(tree) {
            directories += 1 + entries_of(&top.node).len();
        }
        let mut wanted: Vec<(usize, usize)> = (0..n).map(|i| (i % 7, i % 3)).collect();
        wanted.sort();
        wanted.dedup();
        let mut tops: Vec<usize> = (0..n).map(|i| i % 7).collect();
        tops.sort();
        tops.dedup();
        assert_eq!(directories, tops.len() + wanted.len());
    }
}

#[test]
fn one_recording_is_kept() {
    all_present(1);
}

#[test]
fn ten_recordings_are_kept_in_any_order() {
    all_present(10);
}

#[test]
fn a_hundred_recordings_are_kept_in_any_order() {
    all_present(100);
}

#[test]
fn recordings_that_are_apart_commute() {
    let mut one = FileSystemEntry::new();
    add_file("../a/", "x", &mut one);
    add_file("../a/b/", "y", &mut one);
    let mut other = FileSystemEntry::new();
    add_file("../a/b/", "y", &mut other);
    add_file("../a/", "x", &mut other);
    for place in [path(&["a"]), path(&["a", "x"]), path(&["a", "b"]), path(&["a", "b", "y"])] {
        assert_eq!(one.kind_at(&place), other.kind_at(&place));
        assert!(one.kind_at(&place).is_some());
    }
}

#[test]
fn files_lists_every_file_by_its_path() {
    let mut root = FileSystemEntry::new();
    assert!(root.files().is_empty());
    add_file("../a/b/", "c", &mut root);
    add_file("../", "top", &mut root);
    add_file("../a/", "x", &mut root);
    add_file("../a/b/", "d", &mut root);
    add_file("../e/", "f", &mut root);
    add_file("../a/b/", "c", &mut root);
    let mut listing = root.files();
    listing.sort();
    assert_eq!(
        listing,
        vec![
            path(&["a", "b", "c"]),
            path(&["a", "b", "d"]),
            path(&["a", "x"]),
            path(&["e", "f"]),
            path(&["top"]),
        ]
    );
}

#[test]
fn files_of_a_file_is_the_file_itself() {
    assert_eq!(FileSystemEntry::File.files(), vec![path(&[])]);
}

#[test]
fn files_passes_over_entries_that_a_name_does_not_lead_to() {
    let root = FileSystemEntry::Dir {
        subentries: vec![
            DirEntry { name: "a".to_string(), node: FileSystemEntry::new() },
            DirEntry { name: "a".to_string(), node: FileSystemEntry::File },
            DirEntry { name: "b".to_string(), node: FileSystemEntry::File },
        ],
    };
    assert_eq!(root.files(), vec![path(&["b"])]);
    assert_eq!(root.kind_at(&path(&["a"])), Some(EntryKind::Dir));
}
