use pathprobe::dirs::{search_dirs, search_dirs_recursive, DirSearch};
use pathprobe::files::FileSearch;
use pathprobe::scan::scan_directory;
use pathprobe::tree::{add_file, EntryKind, FileSystemEntry};

const URL: &str = "http://h/?search=";

fn all_requests(search: &mut DirSearch, alphabet: &Vec<char>, answer: bool) -> Vec<String> {
    let mut requests = Vec::new();
    while let Some(url) = search.next_request(URL, alphabet) {
        requests.push(url[URL.len()..].to_string());
        search.record(alphabet, answer);
    }
    requests
}

fn markers_in(request: &str) -> usize {
    request.matches("*/").count()
}

#[test]
fn a_new_dir_search_has_no_depth_pinned() {
    let search = search_dirs(String::from("../"), 4);
    assert_eq!(search.base_directory, "../");
    assert_eq!(search.cur_dir, "");
    assert_eq!(search.max_depth, 4);
    assert_eq!(search.cur_depth, None);
    assert_eq!(search.next_char, 0);
    assert_eq!(search.next_depth, 1);
    assert!(!search.any_path_existed);
    let pinned = search_dirs_recursive(String::from("../"), String::from("im"), 4, Some(2));
    assert_eq!(pinned.cur_dir, "im");
    assert_eq!(pinned.cur_depth, Some(2));
}

#[test]
fn without_a_pinned_depth_every_depth_is_tried_for_every_character() {
    let alphabet = vec!['a', 'b'];
    let mut search = search_dirs(String::from("../"), 3);
    assert_eq!(
        all_requests(&mut search, &alphabet, false),
        vec!["../a*/", "../a*/*/", "../a*/*/*/", "../b*/", "../b*/*/", "../b*/*/*/"]
    );
    assert!(!search.any_path_existed);
    assert!(search.discovered_directory(&alphabet).is_none());
}

#[test]
fn with_a_pinned_depth_only_that_depth_is_tried() {
    let alphabet = vec!['a', 'b', 'c'];
    let mut search = search_dirs_recursive(String::from("../x/"), String::from("im"), 4, Some(2));
    assert_eq!(
        all_requests(&mut search, &alphabet, false),
        vec!["../x/ima*/*/", "../x/imb*/*/", "../x/imc*/*/"]
    );
    assert_eq!(search.discovered_directory(&alphabet).unwrap(), "../x/im/");
}

#[test]
fn no_probe_is_deeper_than_the_maximum() {
    let alphabet: Vec<char> = "ab.-_".chars().collect();
    for max_depth in 0..5 {
        let mut waiting = vec![search_dirs(String::from("../"), max_depth)];
        let mut made = 0;
        while let Some(mut search) = waiting.pop() {
            while let Some(url) = search.next_request(URL, &alphabet) {
                let depth = markers_in(&url);
                assert!(1 <= depth && depth <= max_depth);
                made += 1;
                let exists = search.cur_dir.len() < 2;
                if let Some(continuation) = search.record(&alphabet, exists) {
                    assert_eq!(continuation.cur_depth, Some(depth));
                    waiting.push(continuation);
                }
            }
        }
        if max_depth == 0 {
            assert_eq!(made, 0);
        } else {
            assert!(made > 0);
        }
    }
}

#[test]
fn dot_and_dot_dot_are_never_candidates() {
    let alphabet = vec!['.', 'a'];
    let mut top = search_dirs(String::from("../"), 2);
    assert_eq!(all_requests(&mut top, &alphabet, false), vec!["../a*/", "../a*/*/"]);
    let mut after_a = search_dirs_recursive(String::from("../"), String::from("a"), 2, Some(1));
    assert_eq!(all_requests(&mut after_a, &alphabet, false), vec!["../a.*/", "../aa*/"]);
    let only_dots = vec!['.', '.'];
    let mut nothing = search_dirs(String::from("../"), 2);
    assert!(nothing.next_request(URL, &only_dots).is_none());
    assert!(nothing.record(&only_dots, true).is_none());
    assert!(!nothing.any_path_existed);
}

#[test]
fn a_search_named_dot_or_dot_dot_does_nothing() {
    let alphabet = vec!['a', '.'];
    for name in [".", ".."] {
        for depth in [None, Some(1)] {
            let mut search =
                search_dirs_recursive(String::from("../"), String::from(name), 3, depth);
            assert!(search.next_request(URL, &alphabet).is_none());
            assert!(search.record(&alphabet, true).is_none());
            assert_eq!(search.next_char, 0);
            assert!(!search.any_path_existed);
            assert!(search.discovered_directory(&alphabet).is_none());
        }
    }
    let mut dots = search_dirs_recursive(String::from("../"), String::from("..."), 3, Some(1));
    assert_eq!(all_requests(&mut dots, &alphabet, false), vec!["../...a*/", "../....*/"]);
    assert_eq!(dots.discovered_directory(&alphabet).unwrap(), "../.../");
}

#[test]
fn an_answer_that_says_exists_pins_the_depth_of_the_probe() {
    let alphabet = vec!['a', 'b'];
    let mut search = search_dirs(String::from("../"), 2);
    assert!(search.record(&alphabet, false).is_none());
    assert_eq!((search.next_char, search.next_depth), (0, 2));
    let deep = search.record(&alphabet, true).unwrap();
    assert_eq!(deep.base_directory, "../");
    assert_eq!(deep.cur_dir, "a");
    assert_eq!(deep.max_depth, 2);
    assert_eq!(deep.cur_depth, Some(2));
    assert_eq!((deep.next_char, deep.next_depth), (0, 1));
    assert!(!deep.any_path_existed);
    assert_eq!((search.next_char, search.next_depth), (1, 1));
    assert!(search.any_path_existed);
    let shallow = search.record(&alphabet, true).unwrap();
    assert_eq!(shallow.cur_dir, "b");
    assert_eq!(shallow.cur_depth, Some(1));
    assert_eq!((search.next_char, search.next_depth), (1, 2));
    assert!(search.record(&alphabet, false).is_none());
    assert_eq!((search.next_char, search.next_depth), (2, 1));
    assert!(search.next_request(URL, &alphabet).is_none());
    assert!(search.record(&alphabet, true).is_none());
    assert_eq!((search.next_char, search.next_depth), (2, 1));
}

#[test]
fn a_pinned_search_keeps_its_depth() {
    let alphabet = vec!['a', 'b'];
    let mut search = search_dirs_recursive(String::from("../"), String::from("i"), 5, Some(3));
    let continuation = search.record(&alphabet, true).unwrap();
    assert_eq!(continuation.cur_dir, "ia");
    assert_eq!(continuation.cur_depth, Some(3));
    assert_eq!(search.cur_depth, Some(3));
    assert_eq!((search.next_char, search.next_depth), (1, 1));
    assert!(search.discovered_directory(&alphabet).is_none());
    search.record(&alphabet, false);
    assert!(search.discovered_directory(&alphabet).is_none());
}

#[test]
fn a_directory_is_found_only_by_a_pinned_search_that_is_through() {
    let alphabet = vec!['a'];
    let mut pinned = search_dirs_recursive(String::from("../"), String::from("img"), 2, Some(1));
    assert!(pinned.discovered_directory(&alphabet).is_none());
    pinned.record(&alphabet, false);
    assert_eq!(pinned.discovered_directory(&alphabet).unwrap(), "../img/");
    let mut free = search_dirs_recursive(String::from("../"), String::from("img"), 2, None);
    all_requests(&mut free, &alphabet, false);
    assert!(free.discovered_directory(&alphabet).is_none());
    let nameless = search_dirs_recursive(String::from("../"), String::new(), 2, Some(1));
    assert!(nameless.discovered_directory(&Vec::new()).is_none());
    let too_deep = search_dirs_recursive(String::from("../"), String::from("a"), 2, Some(3));
    assert!(too_deep.next_request(URL, &alphabet).is_none());
    assert!(too_deep.discovered_directory(&alphabet).is_none());
    let no_depth = search_dirs_recursive(String::from("../"), String::from("a"), 2, Some(0));
    assert!(no_depth.next_request(URL, &alphabet).is_none());
    assert!(no_depth.discovered_directory(&alphabet).is_none());
}

#[test]
fn a_scan_is_a_file_search_and_a_dir_search() {
    let (files, dirs) = scan_directory(String::from("../a/"), 4);
    assert_eq!(files.directory, "../a/");
    assert_eq!(files.cur_file, "");
    assert_eq!(files.next_char, 0);
    assert!(!files.any_path_existed);
    assert_eq!(dirs.base_directory, "../a/");
    assert_eq!(dirs.cur_dir, "");
    assert_eq!(dirs.max_depth, 4);
    assert_eq!(dirs.cur_depth, None);
    assert_eq!((dirs.next_char, dirs.next_depth), (0, 1));
    assert!(!dirs.any_path_existed);
}

/// A remote side that holds `files` and answers as a search for a prefix
/// does: a probe without markers matches a file of the probed directory
/// whose name starts as the probe ends, and a probe with `n` markers matches
/// a file `n` levels below a directory whose name starts so.
fn answers(files: &[&str], probe: &str) -> bool {
    let depth = probe.matches("*/").count();
    let candidate = &probe[..probe.len() - 2 * depth];
    files.iter().any(|file| {
        file.starts_with(candidate) && file[candidate.len()..].matches('/').count() == depth
    })
}

fn run_scan(files: &[&str], alphabet: &Vec<char>, max_depth: usize) -> (FileSystemEntry, usize) {
    let mut tree = FileSystemEntry::new();
    let mut file_searches: Vec<FileSearch> = Vec::new();
    let mut dir_searches: Vec<DirSearch> = Vec::new();
    let mut scans = vec![String::from("../")];
    let mut probes = 0;
    loop {
        if let Some(directory) = scans.pop() {
            let (file_search, dir_search) = scan_directory(directory, max_depth);
            file_searches.push(file_search);
            dir_searches.push(dir_search);
        } else if let Some(mut search) = file_searches.pop() {
            while let Some(url) = search.next_request(URL, alphabet) {
                probes += 1;
                let exists = answers(files, &url[URL.len()..]);
                if let Some(continuation) = search.record(alphabet, exists) {
                    file_searches.push(continuation);
                }
            }
            if search.confirmed_file(alphabet) {
                add_file(&search.directory, &search.cur_file, &mut tree);
            }
        } else if let Some(mut search) = dir_searches.pop() {
            while let Some(url) = search.next_request(URL, alphabet) {
                probes += 1;
                assert!(url.matches("*/").count() <= max_depth);
                let exists = answers(files, &url[URL.len()..]);
                if let Some(continuation) = search.record(alphabet, exists) {
                    dir_searches.push(continuation);
                }
            }
            if let Some(directory) = search.discovered_directory(alphabet) {
                scans.push(directory);
            }
        } else {
            break;
        }
    }
    (tree, probes)
}

fn at(tree: &FileSystemEntry, parts: &[&str]) -> Option<EntryKind> {
    let mut path = Vec::new();
    for part in parts {
        path.push(part.to_string());
    }
    tree.kind_at(&path)
}

#[test]
fn a_scan_finds_the_files_and_the_directories() {
    let files = ["../readme", "../img/a", "../img/b", "../img/big/c", "../doc/d"];
    let alphabet: Vec<char> = "abcdegimor".chars().collect();
    let (tree, probes) = run_scan(&files, &alphabet, 2);
    assert!(probes > 0);
    assert_eq!(at(&tree, &["readme"]), Some(EntryKind::File));
    assert_eq!(at(&tree, &["img"]), Some(EntryKind::Dir));
    assert_eq!(at(&tree, &["img", "a"]), Some(EntryKind::File));
    assert_eq!(at(&tree, &["img", "b"]), Some(EntryKind::File));
    assert_eq!(at(&tree, &["img", "big"]), Some(EntryKind::Dir));
    assert_eq!(at(&tree, &["img", "big", "c"]), Some(EntryKind::File));
    assert_eq!(at(&tree, &["doc", "d"]), Some(EntryKind::File));
    assert_eq!(at(&tree, &["doc", "a"]), None);
    assert_eq!(at(&tree, &["a"]), None);
}

#[test]
fn a_scan_of_nothing_finds_nothing() {
    let alphabet: Vec<char> = "ab".chars().collect();
    let (tree, probes) = run_scan(&[], &alphabet, 3);
    assert_eq!(probes, 2 + 2 * 3);
    match tree {
        FileSystemEntry::Dir { subentries } => assert!(subentries.is_empty()),
        FileSystemEntry::File => panic!("the root is a directory"),
    }
}
