//! The scan of one directory: the search for its files and the search for
//! its directories, which run side by side.

use vstd::prelude::*;
use crate::dirs::{search_dirs, DirSearch};
use crate::files::{search_files, FileSearch};

verus! {

/// The two searches that make up the scan of `directory`: the one for its
/// files, from the empty prefix, and the one for the directories below it,
/// from the empty prefix with no depth pinned and with probes of at most
/// `max_depth` levels. The caller lets the first run on its own and follows
/// the second; each directory that the second finds is scanned in turn.
pub fn scan_directory(directory: String, max_depth: usize) -> (searches: (FileSearch, DirSearch))
    ensures
        searches.0.directory@ == directory@,
        searches.0.cur_file@ == Seq::<char>::empty(),
        searches.0.next_char == 0,
        !searches.0.any_path_existed,
        searches.1.base_directory@ == directory@,
        searches.1.cur_dir@ == Seq::<char>::empty(),
        searches.1.max_depth == max_depth,
        searches.1.cur_depth is None,
        searches.1.next_char == 0,
        searches.1.next_depth == 1,
        !searches.1.any_path_existed,
{
    let files = search_files(directory.clone());
    let dirs = search_dirs(directory, max_depth);
    (files, dirs)
}

} // verus!
