//! File discovery: the names of the files of one directory, found character
//! by character.
//!
//! One `FileSearch` is one level of the search: a directory, a prefix that is
//! known to start some file name, and the alphabet positions still to try
//! behind it. The caller sends each request, hands the oracle's answer back,
//! and starts the continuations it is given, each as a search of its own.
//! Names with a character outside the alphabet are never found.

use vstd::prelude::*;
use crate::probe::file_request;
use crate::text::push_char;

verus! {

/// One level of the search for file names in a directory.
#[derive(Debug)]
pub struct FileSearch {
    /// The directory that is searched, as text.
    pub directory: String,
    /// The prefix that this level extends.
    pub cur_file: String,
    /// The place in the alphabet of the next character to try.
    pub next_char: usize,
    /// Whether any character tried so far extends the prefix.
    pub any_path_existed: bool,
}

impl FileSearch {
    /// A character is left to try.
    pub open spec fn pending(&self, alphabet: Seq<char>) -> bool {
        self.next_char < alphabet.len()
    }

    /// The level is through, nothing extends its prefix, and the prefix is a
    /// name: so the prefix is the whole name of a file.
    pub open spec fn confirms_file(&self, alphabet: Seq<char>) -> bool {
        &&& !self.pending(alphabet)
        &&& !self.any_path_existed
        &&& self.cur_file@.len() > 0
    }

    /// The request to send next: it asks about the prefix with the next
    /// character of the alphabet behind it. `None` when every character has
    /// been tried.
    pub fn next_request(&self, search_url: &str, alphabet: &Vec<char>) -> (request: Option<String>)
        ensures
            request is Some <==> self.pending(alphabet@),
            request matches Some(url) ==> url@ == search_url@ + self.directory@ + self.cur_file@
                + seq![alphabet@[self.next_char as int]],
    {
        if self.next_char < alphabet.len() {
            Some(
                file_request(
                    search_url,
                    self.directory.as_str(),
                    self.cur_file.as_str(),
                    alphabet[self.next_char],
                ),
            )
        } else {
            None
        }
    }

    /// Takes the oracle's answer to the request that `next_request` gave and
    /// moves on to the next character. Where the answer is that something
    /// exists, the result is the continuation: the search, from its start,
    /// for the prefix that is one character longer. With no character left
    /// to try, nothing changes.
    pub fn record(&mut self, alphabet: &Vec<char>, exists: bool) -> (continuation: Option<
        FileSearch,
    >)
        ensures
            final(self).directory == old(self).directory,
            final(self).cur_file == old(self).cur_file,
            old(self).pending(alphabet@) ==> final(self).next_char == old(self).next_char + 1
                && final(self).any_path_existed == (old(self).any_path_existed || exists),
            !old(self).pending(alphabet@) ==> final(self).next_char == old(self).next_char
                && final(self).any_path_existed == old(self).any_path_existed,
            continuation is Some <==> old(self).pending(alphabet@) && exists,
            continuation matches Some(next) ==> {
                &&& next.directory@ == old(self).directory@
                &&& next.cur_file@ == old(self).cur_file@.push(
                    alphabet@[old(self).next_char as int],
                )
                &&& next.next_char == 0
                &&& !next.any_path_existed
            },
    {
        if self.next_char >= alphabet.len() {
            return None;
        }
        let tried = alphabet[self.next_char];
        self.next_char = self.next_char + 1;
        if exists {
            self.any_path_existed = true;
            let mut filename = self.cur_file.clone();
            push_char(&mut filename, tried);
            Some(search_files_recursive(self.directory.clone(), filename))
        } else {
            None
        }
    }

    /// Whether this level has shown its prefix to be the whole name of a
    /// file, which then belongs into the tree under the directory: every
    /// character has been tried, none extends the prefix, and the prefix is
    /// not empty.
    pub fn confirmed_file(&self, alphabet: &Vec<char>) -> (confirmed: bool)
        ensures
            confirmed == self.confirms_file(alphabet@),
    {
        self.next_char >= alphabet.len() && !self.any_path_existed && !self.cur_file.as_str().is_empty()
    }
}

/// The search for the files of `directory` whose names start with
/// `cur_file`, with nothing tried yet.
pub fn search_files_recursive(directory: String, cur_file: String) -> (search: FileSearch)
    ensures
        search.directory == directory,
        search.cur_file == cur_file,
        search.next_char == 0,
        !search.any_path_existed,
{
    FileSearch { directory, cur_file, next_char: 0, any_path_existed: false }
}

/// The search for all the files of `directory`: it starts from the empty
/// prefix.
pub fn search_files(directory: String) -> (search: FileSearch)
    ensures
        search.directory == directory,
        search.cur_file@ == Seq::<char>::empty(),
        search.next_char == 0,
        !search.any_path_existed,
{
    search_files_recursive(directory, String::new())
}

} // verus!
