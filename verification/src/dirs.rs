//! Directory discovery: the names of the directories directly below one
//! directory.
//!
//! Whether a directory exists cannot be asked. What can be asked is whether
//! anything lies a given number of levels below a directory whose name starts
//! in a given way. A search with no pinned depth tries, for each character of
//! the alphabet, every depth from 1 to the maximum. Each answer that says
//! "exists" starts a continuation for the name that is one character longer,
//! pinned to the depth of that answer, which from then on tries that depth
//! alone. A pinned search that no character extends has the whole name of a
//! directory, and the caller starts a scan of that directory.
//!
//! The names `.` and `..` stand for a directory itself and for the one above
//! it, and following them would lead the scan round in circles. So no probe
//! is ever made for either of them as a candidate, and a search whose name is
//! one of them makes no probe and finds nothing. A directory whose name
//! starts with a dot is therefore never found, nor is one whose name holds a
//! character outside the alphabet.

use vstd::prelude::*;
use crate::probe::{dir_request, markers};
use crate::text::push_char;

verus! {

/// One level of the search for directory names below a directory.
#[derive(Debug)]
pub struct DirSearch {
    /// The directory below which names are searched, as text.
    pub base_directory: String,
    /// The prefix that this level extends.
    pub cur_dir: String,
    /// The greatest depth that a probe may have.
    pub max_depth: usize,
    /// The pinned depth, once an answer has pinned one.
    pub cur_depth: Option<usize>,
    /// The place in the alphabet from which the next character is taken.
    pub next_char: usize,
    /// The depth to try next while no depth is pinned.
    pub next_depth: usize,
    /// Whether any probe so far was answered with "exists".
    pub any_path_existed: bool,
}

/// The two names that are never probed.
pub open spec fn reserved(name: Seq<char>) -> bool {
    name == seq!['.'] || name == seq!['.', '.']
}

/// The first place from `from` on whose character makes a candidate of
/// `name` that may be probed; a place past the end of the alphabet where
/// there is none.
pub open spec fn first_allowed(name: Seq<char>, alphabet: Seq<char>, from: int) -> int
    decreases alphabet.len() - from,
{
    if from < 0 || from >= alphabet.len() {
        from
    } else if !reserved(name.push(alphabet[from])) {
        from
    } else {
        first_allowed(name, alphabet, from + 1)
    }
}

/// Whether `name` is `.` or `..`.
fn is_reserved(name: &str) -> (r: bool)
    ensures
        r == reserved(name@),
{
    let length = name.unicode_len();
    let r = (length == 1 && name.get_char(0) == '.') || (length == 2 && name.get_char(0) == '.'
        && name.get_char(1) == '.');
    proof {
        if r {
            if length == 1 {
                assert(name@ =~= seq!['.']);
            } else {
                assert(name@ =~= seq!['.', '.']);
            }
        }
        if reserved(name@) {
            if name@.len() == 1 {
                assert(name@[0] == seq!['.'][0]);
            } else {
                assert(name@[0] == seq!['.', '.'][0]);
                assert(name@[1] == seq!['.', '.'][1]);
            }
        }
    }
    r
}

/// Whether `name` with `candidate` behind it is `.` or `..`.
fn makes_reserved(name: &str, candidate: char) -> (r: bool)
    ensures
        r == reserved(name@.push(candidate)),
{
    let length = name.unicode_len();
    let r = candidate == '.' && (length == 0 || (length == 1 && name.get_char(0) == '.'));
    proof {
        let longer = name@.push(candidate);
        if r {
            if length == 0 {
                assert(longer =~= seq!['.']);
            } else {
                assert(longer =~= seq!['.', '.']);
            }
        }
        if reserved(longer) {
            if longer.len() == 1 {
                assert(longer[0] == seq!['.'][0]);
            } else {
                assert(longer[0] == seq!['.', '.'][0]);
                assert(longer[1] == seq!['.', '.'][1]);
            }
        }
    }
    r
}

impl DirSearch {
    /// The depth of the next probe: the pinned depth, or the depth that is
    /// next to be tried.
    pub open spec fn depth(&self) -> int {
        match self.cur_depth {
            Some(pinned) => pinned as int,
            None => self.next_depth as int,
        }
    }

    /// The place in the alphabet of the character of the next probe.
    pub open spec fn cursor(&self, alphabet: Seq<char>) -> int {
        first_allowed(self.cur_dir@, alphabet, self.next_char as int)
    }

    /// A probe is left to make.
    pub open spec fn pending(&self, alphabet: Seq<char>) -> bool {
        &&& !reserved(self.cur_dir@)
        &&& 1 <= self.depth() <= self.max_depth
        &&& self.cursor(alphabet) < alphabet.len()
    }

    /// The search is pinned and through, nothing extends its name, and the
    /// name is one that a directory can have: so it is the whole name of a
    /// directory.
    pub open spec fn discovers(&self, alphabet: Seq<char>) -> bool {
        &&& self.cur_depth is Some
        &&& 1 <= self.depth() <= self.max_depth
        &&& self.cur_dir@.len() > 0
        &&& !reserved(self.cur_dir@)
        &&& self.cursor(alphabet) >= alphabet.len()
        &&& !self.any_path_existed
    }

    /// The place in the alphabet of the character of the next probe.
    fn cursor_of(&self, alphabet: &Vec<char>) -> (place: usize)
        ensures
            place == self.cursor(alphabet@),
            self.next_char <= place,
    {
        let mut place = self.next_char;
        while place < alphabet.len() && makes_reserved(self.cur_dir.as_str(), alphabet[place])
            invariant
                self.next_char <= place,
                first_allowed(self.cur_dir@, alphabet@, place as int) == self.cursor(alphabet@),
            decreases alphabet.len() - place,
        {
            place = place + 1;
        }
        place
    }

    /// Whether a probe is left to make.
    fn is_pending(&self, alphabet: &Vec<char>) -> (pending: bool)
        ensures
            pending == self.pending(alphabet@),
    {
        let depth = match self.cur_depth {
            Some(pinned) => pinned,
            None => self.next_depth,
        };
        !is_reserved(self.cur_dir.as_str()) && 1 <= depth && depth <= self.max_depth
            && self.cursor_of(alphabet) < alphabet.len()
    }

    /// The request to send next, or `None` when the search is through.
    ///
    /// A request is made only for a depth from 1 to the maximum, and never
    /// for the candidate `.` or `..`.
    pub fn next_request(&self, search_url: &str, alphabet: &Vec<char>) -> (request: Option<String>)
        ensures
            request is Some <==> self.pending(alphabet@),
            request matches Some(url) ==> {
                let candidate = alphabet@[self.cursor(alphabet@)];
                &&& url@ == search_url@ + self.base_directory@ + self.cur_dir@ + seq![candidate]
                    + markers(self.depth() as nat)
                &&& 1 <= self.depth() <= self.max_depth
                &&& !reserved(self.cur_dir@.push(candidate))
                &&& !reserved(self.cur_dir@)
            },
    {
        if !self.is_pending(alphabet) {
            return None;
        }
        let place = self.cursor_of(alphabet);
        let depth = match self.cur_depth {
            Some(pinned) => pinned,
            None => self.next_depth,
        };
        proof {
            lemma_first_allowed(self.cur_dir@, alphabet@, self.next_char as int);
        }
        Some(
            dir_request(
                search_url,
                self.base_directory.as_str(),
                self.cur_dir.as_str(),
                alphabet[place],
                depth,
            ),
        )
    }

    /// Takes the oracle's answer to the request that `next_request` gave and
    /// moves on: a pinned search to the next character, a search without a
    /// pinned depth to the next depth and, after the last depth, to the next
    /// character at depth 1. Where the answer is that something exists, the
    /// result is the continuation: the search, from its start, for the
    /// candidate that was probed, pinned to the depth of the probe. With no
    /// probe left to make, nothing changes.
    pub fn record(&mut self, alphabet: &Vec<char>, exists: bool) -> (continuation: Option<
        DirSearch,
    >)
        ensures
            final(self).base_directory == old(self).base_directory,
            final(self).cur_dir == old(self).cur_dir,
            final(self).max_depth == old(self).max_depth,
            final(self).cur_depth == old(self).cur_depth,
            !old(self).pending(alphabet@) ==> *final(self) == *old(self),
            old(self).pending(alphabet@) ==> {
                let place = old(self).cursor(alphabet@);
                let same_char = old(self).cur_depth is None && old(self).next_depth < old(
                    self,
                ).max_depth;
                &&& final(self).any_path_existed == (old(self).any_path_existed || exists)
                &&& final(self).next_char == if same_char {
                    place
                } else {
                    place + 1
                }
                &&& final(self).next_depth == if old(self).cur_depth is Some {
                    old(self).next_depth as int
                } else if same_char {
                    old(self).next_depth + 1
                } else {
                    1
                }
            },
            continuation is Some <==> old(self).pending(alphabet@) && exists,
            continuation matches Some(next) ==> {
                &&& next.base_directory@ == old(self).base_directory@
                &&& next.cur_dir@ == old(self).cur_dir@.push(
                    alphabet@[old(self).cursor(alphabet@)],
                )
                &&& !reserved(next.cur_dir@)
                &&& next.max_depth == old(self).max_depth
                &&& next.cur_depth == Some(old(self).depth() as usize)
                &&& 1 <= old(self).depth() <= next.max_depth
                &&& next.next_char == 0
                &&& next.next_depth == 1
                &&& !next.any_path_existed
            },
    {
        if !self.is_pending(alphabet) {
            return None;
        }
        let place = self.cursor_of(alphabet);
        proof {
            lemma_first_allowed(self.cur_dir@, alphabet@, self.next_char as int);
        }
        assert(place < alphabet.len());
        let tried = alphabet[place];
        let depth = match self.cur_depth {
            Some(pinned) => pinned,
            None => self.next_depth,
        };
        if self.cur_depth.is_none() && self.next_depth < self.max_depth {
            self.next_char = place;
            self.next_depth = self.next_depth + 1;
        } else {
            self.next_char = place + 1;
            if self.cur_depth.is_none() {
                self.next_depth = 1;
            }
        }
        if exists {
            self.any_path_existed = true;
            let mut dirname = self.cur_dir.clone();
            push_char(&mut dirname, tried);
            Some(
                search_dirs_recursive(
                    self.base_directory.clone(),
                    dirname,
                    self.max_depth,
                    Some(depth),
                ),
            )
        } else {
            None
        }
    }

    /// The directory that this search has found, as the text under which
    /// its scan is to start: the base directory, the name, and a slash.
    /// `None` unless the search is pinned and through with no probe answered
    /// "exists", and its name is a name: not empty, not `.` and not `..`.
    pub fn discovered_directory(&self, alphabet: &Vec<char>) -> (found: Option<String>)
        ensures
            found is Some <==> self.discovers(alphabet@),
            found matches Some(directory) ==> directory@ == self.base_directory@ + self.cur_dir@
                + seq!['/'],
    {
        let pinned = match self.cur_depth {
            Some(pinned) => pinned,
            None => {
                return None;
            },
        };
        if pinned < 1 || pinned > self.max_depth || self.any_path_existed
            || self.cur_dir.as_str().is_empty() || is_reserved(self.cur_dir.as_str())
            || self.cursor_of(alphabet) < alphabet.len() {
            return None;
        }
        let mut directory = self.base_directory.clone();
        directory.append(self.cur_dir.as_str());
        push_char(&mut directory, '/');
        proof {
            assert(directory@ =~= self.base_directory@ + self.cur_dir@ + seq!['/']);
        }
        Some(directory)
    }
}

/// Where a search comes to rest in the alphabet: at or behind where it stood,
/// on a character whose candidate may be probed unless the alphabet is at its
/// end, with no such character passed over.
pub proof fn lemma_first_allowed(name: Seq<char>, alphabet: Seq<char>, from: int)
    requires
        0 <= from,
    ensures
        from <= first_allowed(name, alphabet, from),
        from <= alphabet.len() ==> first_allowed(name, alphabet, from) <= alphabet.len(),
        first_allowed(name, alphabet, from) < alphabet.len() ==> !reserved(
            name.push(alphabet[first_allowed(name, alphabet, from)]),
        ),
        forall|i: int|
            from <= i < first_allowed(name, alphabet, from) && i < alphabet.len() ==> reserved(
                name.push(#[trigger] alphabet[i]),
            ),
    decreases alphabet.len() - from,
{
    if from < alphabet.len() && reserved(name.push(alphabet[from])) {
        lemma_first_allowed(name, alphabet, from + 1);
    }
}

/// The search for the directories below `base_directory` whose names start
/// with `cur_dir`, pinned to `cur_depth` where that is given, with nothing
/// tried yet.
pub fn search_dirs_recursive(
    base_directory: String,
    cur_dir: String,
    max_depth: usize,
    cur_depth: Option<usize>,
) -> (search: DirSearch)
    ensures
        search.base_directory == base_directory,
        search.cur_dir == cur_dir,
        search.max_depth == max_depth,
        search.cur_depth == cur_depth,
        search.next_char == 0,
        search.next_depth == 1,
        !search.any_path_existed,
{
    DirSearch {
        base_directory,
        cur_dir,
        max_depth,
        cur_depth,
        next_char: 0,
        next_depth: 1,
        any_path_existed: false,
    }
}

/// The search for all the directories below `base_directory`: it starts from
/// the empty prefix, with no depth pinned.
pub fn search_dirs(base_directory: String, max_depth: usize) -> (search: DirSearch)
    ensures
        search.base_directory == base_directory,
        search.cur_dir@ == Seq::<char>::empty(),
        search.max_depth == max_depth,
        search.cur_depth is None,
        search.next_char == 0,
        search.next_depth == 1,
        !search.any_path_existed,
{
    search_dirs_recursive(base_directory, String::new(), max_depth, None)
}

} // verus!
