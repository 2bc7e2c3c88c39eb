//! Blind discovery of the files and directories of a remote service that
//! says no more than whether a guessed path matches anything.
//!
//! Names are guessed one character at a time. A guess that the oracle
//! confirms is extended further; a name that nothing extends is complete, and
//! is recorded in the tree of what has been found.
//!
//! The library plans and judges; it sends nothing itself. A caller takes each
//! request from a search, sends it, feeds the answer's body to a
//! [`sentinel::SentinelMatcher`], hands the verdict back to the search, and
//! runs the continuations that the search gives it, in any order and as many
//! at a time as it likes.
//!
//! - [`config`]: the alphabet, the endpoint and the sentinel.
//! - [`sentinel`]: reading an answer as it streams in.
//! - [`probe`]: the text of a request.
//! - [`files`]: the search for the files of a directory.
//! - [`dirs`]: the search for the directories below a directory.
//! - [`scan`]: both searches for one directory.
//! - [`path`]: directory paths as text and as lists of names.
//! - [`tree`]: the tree of what has been found, and [`export`], its listing.
//! - [`tree_laws`]: what holds of recording, whatever is recorded.

pub mod config;
pub mod dirs;
pub mod export;
pub mod files;
pub mod path;
pub mod probe;
pub mod scan;
pub mod sentinel;
mod text;
pub mod tree;
pub mod tree_laws;
mod tree_proofs;
