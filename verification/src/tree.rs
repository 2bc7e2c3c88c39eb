//! The discovered tree: every file and directory whose existence has been
//! confirmed, arranged as the remote filesystem arranges them.
//!
//! The tree only grows. What it holds is read as a map from places to kinds,
//! a place being the list of names that leads to it from the root.

use vstd::prelude::*;
use crate::path::{directory_segments, path_from, path_of, segments};
use crate::tree_proofs::{
    lemma_entry_found,
    lemma_file_added,
    lemma_graft_here,
    lemma_graft_step,
    lemma_lookup_via,
    lemma_no_entry,
    lemma_obstructed_step,
    lemma_obstructed_view,
    lemma_same_step,
    lemma_same_view,
    lemma_stepped_well_formed,
    lemma_steps_into_child,
    lemma_steps_into_well_formed,
    stepped,
    steps_into,
};

verus! {

/// What a node of the tree is.
#[derive(Clone, Copy, Debug, PartialEq, Eq, Structural)]
pub enum EntryKind {
    File,
    Dir,
}

/// A named child of a directory.
#[derive(Debug)]
pub struct DirEntry {
    pub name: String,
    pub node: FileSystemEntry,
}

/// A node of the discovered tree. A file has no children; a directory owns
/// its children, in the order in which they were recorded.
#[derive(Debug)]
pub enum FileSystemEntry {
    File,
    Dir { subentries: Vec<DirEntry> },
}

/// `a` is `b` cut off at some point (possibly `b` itself).
pub open spec fn is_prefix(a: Seq<Seq<char>>, b: Seq<Seq<char>>) -> bool {
    a.len() <= b.len() && b.take(a.len() as int) == a
}

/// Entry `i` is the first of the list that bears `name`: the one that stands
/// for the name.
pub open spec fn names_entry(entries: Seq<DirEntry>, name: Seq<char>, i: int) -> bool {
    &&& 0 <= i < entries.len()
    &&& entries[i].name@ == name
    &&& forall|j: int| 0 <= j < i ==> (#[trigger] entries[j]).name@ != name
}

/// Some entry of the list bears `name`.
pub open spec fn has_entry(entries: Seq<DirEntry>, name: Seq<char>) -> bool {
    exists|i: int| names_entry(entries, name, i)
}

/// The place in the list of the entry that stands for `name`, where there is
/// one.
pub open spec fn entry_index(entries: Seq<DirEntry>, name: Seq<char>) -> int {
    choose|i: int| names_entry(entries, name, i)
}

/// No two entries of the list bear the same name.
pub open spec fn distinct_names(entries: Seq<DirEntry>) -> bool {
    forall|i: int, j: int|
        0 <= i < j < entries.len() ==> (#[trigger] entries[i]).name@ != (#[trigger] entries[j]).name@
}

/// The entries have distinct names and each of them is a well-formed tree.
pub open spec fn entries_well_formed(entries: Seq<DirEntry>) -> bool {
    &&& distinct_names(entries)
    &&& forall|i: int| 0 <= i < entries.len() ==> (#[trigger] entries[i]).node.well_formed()
}

/// What stands in a directory with these entries at the end of `path`, read
/// from that directory. `path` is not empty.
pub open spec fn lookup_in(entries: Seq<DirEntry>, path: Seq<Seq<char>>) -> Option<EntryKind>
    recommends
        path.len() > 0,
{
    if has_entry(entries, path[0]) {
        entries[entry_index(entries, path[0])].node.lookup(path.drop_first())
    } else {
        None
    }
}

/// What `place` holds once the directory at `path` of `tree`, with all the
/// directories that lead to it, has `entries` for its contents.
pub open spec fn grafted(
    tree: FileSystemEntry,
    path: Seq<Seq<char>>,
    entries: Seq<DirEntry>,
    place: Seq<Seq<char>>,
) -> Option<EntryKind> {
    if is_prefix(place, path) {
        Some(EntryKind::Dir)
    } else if is_prefix(path, place) {
        lookup_in(entries, place.skip(path.len() as int))
    } else {
        tree.lookup(place)
    }
}

/// What a directory's entries are when they are handed out: they hold what
/// `before` holds below `path`, and are well formed if `before` is.
pub open spec fn hands_out(
    before: FileSystemEntry,
    path: Seq<Seq<char>>,
    handed: Seq<DirEntry>,
) -> bool {
    &&& before.well_formed() ==> entries_well_formed(handed)
    &&& forall|rest: Seq<Seq<char>>|
        rest.len() > 0 ==> #[trigger] lookup_in(handed, rest) == before.lookup(path + rest)
}

/// What the tree is once the entries that were handed out come back as
/// `returned`: `before` with every directory along `path` in place and with
/// `returned` for the contents of the last. It is well formed if `before`
/// was and `returned` is.
pub open spec fn takes_back(
    before: FileSystemEntry,
    path: Seq<Seq<char>>,
    returned: Seq<DirEntry>,
    after: FileSystemEntry,
) -> bool {
    &&& before.well_formed() && entries_well_formed(returned) ==> after.well_formed()
    &&& forall|place: Seq<Seq<char>>| #[trigger]
        after.lookup(place) == grafted(before, path, returned, place)
}

/// A file stands on the way along `path` in a tree that holds `tree`.
pub open spec fn blocked(tree: Map<Seq<Seq<char>>, EntryKind>, path: Seq<Seq<char>>) -> bool {
    exists|k: int|
        0 <= k <= path.len() && tree.contains_key(#[trigger] path.take(k)) && tree[path.take(k)]
            == EntryKind::File
}

/// What a tree that holds `tree` holds after the file `name` was put into
/// the directory `dir`. Where a file stands on the way, nothing changes.
/// Otherwise every directory along `dir` is there, and so is `name` in the
/// last of them: as a file if nothing stood there before, else as what stood
/// there. Nothing that was there leaves or changes.
pub open spec fn with_file(
    tree: Map<Seq<Seq<char>>, EntryKind>,
    dir: Seq<Seq<char>>,
    name: Seq<char>,
) -> Map<Seq<Seq<char>>, EntryKind> {
    if blocked(tree, dir) {
        tree
    } else {
        Map::new(
            |place: Seq<Seq<char>>|
                tree.contains_key(place) || is_prefix(place, dir) || place == dir.push(name),
            |place: Seq<Seq<char>>|
                if tree.contains_key(place) {
                    tree[place]
                } else if place == dir.push(name) {
                    EntryKind::File
                } else {
                    EntryKind::Dir
                },
        )
    }
}

impl View for FileSystemEntry {
    type V = Map<Seq<Seq<char>>, EntryKind>;

    /// Every place that the tree holds, with what stands there. A place is
    /// the list of names that leads to it from the root; the root itself is
    /// the empty list.
    open spec fn view(&self) -> Map<Seq<Seq<char>>, EntryKind> {
        Map::new(
            |place: Seq<Seq<char>>| self.lookup(place) is Some,
            |place: Seq<Seq<char>>| self.lookup(place).unwrap(),
        )
    }
}

/// The place of the first entry that bears `name`.
fn find(entries: &Vec<DirEntry>, name: &String) -> (r: Option<usize>)
    ensures
        r matches Some(i) ==> names_entry(entries@, name@, i as int),
        r is None ==> forall|j: int| 0 <= j < entries.len() ==> (#[trigger] entries[j]).name@ != name@,
{
    let mut i: usize = 0;
    while i < entries.len()
        invariant
            i <= entries.len(),
            forall|j: int| 0 <= j < i ==> (#[trigger] entries[j]).name@ != name@,
        decreases entries.len() - i,
    {
        if entries[i].name == *name {
            return Some(i);
        }
        i += 1;
    }
    None
}

impl FileSystemEntry {
    /// File or directory.
    pub open spec fn kind(self) -> EntryKind {
        match self {
            FileSystemEntry::File => EntryKind::File,
            FileSystemEntry::Dir { .. } => EntryKind::Dir,
        }
    }

    /// Sibling names are distinct, at every level. Every tree that starts
    /// from [`FileSystemEntry::new`] and grows by [`add_file`] is so.
    pub open spec fn well_formed(self) -> bool
        decreases self,
    {
        match self {
            FileSystemEntry::File => true,
            FileSystemEntry::Dir { subentries } => {
                &&& distinct_names(subentries@)
                &&& forall|i: int|
                    0 <= i < subentries@.len() ==> (#[trigger] subentries@[i]).node.well_formed()
            },
        }
    }

    /// What stands at the end of `path`, read from this node: `None` where the
    /// tree holds nothing there.
    pub open spec fn lookup(self, path: Seq<Seq<char>>) -> Option<EntryKind>
        decreases path.len(),
    {
        if path.len() == 0 {
            Some(self.kind())
        } else {
            match self {
                FileSystemEntry::File => None,
                FileSystemEntry::Dir { subentries } => {
                    if has_entry(subentries@, path[0]) {
                        subentries@[entry_index(subentries@, path[0])].node.lookup(
                            path.drop_first(),
                        )
                    } else {
                        None
                    }
                },
            }
        }
    }

    /// A file stands on the way along `path`, so that no directory can be
    /// reached or made there.
    pub open spec fn obstructed(self, path: Seq<Seq<char>>) -> bool {
        exists|k: int|
            0 <= k <= path.len() && #[trigger] self.lookup(path.take(k)) == Some(EntryKind::File)
    }

    /// The tree of a scan that has found nothing yet: its root directory,
    /// empty.
    pub fn new() -> (root: FileSystemEntry)
        ensures
            root.well_formed(),
            root@ == Map::<Seq<Seq<char>>, EntryKind>::empty().insert(
                Seq::<Seq<char>>::empty(),
                EntryKind::Dir,
            ),
    {
        let root = FileSystemEntry::Dir { subentries: Vec::new() };
        proof {
            assert forall|place: Seq<Seq<char>>| place.len() > 0 implies root.lookup(place)
                is None by {
                lemma_no_entry(root->subentries@, place[0]);
            }
            assert forall|place: Seq<Seq<char>>| #[trigger]
                root@.contains_key(place) implies place == Seq::<Seq<char>>::empty() by {
                assert(place =~= Seq::<Seq<char>>::empty());
            }
            assert(root@ =~= Map::<Seq<Seq<char>>, EntryKind>::empty().insert(
                Seq::<Seq<char>>::empty(),
                EntryKind::Dir,
            ));
        }
        root
    }

    /// Walks from this node along `parts[next..]`, making each directory on
    /// the way that is not there yet, and hands out the entries of the
    /// directory at the end; with no part left at `next`, that is this node
    /// itself. Returns `None`, with the tree as it was, exactly when a file
    /// stands on the way.
    ///
    /// Whatever the caller then does to the entries it was handed becomes the
    /// contents of that directory; everything else stays as the walk left it.
    pub fn get_next_dir<'a>(&'a mut self, parts: &Vec<String>, next: usize) -> (r: Option<
        &'a mut Vec<DirEntry>,
    >)
        ensures
            r is None <==> old(self).obstructed(path_from(parts@, next as int)),
            r is None ==> final(self)@ == old(self)@,
            r is None && old(self).well_formed() ==> final(self).well_formed(),
            r is Some ==> hands_out(*old(self), path_from(parts@, next as int), r.unwrap()@),
            r is Some ==> takes_back(
                *old(self),
                path_from(parts@, next as int),
                final(r.unwrap())@,
                *final(self),
            ),
        decreases parts.len() - next,
    {
        let ghost whole = self;
        let ghost tree = *self;
        let ghost path = path_from(parts@, next as int);
        match self {
            FileSystemEntry::File => {
                proof {
                    assert(path.take(0).len() == 0);
                    assert(tree.lookup(path.take(0)) == Some(EntryKind::File));
                }
                None
            },
            FileSystemEntry::Dir { subentries } => {
                if next >= parts.len() {
                    proof {
                        assert(path =~= Seq::<Seq<char>>::empty());
                        assert(!tree.obstructed(path)) by {
                            assert forall|k: int| 0 <= k <= path.len() implies #[trigger] tree.lookup(
                                path.take(k),
                            ) != Some(EntryKind::File) by {
                                assert(path.take(k).len() == 0);
                            }
                        }
                        assert forall|rest: Seq<Seq<char>>| rest.len() > 0 implies #[trigger] lookup_in(
                            subentries@,
                            rest,
                        ) == tree.lookup(path + rest) by {
                            assert(path + rest =~= rest);
                        }
                        assert(*final(whole) == (FileSystemEntry::Dir {
                            subentries: *final(subentries),
                        }));
                        lemma_graft_here(tree, *final(whole));
                    }
                    return Some(subentries);
                }
                let found = find(subentries, &parts[next]);
                let idx = match found {
                    Some(i) => i,
                    None => {
                        subentries.push(
                            DirEntry {
                                name: parts[next].clone(),
                                node: FileSystemEntry::Dir { subentries: Vec::new() },
                            },
                        );
                        subentries.len() - 1
                    },
                };
                let ghost mid = subentries@;
                proof {
                    assert(path[0] == parts[next as int]@);
                    assert(path.drop_first() =~= path_from(parts@, next + 1));
                    if found is None {
                        assert(mid.drop_last() =~= tree->subentries@);
                        assert forall|j: int| 0 <= j < idx implies (#[trigger] mid[j]).name@
                            != path[0] by {
                            assert(mid[j] == tree->subentries@[j]);
                        }
                    }
                    assert(steps_into(tree, mid, idx as int, path[0]));
                    lemma_obstructed_step(tree, mid, idx as int, path);
                }
                let child = &mut subentries[idx].node;
                let ghost grown = child;
                let r = child.get_next_dir(parts, next + 1);
                proof {
                    let later = *final(whole);
                    assert(stepped(later, mid, idx as int));
                    assert(later->subentries@[idx as int].node == *final(grown));
                    if tree.well_formed() {
                        lemma_steps_into_well_formed(tree, mid, idx as int, path[0]);
                    }
                    if r is None {
                        assert(mid == tree->subentries@) by {
                            if found is None {
                                let k = choose|k: int|
                                    0 <= k <= path.drop_first().len() && #[trigger] mid[idx as int].node.lookup(
                                        path.drop_first().take(k),
                                    ) == Some(EntryKind::File);
                                if path.drop_first().take(k).len() > 0 {
                                    lemma_no_entry(
                                        mid[idx as int].node->subentries@,
                                        path.drop_first().take(k)[0],
                                    );
                                }
                                assert(false);
                            }
                        }
                        lemma_same_view(*final(grown), mid[idx as int].node);
                        lemma_same_step(tree, later, idx as int, path[0]);
                        lemma_same_view(later, tree);
                        if tree.well_formed() {
                            lemma_stepped_well_formed(tree, later, mid, idx as int, path[0]);
                        }
                    } else {
                        let dir = r->0;
                        lemma_graft_step(tree, later, mid, idx as int, path, final(dir)@);
                        if tree.well_formed() && entries_well_formed(final(dir)@) {
                            lemma_stepped_well_formed(tree, later, mid, idx as int, path[0]);
                        }
                        assert forall|rest: Seq<Seq<char>>| rest.len() > 0 implies #[trigger] lookup_in(
                            dir@,
                            rest,
                        ) == tree.lookup(path + rest) by {
                            assert((path + rest).drop_first() =~= path.drop_first() + rest);
                            lemma_steps_into_child(tree, mid, idx as int, path[0], path + rest);
                        }
                    }
                }
                r
            },
        }
    }

    /// Walks from this node, the root of the tree, to the directory that the
    /// text `dir` names, making each directory on the way that is not there
    /// yet, and hands out its entries. Returns `None`, with the tree as it
    /// was, exactly when a file stands on the way.
    pub fn get_dir<'a>(&'a mut self, dir: &str) -> (r: Option<&'a mut Vec<DirEntry>>)
        ensures
            r is None <==> old(self).obstructed(segments(dir@)),
            r is None ==> final(self)@ == old(self)@,
            r is None && old(self).well_formed() ==> final(self).well_formed(),
            r is Some ==> hands_out(*old(self), segments(dir@), r.unwrap()@),
            r is Some ==> takes_back(*old(self), segments(dir@), final(r.unwrap())@, *final(self)),
    {
        let parts = directory_segments(dir);
        proof {
            assert(path_from(parts@, 0) =~= segments(dir@));
        }
        self.get_next_dir(&parts, 0)
    }

    /// What stands at the place that `parts` leads to, if anything.
    pub fn kind_at(&self, parts: &Vec<String>) -> (kind: Option<EntryKind>)
        ensures
            kind == self.lookup(path_of(parts@)),
            kind is Some <==> self@.contains_key(path_of(parts@)),
            kind matches Some(k) ==> self@[path_of(parts@)] == k,
    {
        let ghost path = path_of(parts@);
        let mut node: &FileSystemEntry = self;
        let mut i: usize = 0;
        proof {
            assert(path.skip(0) =~= path);
        }
        while i < parts.len()
            invariant
                i <= parts.len(),
                path == path_of(parts@),
                self.lookup(path) == node.lookup(path.skip(i as int)),
            decreases parts.len() - i,
        {
            let ghost rest = path.skip(i as int);
            proof {
                assert(rest[0] == parts[i as int]@);
                assert(rest.drop_first() =~= path.skip(i + 1));
            }
            match node {
                FileSystemEntry::File => {
                    return None;
                },
                FileSystemEntry::Dir { subentries } => {
                    match find(subentries, &parts[i]) {
                        None => {
                            proof {
                                lemma_no_entry(subentries@, rest[0]);
                            }
                            return None;
                        },
                        Some(j) => {
                            proof {
                                lemma_lookup_via(*node, j as int, rest);
                            }
                            node = &subentries[j].node;
                        },
                    }
                },
            }
            i += 1;
        }
        match node {
            FileSystemEntry::File => Some(EntryKind::File),
            FileSystemEntry::Dir { .. } => Some(EntryKind::Dir),
        }
    }

    /// Whether the tree holds the file `file_name` in the directory that the
    /// text `directory` names.
    pub fn has_file(&self, directory: &str, file_name: &str) -> (held: bool)
        ensures
            held == (self@.contains_key(segments(directory@).push(file_name@)) && self@[segments(
                directory@,
            ).push(file_name@)] == EntryKind::File),
    {
        let mut parts = directory_segments(directory);
        parts.push(file_name.to_owned());
        proof {
            assert(path_of(parts@) =~= segments(directory@).push(file_name@));
        }
        match self.kind_at(&parts) {
            Some(EntryKind::File) => true,
            _ => false,
        }
    }
}

/// Records the file `file_name` in the directory `directory` of the tree,
/// with every directory on the way to it. A name that the directory already
/// holds stays what it was, so that recording a file twice is recording it
/// once; and where a file stands on the way to `directory`, the tree is left
/// as it was.
pub fn add_file(directory: &str, file_name: &str, file_system: &mut FileSystemEntry)
    ensures
        final(file_system)@ == with_file(
            old(file_system)@,
            segments(directory@),
            file_name@,
        ),
        old(file_system).well_formed() ==> final(file_system).well_formed(),
{
    let ghost whole = file_system;
    let ghost tree = *file_system;
    let ghost path = segments(directory@);
    proof {
        lemma_obstructed_view(tree, path);
    }
    match file_system.get_dir(directory) {
        None => {},
        Some(dir) => {
            let ghost handed = dir@;
            let name = file_name.to_owned();
            let found = find(dir, &name);
            if found.is_none() {
                dir.push(DirEntry { name, node: FileSystemEntry::File });
                proof {
                    assert(dir@.drop_last() =~= handed);
                }
            } else {
                proof {
                    lemma_entry_found(handed, file_name@, found->0 as int);
                }
            }
            proof {
                lemma_file_added(tree, *final(whole), path, file_name@, handed, dir@);
            }
        },
    }
}

} // verus!
