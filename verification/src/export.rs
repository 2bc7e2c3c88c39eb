//! The tree as a listing: every file that it holds, by its path.

use vstd::prelude::*;
use crate::path::path_of;
use crate::tree::{entry_index, is_prefix, names_entry, DirEntry, EntryKind, FileSystemEntry};
use crate::tree_proofs::lemma_entry_found;

verus! {

/// `place` is one of `paths`.
pub open spec fn listed(paths: Seq<Vec<String>>, place: Seq<Seq<char>>) -> bool {
    exists|k: int| 0 <= k < paths.len() && path_of((#[trigger] paths[k])@) == place
}

/// No path stands twice in `paths`.
pub open spec fn no_repeats(paths: Seq<Vec<String>>) -> bool {
    forall|i: int, j: int|
        0 <= i < j < paths.len() ==> path_of((#[trigger] paths[i])@) != path_of(
            (#[trigger] paths[j])@,
        )
}

/// `place` is one of `paths` from place `from` of the list on.
spec fn listed_from(paths: Seq<Vec<String>>, from: int, place: Seq<Seq<char>>) -> bool {
    exists|k: int| from <= k < paths.len() && path_of((#[trigger] paths[k])@) == place
}

/// No path stands twice in `paths` from place `from` of the list on.
spec fn no_repeats_from(paths: Seq<Vec<String>>, from: int) -> bool {
    forall|i: int, j: int|
        from <= i < j < paths.len() ==> path_of((#[trigger] paths[i])@) != path_of(
            (#[trigger] paths[j])@,
        )
}

/// `place` lies at or below `prefix`, and what `tree` holds there, read from
/// `prefix`, is a file.
pub open spec fn file_below(
    tree: FileSystemEntry,
    prefix: Seq<Seq<char>>,
    place: Seq<Seq<char>>,
) -> bool {
    is_prefix(prefix, place) && tree.lookup(place.skip(prefix.len() as int)) == Some(
        EntryKind::File,
    )
}

/// As `file_below`, for the places that lead through one of the first `upto`
/// entries of a directory.
spec fn file_below_first(
    entries: Seq<DirEntry>,
    prefix: Seq<Seq<char>>,
    place: Seq<Seq<char>>,
    upto: int,
) -> bool {
    &&& is_prefix(prefix, place)
    &&& place.len() > prefix.len()
    &&& exists|i: int|
        0 <= i < upto && names_entry(entries, place[prefix.len() as int], i) && (
        #[trigger] entries[i]).node.lookup(place.skip(prefix.len() as int + 1)) == Some(EntryKind::File)
}

/// Whether entry `i` is the first that bears its name.
fn stands_for_its_name(entries: &Vec<DirEntry>, i: usize) -> (first: bool)
    requires
        i < entries.len(),
    ensures
        first == names_entry(entries@, entries[i as int].name@, i as int),
{
    let mut j: usize = 0;
    while j < i
        invariant
            j <= i < entries.len(),
            forall|k: int| 0 <= k < j ==> (#[trigger] entries[k]).name@ != entries[i as int].name@,
        decreases i - j,
    {
        if entries[j].name == entries[i].name {
            return false;
        }
        j += 1;
    }
    true
}

/// A copy of a list of names.
fn copy_names(parts: &Vec<String>) -> (copy: Vec<String>)
    ensures
        path_of(copy@) == path_of(parts@),
{
    let mut copy: Vec<String> = Vec::new();
    let mut i: usize = 0;
    while i < parts.len()
        invariant
            i <= parts.len(),
            path_of(copy@) == path_of(parts@).take(i as int),
        decreases parts.len() - i,
    {
        let ghost earlier = path_of(copy@);
        copy.push(parts[i].clone());
        proof {
            assert(path_of(copy@) =~= earlier.push(parts[i as int]@));
            assert(path_of(copy@) =~= path_of(parts@).take(i + 1));
        }
        i += 1;
    }
    proof {
        assert(path_of(parts@).take(parts.len() as int) =~= path_of(parts@));
    }
    copy
}

/// A place below `prefix` that leads through the entry named `name` is a
/// place below `prefix` with `name` behind it, and the other way round.
proof fn lemma_prefix_push(prefix: Seq<Seq<char>>, name: Seq<char>, place: Seq<Seq<char>>)
    ensures
        is_prefix(prefix.push(name), place) <==> is_prefix(prefix, place) && place.len()
            > prefix.len() && place[prefix.len() as int] == name,
{
    let longer = prefix.push(name);
    if is_prefix(longer, place) {
        assert(place.take(longer.len() as int)[prefix.len() as int] == name);
        assert(place.take(prefix.len() as int) =~= prefix) by {
            assert forall|k: int| 0 <= k < prefix.len() implies place.take(prefix.len() as int)[k]
                == prefix[k] by {
                assert(place.take(longer.len() as int)[k] == longer[k]);
            }
        }
    }
    if is_prefix(prefix, place) && place.len() > prefix.len() && place[prefix.len() as int]
        == name {
        assert(place.take(longer.len() as int) =~= longer) by {
            assert forall|k: int| 0 <= k < longer.len() implies place.take(longer.len() as int)[k]
                == longer[k] by {
                if k < prefix.len() {
                    assert(place.take(prefix.len() as int)[k] == prefix[k]);
                }
            }
        }
    }
}

/// What a directory holds below itself is what its entries hold, each below
/// its name.
proof fn lemma_file_below_dir(tree: FileSystemEntry, prefix: Seq<Seq<char>>, place: Seq<Seq<char>>)
    requires
        tree is Dir,
    ensures
        file_below(tree, prefix, place) <==> file_below_first(
            tree->subentries@,
            prefix,
            place,
            tree->subentries@.len() as int,
        ),
{
    let entries = tree->subentries@;
    if is_prefix(prefix, place) {
        let rest = place.skip(prefix.len() as int);
        if place.len() > prefix.len() {
            assert(rest[0] == place[prefix.len() as int]);
            assert(rest.drop_first() =~= place.skip(prefix.len() as int + 1));
            if file_below(tree, prefix, place) {
                let i = entry_index(entries, rest[0]);
                assert(names_entry(entries, rest[0], i));
                assert(entries[i].node.lookup(place.skip(prefix.len() as int + 1)) == Some(
                    EntryKind::File,
                ));
            }
            if file_below_first(entries, prefix, place, entries.len() as int) {
                let i = choose|i: int|
                    0 <= i < entries.len() && names_entry(entries, place[prefix.len() as int], i)
                        && (#[trigger] entries[i]).node.lookup(place.skip(prefix.len() as int + 1))
                        == Some(EntryKind::File);
                lemma_entry_found(entries, rest[0], i);
            }
        } else {
            assert(rest.len() == 0);
        }
    }
}

impl FileSystemEntry {
    /// Adds to `out` the path of every file at or below this node, each once
    /// and each with `prefix` before it.
    fn collect_files(&self, prefix: &mut Vec<String>, out: &mut Vec<Vec<String>>)
        ensures
            path_of(final(prefix)@) == path_of(old(prefix)@),
            old(out)@.len() <= final(out)@.len(),
            forall|k: int| 0 <= k < old(out)@.len() ==> #[trigger] final(out)@[k] == old(out)@[k],
            forall|place: Seq<Seq<char>>|
                #[trigger] listed_from(final(out)@, old(out)@.len() as int, place) <==> file_below(
                    *self,
                    path_of(old(prefix)@),
                    place,
                ),
            no_repeats_from(final(out)@, old(out)@.len() as int),
        decreases self,
    {
        let ghost start = path_of(prefix@);
        let ghost before = out@;
        let ghost base = out@.len() as int;
        match self {
            FileSystemEntry::File => {
                let copy = copy_names(prefix);
                out.push(copy);
                proof {
                    assert forall|place: Seq<Seq<char>>| #[trigger]
                        listed_from(out@, base, place) <==> file_below(*self, start, place) by {
                        if listed_from(out@, base, place) {
                            assert(place.take(start.len() as int) =~= start);
                            assert(place.skip(start.len() as int).len() == 0);
                        }
                        if file_below(*self, start, place) {
                            if place.len() > start.len() {
                                assert(place.skip(start.len() as int).len() > 0);
                            }
                            assert(place =~= start);
                            assert(path_of(out@[base]@) == place);
                        }
                    }
                }
            },
            FileSystemEntry::Dir { subentries } => {
                let mut i: usize = 0;
                while i < subentries.len()
                    invariant
                        i <= subentries.len(),
                        *self == (FileSystemEntry::Dir { subentries: *subentries }),
                        path_of(prefix@) == start,
                        base == before.len() <= out@.len(),
                        forall|k: int| 0 <= k < base ==> #[trigger] out@[k] == before[k],
                        forall|place: Seq<Seq<char>>|
                            #[trigger] listed_from(out@, base, place) <==> file_below_first(
                                subentries@,
                                start,
                                place,
                                i as int,
                            ),
                        no_repeats_from(out@, base),
                    decreases subentries.len() - i,
                {
                    let ghost name = subentries[i as int].name@;
                    let ghost earlier = out@;
                    let ghost mark = out@.len() as int;
                    if stands_for_its_name(subentries, i) {
                        prefix.push(subentries[i].name.clone());
                        proof {
                            assert(path_of(prefix@) =~= start.push(name));
                            assert(decreases_to!(self->subentries => subentries[i as int]));
                        }
                        subentries[i].node.collect_files(prefix, out);
                        let ghost longer = prefix@;
                        prefix.pop();
                        proof {
                            assert(path_of(prefix@) =~= path_of(longer).drop_last());
                            assert(path_of(prefix@) =~= start);
                            assert forall|place: Seq<Seq<char>>| #[trigger]
                                listed_from(out@, base, place) <==> file_below_first(
                                    subentries@,
                                    start,
                                    place,
                                    i + 1,
                                ) by {
                                lemma_listed_from_split(earlier, out@, base, mark, place);
                                lemma_prefix_push(start, name, place);
                                let through = file_below(
                                    subentries[i as int].node,
                                    start.push(name),
                                    place,
                                );
                                assert(listed_from(out@, mark, place) <==> through);
                                assert(listed_from(earlier, base, place) <==> file_below_first(
                                    subentries@,
                                    start,
                                    place,
                                    i as int,
                                ));
                                if file_below_first(subentries@, start, place, i + 1)
                                    && !file_below_first(subentries@, start, place, i as int) {
                                    let j = choose|j: int|
                                        0 <= j < i + 1 && names_entry(
                                            subentries@,
                                            place[start.len() as int],
                                            j,
                                        ) && (#[trigger] subentries@[j]).node.lookup(
                                            place.skip(start.len() as int + 1),
                                        ) == Some(EntryKind::File);
                                    assert(j == i);
                                    assert(place.skip((start.len() + 1) as int) =~= place.skip(
                                        start.len() as int + 1,
                                    ));
                                    assert(through);
                                }
                                if through {
                                    assert(place.skip(start.push(name).len() as int) =~= place.skip(
                                        start.len() as int + 1,
                                    ));
                                    assert(names_entry(
                                        subentries@,
                                        place[start.len() as int],
                                        i as int,
                                    ));
                                    assert(subentries@[i as int].node.lookup(
                                        place.skip(start.len() as int + 1),
                                    ) == Some(EntryKind::File));
                                    assert(file_below_first(subentries@, start, place, i + 1));
                                }
                                if file_below_first(subentries@, start, place, i as int) {
                                    let j = choose|j: int|
                                        0 <= j < i && names_entry(
                                            subentries@,
                                            place[start.len() as int],
                                            j,
                                        ) && (#[trigger] subentries@[j]).node.lookup(
                                            place.skip(start.len() as int + 1),
                                        ) == Some(EntryKind::File);
                                    assert(0 <= j < i + 1);
                                }
                            }
                            assert forall|a: int, b: int| base <= a < b < out@.len() implies path_of(
                                (#[trigger] out@[a])@,
                            ) != path_of((#[trigger] out@[b])@) by {
                                if b < mark {
                                    assert(out@[a] == earlier[a] && out@[b] == earlier[b]);
                                } else if a < mark {
                                    let place = path_of(out@[a]@);
                                    assert(out@[a] == earlier[a]);
                                    assert(listed_from(earlier, base, place));
                                    assert(file_below_first(subentries@, start, place, i as int));
                                    if place == path_of(out@[b]@) {
                                        assert(listed_from(out@, mark, place));
                                        lemma_prefix_push(start, name, place);
                                        let j = choose|j: int|
                                            0 <= j < i && names_entry(
                                                subentries@,
                                                place[start.len() as int],
                                                j,
                                            ) && (#[trigger] subentries@[j]).node.lookup(
                                                place.skip(start.len() as int + 1),
                                            ) == Some(EntryKind::File);
                                        assert(names_entry(
                                            subentries@,
                                            place[start.len() as int],
                                            i as int,
                                        ));
                                        assert(false);
                                    }
                                }
                            }
                        }
                    } else {
                        proof {
                            assert forall|place: Seq<Seq<char>>|
                                file_below_first(subentries@, start, place, i + 1)
                                    <==> #[trigger] file_below_first(
                                    subentries@,
                                    start,
                                    place,
                                    i as int,
                                ) by {
                                if file_below_first(subentries@, start, place, i + 1) {
                                    let j = choose|j: int|
                                        0 <= j < i + 1 && names_entry(
                                            subentries@,
                                            place[start.len() as int],
                                            j,
                                        ) && (#[trigger] subentries@[j]).node.lookup(
                                            place.skip(start.len() as int + 1),
                                        ) == Some(EntryKind::File);
                                    assert(j != i);
                                }
                                if file_below_first(subentries@, start, place, i as int) {
                                    let j = choose|j: int|
                                        0 <= j < i && names_entry(
                                            subentries@,
                                            place[start.len() as int],
                                            j,
                                        ) && (#[trigger] subentries@[j]).node.lookup(
                                            place.skip(start.len() as int + 1),
                                        ) == Some(EntryKind::File);
                                    assert(0 <= j < i + 1);
                                }
                            }
                        }
                    }
                    i += 1;
                }
                proof {
                    assert forall|place: Seq<Seq<char>>| #[trigger]
                        listed_from(out@, base, place) <==> file_below(*self, start, place) by {
                        lemma_file_below_dir(*self, start, place);
                    }
                }
            },
        }
    }

    /// Every file that the tree holds, each once, as the list of names that
    /// leads to it from the root.
    pub fn files(&self) -> (paths: Vec<Vec<String>>)
        ensures
            forall|place: Seq<Seq<char>>|
                #[trigger] listed(paths@, place) <==> self@.contains_key(place) && self@[place]
                    == EntryKind::File,
            no_repeats(paths@),
    {
        let mut prefix: Vec<String> = Vec::new();
        let mut paths: Vec<Vec<String>> = Vec::new();
        proof {
            assert(path_of(prefix@) =~= Seq::<Seq<char>>::empty());
        }
        self.collect_files(&mut prefix, &mut paths);
        proof {
            let root = Seq::<Seq<char>>::empty();
            assert forall|place: Seq<Seq<char>>| #[trigger]
                listed(paths@, place) <==> self@.contains_key(place) && self@[place]
                    == EntryKind::File by {
                assert(place.skip(0) =~= place);
                assert(place.take(0) =~= root);
                assert(listed(paths@, place) <==> listed_from(paths@, 0, place));
                assert(listed_from(paths@, 0, place) <==> file_below(*self, root, place));
            }
        }
        paths
    }
}

/// A path is among those added since `base` exactly when it was among them
/// at `mark` already or has been added since.
proof fn lemma_listed_from_split(
    earlier: Seq<Vec<String>>,
    later: Seq<Vec<String>>,
    base: int,
    mark: int,
    place: Seq<Seq<char>>,
)
    requires
        0 <= base <= mark == earlier.len() <= later.len(),
        forall|k: int| 0 <= k < mark ==> #[trigger] later[k] == earlier[k],
    ensures
        listed_from(later, base, place) <==> listed_from(earlier, base, place) || listed_from(
            later,
            mark,
            place,
        ),
{
    if listed_from(later, base, place) {
        let k = choose|k: int| base <= k < later.len() && path_of((#[trigger] later[k])@) == place;
        if k < mark {
            assert(later[k] == earlier[k]);
        }
    }
    if listed_from(earlier, base, place) {
        let k = choose|k: int|
            base <= k < earlier.len() && path_of((#[trigger] earlier[k])@) == place;
        assert(later[k] == earlier[k]);
    }
}

} // verus!
