//! Why a walk into the tree leaves it as the contracts of the tree say.

use vstd::prelude::*;
use crate::tree::{
    blocked,
    entries_well_formed,
    entry_index,
    grafted,
    hands_out,
    has_entry,
    is_prefix,
    lookup_in,
    names_entry,
    takes_back,
    with_file,
    DirEntry,
    EntryKind,
    FileSystemEntry,
};

verus! {

/// Two trees hold the same places exactly when they read the same
/// everywhere.
pub(crate) proof fn lemma_same_view(a: FileSystemEntry, b: FileSystemEntry)
    ensures
        a@ == b@ <==> forall|place: Seq<Seq<char>>| #[trigger] a.lookup(place) == b.lookup(place),
{
    if a@ == b@ {
        assert forall|place: Seq<Seq<char>>| #[trigger] a.lookup(place) == b.lookup(place) by {
            assert(a@.contains_key(place) == b@.contains_key(place));
            if a@.contains_key(place) {
                assert(a@[place] == b@[place]);
            }
        }
    }
    if forall|place: Seq<Seq<char>>| #[trigger] a.lookup(place) == b.lookup(place) {
        assert(a@ =~= b@);
    }
}

/// The entry that stands for a name is the one the list is read through.
pub(crate) proof fn lemma_entry_found(entries: Seq<DirEntry>, name: Seq<char>, i: int)
    requires
        names_entry(entries, name, i),
    ensures
        has_entry(entries, name),
        entry_index(entries, name) == i,
{
    let j = entry_index(entries, name);
    assert(names_entry(entries, name, j));
    if j < i {
        assert(entries[j].name@ != name);
    } else if i < j {
        assert(entries[i].name@ != name);
    }
}

/// A list in which no entry bears a name has no entry for it.
pub(crate) proof fn lemma_no_entry(entries: Seq<DirEntry>, name: Seq<char>)
    requires
        forall|j: int| 0 <= j < entries.len() ==> (#[trigger] entries[j]).name@ != name,
    ensures
        !has_entry(entries, name),
{
    if has_entry(entries, name) {
        let j = entry_index(entries, name);
        assert(names_entry(entries, name, j));
        assert(entries[j].name@ == name);
    }
}

/// A path that starts with the name that entry `i` stands for leads on into
/// that entry.
pub(crate) proof fn lemma_lookup_via(tree: FileSystemEntry, i: int, path: Seq<Seq<char>>)
    requires
        tree is Dir,
        path.len() > 0,
        names_entry(tree->subentries@, path[0], i),
    ensures
        tree.lookup(path) == tree->subentries@[i].node.lookup(path.drop_first()),
        lookup_in(tree->subentries@, path) == tree.lookup(path),
{
    lemma_entry_found(tree->subentries@, path[0], i);
}

/// Two paths with the same first name: one is a prefix of the other exactly
/// when that holds of what follows the first name.
proof fn lemma_prefix_step(a: Seq<Seq<char>>, b: Seq<Seq<char>>)
    requires
        a.len() > 0,
        b.len() > 0,
        a[0] == b[0],
    ensures
        is_prefix(a, b) <==> is_prefix(a.drop_first(), b.drop_first()),
{
    let a1 = a.drop_first();
    let b1 = b.drop_first();
    if a.len() <= b.len() {
        if is_prefix(a, b) {
            assert(b1.take(a1.len() as int) =~= a1) by {
                assert forall|k: int| 0 <= k < a1.len() implies b1.take(a1.len() as int)[k]
                    == a1[k] by {
                    assert(b.take(a.len() as int)[k + 1] == a[k + 1]);
                }
            }
        }
        if is_prefix(a1, b1) {
            assert(b.take(a.len() as int) =~= a) by {
                assert forall|k: int| 0 <= k < a.len() implies b.take(a.len() as int)[k]
                    == a[k] by {
                    if k > 0 {
                        assert(b1.take(a1.len() as int)[k - 1] == a1[k - 1]);
                    }
                }
            }
        }
    }
}

/// Two paths with different first names: neither is a prefix of the other.
proof fn lemma_prefix_apart(a: Seq<Seq<char>>, b: Seq<Seq<char>>)
    requires
        a.len() > 0,
        b.len() > 0,
        a[0] != b[0],
    ensures
        !is_prefix(a, b),
{
    if a.len() <= b.len() {
        assert(b.take(a.len() as int)[0] == b[0]);
    }
}

/// A path that goes on after `path` is `path` and what follows it.
proof fn lemma_prefix_split(path: Seq<Seq<char>>, place: Seq<Seq<char>>)
    requires
        is_prefix(path, place),
    ensures
        place == path + place.skip(path.len() as int),
{
    assert(place =~= place.take(path.len() as int) + place.skip(path.len() as int));
}

/// How a directory `tree` and the state just before the walk goes down into
/// one of its entries hang together: `mid` holds the entries of `tree`, with
/// an empty directory named `name` added at the end where none bore that
/// name, and `idx` is the place of the entry that stands for `name`.
pub(crate) open spec fn steps_into(
    tree: FileSystemEntry,
    mid: Seq<DirEntry>,
    idx: int,
    name: Seq<char>,
) -> bool {
    &&& tree is Dir
    &&& names_entry(mid, name, idx)
    &&& {
        ||| mid == tree->subentries@
        ||| {
            &&& idx == mid.len() - 1
            &&& mid.drop_last() == tree->subentries@
            &&& mid[idx].node is Dir
            &&& mid[idx].node->subentries@.len() == 0
        }
    }
}

/// `later` is `tree` after the walk went down into entry `idx` and changed
/// nothing but that entry's node.
pub(crate) open spec fn stepped(later: FileSystemEntry, mid: Seq<DirEntry>, idx: int) -> bool {
    &&& later is Dir
    &&& 0 <= idx < mid.len()
    &&& later->subentries@.len() == mid.len()
    &&& later->subentries@[idx].name@ == mid[idx].name@
    &&& forall|j: int| 0 <= j < mid.len() && j != idx ==> later->subentries@[j] == mid[j]
}

/// The walk changes no name, so every name is stood for by the same entry
/// before and after.
proof fn lemma_stepped_names(
    later: FileSystemEntry,
    mid: Seq<DirEntry>,
    idx: int,
    name: Seq<char>,
    i: int,
)
    requires
        stepped(later, mid, idx),
    ensures
        names_entry(later->subentries@, name, i) <==> names_entry(mid, name, i),
{
    let after = later->subentries@;
    assert forall|j: int| 0 <= j < mid.len() implies (#[trigger] after[j]).name@
        == mid[j].name@ by {}
    if names_entry(after, name, i) {
        assert forall|j: int| 0 <= j < i implies (#[trigger] mid[j]).name@ != name by {
            assert(after[j].name@ != name);
        }
    }
    if names_entry(mid, name, i) {
        assert forall|j: int| 0 <= j < i implies (#[trigger] after[j]).name@ != name by {
            assert(mid[j].name@ != name);
        }
    }
}

/// An entry added for one name changes nothing for any other name.
proof fn lemma_steps_into_names(
    tree: FileSystemEntry,
    mid: Seq<DirEntry>,
    idx: int,
    name: Seq<char>,
    other: Seq<char>,
    i: int,
)
    requires
        steps_into(tree, mid, idx, name),
        other != name,
    ensures
        names_entry(mid, other, i) <==> names_entry(tree->subentries@, other, i),
{
    let before = tree->subentries@;
    if mid != before {
        assert forall|j: int| 0 <= j < before.len() implies #[trigger] mid[j] == before[j] by {
            assert(mid.drop_last()[j] == before[j]);
        }
        if names_entry(mid, other, i) {
            assert(i != idx);
            assert forall|j: int| 0 <= j < i implies (#[trigger] before[j]).name@ != other by {
                assert(mid[j].name@ != other);
            }
        }
        if names_entry(before, other, i) {
            assert forall|j: int| 0 <= j < i implies (#[trigger] mid[j]).name@ != other by {
                assert(before[j].name@ != other);
            }
        }
    }
}

/// Where the tree is well formed, so are the entries at the moment the walk
/// goes down into one of them.
pub(crate) proof fn lemma_steps_into_well_formed(
    tree: FileSystemEntry,
    mid: Seq<DirEntry>,
    idx: int,
    name: Seq<char>,
)
    requires
        steps_into(tree, mid, idx, name),
        tree.well_formed(),
    ensures
        entries_well_formed(mid),
{
    let before = tree->subentries@;
    if mid != before {
        assert forall|j: int| 0 <= j < before.len() implies #[trigger] mid[j] == before[j] by {
            assert(mid.drop_last()[j] == before[j]);
        }
        assert forall|i: int, j: int| 0 <= i < j < mid.len() implies (#[trigger] mid[i]).name@ != (
        #[trigger] mid[j]).name@ by {
            if j < idx {
                assert(before[i].name@ != before[j].name@);
            }
        }
        assert forall|i: int| 0 <= i < mid.len() implies (#[trigger] mid[i]).node.well_formed() by {
            if i < idx {
                assert(before[i].node.well_formed());
            }
        }
    }
}

/// A path whose first name is not the one the walk went into reads the same
/// before and after.
proof fn lemma_stepped_elsewhere(
    tree: FileSystemEntry,
    later: FileSystemEntry,
    mid: Seq<DirEntry>,
    idx: int,
    name: Seq<char>,
    place: Seq<Seq<char>>,
)
    requires
        steps_into(tree, mid, idx, name),
        stepped(later, mid, idx),
        place.len() > 0,
        place[0] != name,
    ensures
        later.lookup(place) == tree.lookup(place),
{
    let before = tree->subentries@;
    let after = later->subentries@;
    if has_entry(before, place[0]) {
        let j = entry_index(before, place[0]);
        lemma_steps_into_names(tree, mid, idx, name, place[0], j);
        lemma_stepped_names(later, mid, idx, place[0], j);
        assert(j != idx);
        assert(after[j] == mid[j]);
        assert(mid[j] == before[j]) by {
            if mid != before {
                assert(mid.drop_last()[j] == before[j]);
            }
        }
        lemma_lookup_via(tree, j, place);
        lemma_lookup_via(later, j, place);
    } else if has_entry(after, place[0]) {
        let j = entry_index(after, place[0]);
        lemma_stepped_names(later, mid, idx, place[0], j);
        lemma_steps_into_names(tree, mid, idx, name, place[0], j);
        assert(has_entry(before, place[0]));
    }
}

/// What the entry that the walk goes into holds is what the tree holds below
/// that entry's name, but for the entry itself where it was just made.
pub(crate) proof fn lemma_steps_into_child(
    tree: FileSystemEntry,
    mid: Seq<DirEntry>,
    idx: int,
    name: Seq<char>,
    place: Seq<Seq<char>>,
)
    requires
        steps_into(tree, mid, idx, name),
        place.len() > 0,
        place[0] == name,
    ensures
        mid == tree->subentries@ ==> tree.lookup(place) == mid[idx].node.lookup(
            place.drop_first(),
        ),
        mid != tree->subentries@ ==> tree.lookup(place) is None,
        mid != tree->subentries@ && place.len() > 1 ==> mid[idx].node.lookup(place.drop_first())
            is None,
        place.len() == 1 ==> mid[idx].node.lookup(place.drop_first()) == Some(
            mid[idx].node.kind(),
        ),
{
    let before = tree->subentries@;
    if mid == before {
        lemma_lookup_via(tree, idx, place);
    } else {
        assert forall|j: int| 0 <= j < before.len() implies (#[trigger] before[j]).name@
            != name by {
            assert(mid.drop_last()[j] == before[j]);
            assert(mid[j].name@ != name);
        }
        lemma_no_entry(before, name);
        if place.len() > 1 {
            lemma_no_entry(mid[idx].node->subentries@, place.drop_first()[0]);
        }
    }
}

/// Along a path that starts with the name the walk goes into, a file stands
/// in the way in the tree exactly when one does in that entry.
pub(crate) proof fn lemma_obstructed_step(
    tree: FileSystemEntry,
    mid: Seq<DirEntry>,
    idx: int,
    path: Seq<Seq<char>>,
)
    requires
        path.len() > 0,
        steps_into(tree, mid, idx, path[0]),
    ensures
        tree.obstructed(path) <==> mid[idx].node.obstructed(path.drop_first()),
{
    let child = mid[idx].node;
    let rest = path.drop_first();
    if tree.obstructed(path) {
        let k = choose|k: int|
            0 <= k <= path.len() && #[trigger] tree.lookup(path.take(k)) == Some(EntryKind::File);
        assert(k > 0);
        lemma_steps_into_child(tree, mid, idx, path[0], path.take(k));
        assert(path.take(k).drop_first() =~= rest.take(k - 1));
        assert(child.lookup(rest.take(k - 1)) == Some(EntryKind::File));
    }
    if child.obstructed(rest) {
        let k = choose|k: int|
            0 <= k <= rest.len() && #[trigger] child.lookup(rest.take(k)) == Some(EntryKind::File);
        lemma_steps_into_child(tree, mid, idx, path[0], path.take(k + 1));
        assert(path.take(k + 1).drop_first() =~= rest.take(k));
        if mid != tree->subentries@ {
            if k > 0 {
                assert(rest.take(k).len() > 0);
            }
        }
        assert(tree.lookup(path.take(k + 1)) == Some(EntryKind::File));
    }
}

/// A directory reads as its own entries do.
pub(crate) proof fn lemma_graft_here(tree: FileSystemEntry, later: FileSystemEntry)
    requires
        later is Dir,
    ensures
        forall|place: Seq<Seq<char>>| #[trigger]
            later.lookup(place) == grafted(tree, Seq::empty(), later->subentries@, place),
{
    let path = Seq::<Seq<char>>::empty();
    assert forall|place: Seq<Seq<char>>| #[trigger]
        later.lookup(place) == grafted(tree, path, later->subentries@, place) by {
        assert(place.skip(0) =~= place);
        assert(place.take(0) =~= path);
        assert(path.take(0) =~= path);
    }
}

/// The whole tree is `tree` with new contents at `path`, where the entry the
/// walk went into is its old self with new contents at the rest of `path`.
pub(crate) proof fn lemma_graft_step(
    tree: FileSystemEntry,
    later: FileSystemEntry,
    mid: Seq<DirEntry>,
    idx: int,
    path: Seq<Seq<char>>,
    entries: Seq<DirEntry>,
)
    requires
        path.len() > 0,
        steps_into(tree, mid, idx, path[0]),
        stepped(later, mid, idx),
        forall|place: Seq<Seq<char>>| #[trigger]
            later->subentries@[idx].node.lookup(place) == grafted(
                mid[idx].node,
                path.drop_first(),
                entries,
                place,
            ),
    ensures
        forall|place: Seq<Seq<char>>| #[trigger]
            later.lookup(place) == grafted(tree, path, entries, place),
{
    let name = path[0];
    let rest = path.drop_first();
    let child = mid[idx].node;
    let grown = later->subentries@[idx].node;
    lemma_stepped_names(later, mid, idx, name, idx);
    assert forall|place: Seq<Seq<char>>| #[trigger]
        later.lookup(place) == grafted(tree, path, entries, place) by {
        if place.len() == 0 {
            assert(path.take(0) =~= place);
        } else if place[0] == name {
            let below = place.drop_first();
            lemma_lookup_via(later, idx, place);
            assert(grown.lookup(below) == grafted(child, rest, entries, below));
            lemma_prefix_step(place, path);
            lemma_prefix_step(path, place);
            if !is_prefix(place, path) {
                if is_prefix(path, place) {
                    assert(place.skip(path.len() as int) =~= below.skip(rest.len() as int));
                } else {
                    assert(below.len() > 0) by {
                        if below.len() == 0 {
                            assert(rest.take(0) =~= below);
                        }
                    }
                    lemma_steps_into_child(tree, mid, idx, name, place);
                }
            }
        } else {
            lemma_stepped_elsewhere(tree, later, mid, idx, name, place);
            lemma_prefix_apart(place, path);
            lemma_prefix_apart(path, place);
        }
    }
}

/// The whole tree reads as before, where the entry the walk went into does.
pub(crate) proof fn lemma_same_step(
    tree: FileSystemEntry,
    later: FileSystemEntry,
    idx: int,
    name: Seq<char>,
)
    requires
        steps_into(tree, tree->subentries@, idx, name),
        stepped(later, tree->subentries@, idx),
        forall|place: Seq<Seq<char>>| #[trigger]
            later->subentries@[idx].node.lookup(place) == tree->subentries@[idx].node.lookup(
                place,
            ),
    ensures
        forall|place: Seq<Seq<char>>| #[trigger] later.lookup(place) == tree.lookup(place),
{
    let mid = tree->subentries@;
    lemma_stepped_names(later, mid, idx, name, idx);
    assert forall|place: Seq<Seq<char>>| #[trigger] later.lookup(place) == tree.lookup(place) by {
        if place.len() == 0 {
        } else if place[0] == name {
            lemma_lookup_via(later, idx, place);
            lemma_lookup_via(tree, idx, place);
        } else {
            lemma_stepped_elsewhere(tree, later, mid, idx, name, place);
        }
    }
}

/// A well-formed tree stays so where the entry the walk went into is well
/// formed afterwards.
pub(crate) proof fn lemma_stepped_well_formed(
    tree: FileSystemEntry,
    later: FileSystemEntry,
    mid: Seq<DirEntry>,
    idx: int,
    name: Seq<char>,
)
    requires
        steps_into(tree, mid, idx, name),
        stepped(later, mid, idx),
        tree.well_formed(),
        later->subentries@[idx].node.well_formed(),
    ensures
        later.well_formed(),
{
    lemma_steps_into_well_formed(tree, mid, idx, name);
    let after = later->subentries@;
    assert forall|i: int, j: int| 0 <= i < j < after.len() implies (#[trigger] after[i]).name@ != (
    #[trigger] after[j]).name@ by {
        assert(after[i].name@ == mid[i].name@);
        assert(after[j].name@ == mid[j].name@);
    }
    assert forall|i: int| 0 <= i < after.len() implies (#[trigger] after[i]).node.well_formed() by {
        if i != idx {
            assert(after[i] == mid[i]);
        }
    }
}

/// A file stands on the way in the tree exactly when one does in what the
/// tree holds.
pub(crate) proof fn lemma_obstructed_view(tree: FileSystemEntry, path: Seq<Seq<char>>)
    ensures
        tree.obstructed(path) <==> blocked(tree@, path),
{
    if tree.obstructed(path) {
        let k = choose|k: int|
            0 <= k <= path.len() && #[trigger] tree.lookup(path.take(k)) == Some(EntryKind::File);
        assert(tree@.contains_key(path.take(k)) && tree@[path.take(k)] == EntryKind::File);
    }
    if blocked(tree@, path) {
        let k = choose|k: int|
            0 <= k <= path.len() && tree@.contains_key(#[trigger] path.take(k)) && tree@[path.take(
                k,
            )] == EntryKind::File;
        assert(tree.lookup(path.take(k)) == Some(EntryKind::File));
    }
}

/// What the entries of a directory read after a file with a new name was
/// added at their end.
proof fn lemma_lookup_in_pushed(
    handed: Seq<DirEntry>,
    returned: Seq<DirEntry>,
    name: Seq<char>,
    rest: Seq<Seq<char>>,
)
    requires
        forall|j: int| 0 <= j < handed.len() ==> (#[trigger] handed[j]).name@ != name,
        returned.len() == handed.len() + 1,
        returned.drop_last() == handed,
        returned.last().name@ == name,
        returned.last().node is File,
        rest.len() > 0,
    ensures
        rest[0] != name ==> lookup_in(returned, rest) == lookup_in(handed, rest),
        rest[0] == name && rest.len() == 1 ==> lookup_in(returned, rest) == Some(EntryKind::File),
        rest[0] == name && rest.len() > 1 ==> lookup_in(returned, rest) is None,
{
    let last = returned.len() - 1;
    assert forall|j: int| 0 <= j < handed.len() implies #[trigger] returned[j] == handed[j] by {
        assert(returned.drop_last()[j] == handed[j]);
    }
    if rest[0] == name {
        assert(names_entry(returned, name, last)) by {
            assert forall|j: int| 0 <= j < last implies (#[trigger] returned[j]).name@ != name by {
                assert(handed[j].name@ != name);
            }
        }
        lemma_entry_found(returned, name, last);
    } else if has_entry(handed, rest[0]) {
        let j = entry_index(handed, rest[0]);
        assert(names_entry(returned, rest[0], j)) by {
            assert forall|i: int| 0 <= i < j implies (#[trigger] returned[i]).name@ != rest[0] by {
                assert(handed[i].name@ != rest[0]);
            }
        }
        lemma_entry_found(returned, rest[0], j);
    } else if has_entry(returned, rest[0]) {
        let j = entry_index(returned, rest[0]);
        assert(j != last);
        assert(names_entry(handed, rest[0], j)) by {
            assert forall|i: int| 0 <= i < j implies (#[trigger] handed[i]).name@ != rest[0] by {
                assert(returned[i].name@ != rest[0]);
            }
        }
    }
}

/// After the walk to the directory at `path` and the adding of `name` there,
/// unless that name was taken, the tree holds what `with_file` says.
pub(crate) proof fn lemma_file_added(
    tree: FileSystemEntry,
    later: FileSystemEntry,
    path: Seq<Seq<char>>,
    name: Seq<char>,
    handed: Seq<DirEntry>,
    returned: Seq<DirEntry>,
)
    requires
        !tree.obstructed(path),
        hands_out(tree, path, handed),
        takes_back(tree, path, returned, later),
        has_entry(handed, name) ==> returned == handed,
        !has_entry(handed, name) ==> {
            &&& forall|j: int| 0 <= j < handed.len() ==> (#[trigger] handed[j]).name@ != name
            &&& returned.len() == handed.len() + 1
            &&& returned.drop_last() == handed
            &&& returned.last().name@ == name
            &&& returned.last().node is File
        },
    ensures
        later@ == with_file(tree@, path, name),
        tree.well_formed() ==> later.well_formed(),
{
    let target = path.push(name);
    let wanted = with_file(tree@, path, name);
    lemma_obstructed_view(tree, path);
    if tree.well_formed() && !has_entry(handed, name) {
        assert forall|j: int| 0 <= j < handed.len() implies #[trigger] returned[j] == handed[j] by {
            assert(returned.drop_last()[j] == handed[j]);
        }
        assert forall|i: int, j: int| 0 <= i < j < returned.len() implies (
        #[trigger] returned[i]).name@ != (#[trigger] returned[j]).name@ by {
            if j < handed.len() {
                assert(handed[i].name@ != handed[j].name@);
            } else {
                assert(handed[i].name@ != name);
            }
        }
        assert forall|i: int| 0 <= i < returned.len() implies (#[trigger] returned[i]).node.well_formed() by {
            if i < handed.len() {
                assert(handed[i].node.well_formed());
            }
        }
    }
    assert forall|place: Seq<Seq<char>>|
        (#[trigger] later.lookup(place) is Some) == wanted.contains_key(place) && (later.lookup(
            place,
        ) is Some ==> later.lookup(place).unwrap() == wanted[place]) by {
        assert(later.lookup(place) == grafted(tree, path, returned, place));
        if is_prefix(place, path) {
            assert(tree.lookup(path.take(place.len() as int)) != Some(EntryKind::File));
            assert(place.len() != target.len());
        } else if is_prefix(path, place) {
            let rest = place.skip(path.len() as int);
            lemma_prefix_split(path, place);
            assert(rest.len() > 0);
            assert(lookup_in(handed, rest) == tree.lookup(place));
            assert((place == target) == (rest.len() == 1 && rest[0] == name)) by {
                if place == target {
                    assert(rest =~= seq![name]);
                }
                if rest.len() == 1 && rest[0] == name {
                    assert(rest =~= seq![name]);
                    assert(place =~= target);
                }
            }
            if has_entry(handed, name) {
                if place == target {
                    assert(rest[0] == name);
                    assert(lookup_in(handed, rest) is Some) by {
                        assert(rest.drop_first().len() == 0);
                    }
                }
            } else {
                lemma_lookup_in_pushed(handed, returned, name, rest);
                if rest[0] == name {
                    assert(lookup_in(handed, rest) is None);
                }
            }
        } else {
            assert(place != target) by {
                if place == target {
                    assert(place.take(path.len() as int) =~= path);
                }
            }
        }
    }
    assert(later@ =~= wanted);
}

} // verus!
