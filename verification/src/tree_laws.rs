//! What holds of recording files in the discovered tree, whatever the tree
//! and whatever the files.

use vstd::prelude::*;
use crate::tree::{blocked, entry_index, is_prefix, with_file, EntryKind, FileSystemEntry};

verus! {

/// Recording never loses anything: every place that the tree held is still
/// there and holds what it held, and every new place is a directory on the
/// way to the file or the file itself.
pub proof fn lemma_add_file_only_adds(
    tree: Map<Seq<Seq<char>>, EntryKind>,
    dir: Seq<Seq<char>>,
    name: Seq<char>,
)
    ensures
        tree.submap_of(with_file(tree, dir, name)),
        forall|place: Seq<Seq<char>>|
            with_file(tree, dir, name).contains_key(place) && !tree.contains_key(place) ==> {
                ||| is_prefix(place, dir) && with_file(tree, dir, name)[place] == EntryKind::Dir
                ||| place == dir.push(name) && with_file(tree, dir, name)[place] == EntryKind::File
            },
{
    assert forall|place: Seq<Seq<char>>|
        with_file(tree, dir, name).contains_key(place) && !tree.contains_key(place) implies {
        ||| is_prefix(place, dir) && with_file(tree, dir, name)[place] == EntryKind::Dir
        ||| place == dir.push(name) && with_file(tree, dir, name)[place] == EntryKind::File
    } by {
        if is_prefix(place, dir) {
            assert(place.len() != dir.push(name).len());
        }
    }
}

/// Where no file stands on the way, the tree afterwards holds every directory
/// along `dir` as a directory, and holds `name` in the last of them: as a
/// file, unless the name was taken before.
pub proof fn lemma_add_file_records(
    tree: Map<Seq<Seq<char>>, EntryKind>,
    dir: Seq<Seq<char>>,
    name: Seq<char>,
)
    requires
        !blocked(tree, dir),
    ensures
        forall|k: int|
            0 <= k <= dir.len() ==> with_file(tree, dir, name).contains_key(#[trigger] dir.take(k))
                && with_file(tree, dir, name)[dir.take(k)] == EntryKind::Dir,
        with_file(tree, dir, name).contains_key(dir.push(name)),
        !tree.contains_key(dir.push(name)) ==> with_file(tree, dir, name)[dir.push(name)]
            == EntryKind::File,
        !blocked(with_file(tree, dir, name), dir),
{
    let after = with_file(tree, dir, name);
    assert forall|k: int| 0 <= k <= dir.len() implies after.contains_key(#[trigger] dir.take(k))
        && after[dir.take(k)] == EntryKind::Dir by {
        let place = dir.take(k);
        assert(dir.take(place.len() as int) == place);
        assert(is_prefix(place, dir));
        assert(place.len() != dir.push(name).len());
        if tree.contains_key(place) {
            assert(tree[place] != EntryKind::File);
        }
    }
}

/// Recording a file that is recorded already changes nothing: doing it twice
/// leaves the tree as doing it once does.
pub proof fn lemma_add_file_idempotent(
    tree: Map<Seq<Seq<char>>, EntryKind>,
    dir: Seq<Seq<char>>,
    name: Seq<char>,
)
    ensures
        with_file(with_file(tree, dir, name), dir, name) == with_file(tree, dir, name),
{
    let once = with_file(tree, dir, name);
    if !blocked(tree, dir) {
        lemma_add_file_records(tree, dir, name);
        assert(with_file(once, dir, name) =~= once);
    }
}

/// A file on the way stays on the way, whatever is recorded elsewhere.
pub proof fn lemma_blocked_stays(
    tree: Map<Seq<Seq<char>>, EntryKind>,
    dir: Seq<Seq<char>>,
    name: Seq<char>,
    other: Seq<Seq<char>>,
)
    requires
        blocked(tree, other),
    ensures
        blocked(with_file(tree, dir, name), other),
{
    let k = choose|k: int|
        0 <= k <= other.len() && tree.contains_key(#[trigger] other.take(k)) && tree[other.take(k)]
            == EntryKind::File;
    let after = with_file(tree, dir, name);
    assert(after.contains_key(other.take(k)) && after[other.take(k)] == EntryKind::File);
}

/// Recording one file puts no file on the way to a directory that the file
/// does not lie on the way to.
proof fn lemma_not_blocked_stays(
    tree: Map<Seq<Seq<char>>, EntryKind>,
    dir: Seq<Seq<char>>,
    name: Seq<char>,
    other: Seq<Seq<char>>,
)
    requires
        !blocked(tree, other),
        !is_prefix(dir.push(name), other),
    ensures
        !blocked(with_file(tree, dir, name), other),
{
    let after = with_file(tree, dir, name);
    if blocked(after, other) {
        let k = choose|k: int|
            0 <= k <= other.len() && after.contains_key(#[trigger] other.take(k)) && after[other.take(
                k,
            )] == EntryKind::File;
        let place = other.take(k);
        if tree.contains_key(place) {
            assert(tree[place] == EntryKind::File);
        } else {
            assert(place == dir.push(name));
            assert(other.take(dir.push(name).len() as int) == dir.push(name));
        }
    }
}

/// The order of two recordings does not matter, as long as neither file lies
/// on the way to the other's directory. So whatever the order in which
/// recordings of distinct files that do not get in each other's way arrive,
/// the tree ends up the same, with none of them lost.
pub proof fn lemma_add_file_commutes(
    tree: Map<Seq<Seq<char>>, EntryKind>,
    dir_a: Seq<Seq<char>>,
    name_a: Seq<char>,
    dir_b: Seq<Seq<char>>,
    name_b: Seq<char>,
)
    requires
        !is_prefix(dir_a.push(name_a), dir_b),
        !is_prefix(dir_b.push(name_b), dir_a),
    ensures
        with_file(with_file(tree, dir_a, name_a), dir_b, name_b) == with_file(
            with_file(tree, dir_b, name_b),
            dir_a,
            name_a,
        ),
{
    let first_a = with_file(tree, dir_a, name_a);
    let first_b = with_file(tree, dir_b, name_b);
    let a_then_b = with_file(first_a, dir_b, name_b);
    let b_then_a = with_file(first_b, dir_a, name_a);
    if blocked(tree, dir_a) {
        lemma_blocked_stays(tree, dir_b, name_b, dir_a);
    } else {
        lemma_not_blocked_stays(tree, dir_b, name_b, dir_a);
    }
    if blocked(tree, dir_b) {
        lemma_blocked_stays(tree, dir_a, name_a, dir_b);
    } else {
        lemma_not_blocked_stays(tree, dir_a, name_a, dir_b);
    }
    if !blocked(tree, dir_a) && !blocked(tree, dir_b) {
        assert forall|place: Seq<Seq<char>>| a_then_b.contains_key(place) implies
            #[trigger] a_then_b[place] == b_then_a[place] by {
            if !tree.contains_key(place) {
                if place == dir_a.push(name_a) && is_prefix(place, dir_b) {
                    assert(false);
                }
                if place == dir_b.push(name_b) && is_prefix(place, dir_a) {
                    assert(false);
                }
            }
        }
        assert(a_then_b =~= b_then_a);
    }
}

/// What a tree holds is shaped like a tree: whatever it holds at a place, it
/// holds a directory at every place on the way there. So a file has nothing
/// below it, and the root of a tree that holds anything but itself is a
/// directory.
pub proof fn lemma_places_hang_on_directories(
    tree: FileSystemEntry,
    place: Seq<Seq<char>>,
    k: int,
)
    requires
        tree@.contains_key(place),
        0 <= k < place.len(),
    ensures
        tree@.contains_key(place.take(k)),
        tree@[place.take(k)] == EntryKind::Dir,
    decreases k,
{
    assert(tree.lookup(place) is Some);
    assert(tree is Dir);
    if k == 0 {
        assert(place.take(0).len() == 0);
    } else {
        let child = tree->subentries@[entry_index(tree->subentries@, place[0])].node;
        let below = place.drop_first();
        assert(child.lookup(below) is Some);
        assert(child@.contains_key(below));
        lemma_places_hang_on_directories(child, below, k - 1);
        assert(place.take(k).drop_first() =~= below.take(k - 1));
        assert(place.take(k)[0] == place[0]);
        assert(child.lookup(below.take(k - 1)) == Some(EntryKind::Dir));
        assert(tree.lookup(place.take(k)) == Some(EntryKind::Dir));
    }
}

/// The place of the file of a recording: its directory, then its name.
pub open spec fn full_path(item: (Seq<Seq<char>>, Seq<char>)) -> Seq<Seq<char>> {
    item.0.push(item.1)
}

/// What a tree that holds `tree` holds after these recordings, made one
/// after the other.
pub open spec fn with_files(
    tree: Map<Seq<Seq<char>>, EntryKind>,
    items: Seq<(Seq<Seq<char>>, Seq<char>)>,
) -> Map<Seq<Seq<char>>, EntryKind>
    decreases items.len(),
{
    if items.len() == 0 {
        tree
    } else {
        with_file(with_files(tree, items.drop_last()), items.last().0, items.last().1)
    }
}

/// The recordings are of different files, none of which lies on the way to
/// another.
pub open spec fn apart(items: Seq<(Seq<Seq<char>>, Seq<char>)>) -> bool {
    forall|i: int, j: int|
        0 <= i < items.len() && 0 <= j < items.len() && i != j ==> !is_prefix(
            full_path(#[trigger] items[i]),
            full_path(#[trigger] items[j]),
        )
}

/// `place` is the file of one of the recordings.
pub open spec fn recorded(items: Seq<(Seq<Seq<char>>, Seq<char>)>, place: Seq<Seq<char>>) -> bool {
    exists|i: int| 0 <= i < items.len() && place == full_path(#[trigger] items[i])
}

/// `place` is the file of one of the recordings or lies on the way to it.
pub open spec fn on_the_way(
    items: Seq<(Seq<Seq<char>>, Seq<char>)>,
    place: Seq<Seq<char>>,
) -> bool {
    exists|i: int| 0 <= i < items.len() && is_prefix(place, full_path(#[trigger] items[i]))
}

/// What a tree holds that has found nothing yet: its root, a directory.
pub open spec fn empty_tree() -> Map<Seq<Seq<char>>, EntryKind> {
    Map::<Seq<Seq<char>>, EntryKind>::empty().insert(Seq::<Seq<char>>::empty(), EntryKind::Dir)
}

/// The tree of the recordings: the root, the file of each recording, and the
/// directories on the way to it; nothing else.
pub open spec fn tree_of(items: Seq<(Seq<Seq<char>>, Seq<char>)>) -> Map<
    Seq<Seq<char>>,
    EntryKind,
> {
    Map::new(
        |place: Seq<Seq<char>>| place.len() == 0 || on_the_way(items, place),
        |place: Seq<Seq<char>>|
            if recorded(items, place) {
                EntryKind::File
            } else {
                EntryKind::Dir
            },
    )
}

/// What holds of all the recordings but the last, and of the last, holds of
/// all.
proof fn lemma_last_recording(items: Seq<(Seq<Seq<char>>, Seq<char>)>, place: Seq<Seq<char>>)
    requires
        items.len() > 0,
    ensures
        recorded(items, place) <==> recorded(items.drop_last(), place) || place == full_path(
            items.last(),
        ),
        on_the_way(items, place) <==> on_the_way(items.drop_last(), place) || is_prefix(
            place,
            full_path(items.last()),
        ),
        apart(items) ==> apart(items.drop_last()),
{
    let before = items.drop_last();
    let last = items.len() - 1;
    if recorded(items, place) {
        let i = choose|i: int| 0 <= i < items.len() && place == full_path(#[trigger] items[i]);
        if i < last {
            assert(before[i] == items[i]);
        }
    }
    if recorded(before, place) {
        let i = choose|i: int| 0 <= i < before.len() && place == full_path(#[trigger] before[i]);
        assert(before[i] == items[i]);
    }
    if place == full_path(items.last()) {
        assert(place == full_path(items[last]));
    }
    if on_the_way(items, place) {
        let i = choose|i: int|
            0 <= i < items.len() && is_prefix(place, full_path(#[trigger] items[i]));
        if i < last {
            assert(before[i] == items[i]);
        }
    }
    if on_the_way(before, place) {
        let i = choose|i: int|
            0 <= i < before.len() && is_prefix(place, full_path(#[trigger] before[i]));
        assert(before[i] == items[i]);
    }
    if is_prefix(place, full_path(items.last())) {
        assert(is_prefix(place, full_path(items[last])));
    }
    if apart(items) {
        assert forall|i: int, j: int|
            0 <= i < before.len() && 0 <= j < before.len() && i != j implies !is_prefix(
            full_path(#[trigger] before[i]),
            full_path(#[trigger] before[j]),
        ) by {
            assert(before[i] == items[i] && before[j] == items[j]);
        }
    }
}

/// A place on the way to a file, or the file itself, lies on the way to the
/// file's directory or is the file.
proof fn lemma_prefix_of_full_path(place: Seq<Seq<char>>, dir: Seq<Seq<char>>, name: Seq<char>)
    ensures
        is_prefix(place, dir.push(name)) <==> is_prefix(place, dir) || place == dir.push(name),
{
    let target = dir.push(name);
    if is_prefix(place, target) {
        if place.len() <= dir.len() {
            assert(dir.take(place.len() as int) =~= target.take(place.len() as int));
        } else {
            assert(target.take(place.len() as int) =~= target);
        }
    }
    if is_prefix(place, dir) {
        assert(target.take(place.len() as int) =~= dir.take(place.len() as int));
    }
    if place == target {
        assert(target.take(target.len() as int) =~= target);
    }
}

/// Recordings that are apart, made one after the other in a tree that has
/// found nothing yet, leave none of them out and bring nothing else in: the
/// tree holds the file of each, the directories on the way to it, each once,
/// and the root. The order in which they were made has no part in that.
pub proof fn lemma_recordings_make_their_tree(items: Seq<(Seq<Seq<char>>, Seq<char>)>)
    requires
        apart(items),
    ensures
        with_files(empty_tree(), items) == tree_of(items),
    decreases items.len(),
{
    let made = with_files(empty_tree(), items);
    if items.len() == 0 {
        assert(made == empty_tree());
        assert forall|place: Seq<Seq<char>>|
            #![trigger made.contains_key(place)]
            #![trigger tree_of(items).contains_key(place)]
            made.contains_key(place) == tree_of(items).contains_key(place) && (made.contains_key(
                place,
            ) ==> made[place] == tree_of(items)[place]) by {
            assert(!on_the_way(items, place));
            assert(!recorded(items, place));
            if place.len() == 0 {
                assert(place =~= Seq::<Seq<char>>::empty());
            }
        }
        assert(made =~= tree_of(items));
    } else {
        let before = items.drop_last();
        let last = items.len() - 1;
        let dir = items.last().0;
        let name = items.last().1;
        let target = dir.push(name);
        let earlier = with_files(empty_tree(), before);
        lemma_last_recording(items, target);
        lemma_recordings_make_their_tree(before);
        assert(!blocked(earlier, dir)) by {
            if blocked(earlier, dir) {
                let k = choose|k: int|
                    0 <= k <= dir.len() && earlier.contains_key(#[trigger] dir.take(k))
                        && earlier[dir.take(k)] == EntryKind::File;
                let place = dir.take(k);
                assert(recorded(before, place));
                let i = choose|i: int|
                    0 <= i < before.len() && place == full_path(#[trigger] before[i]);
                assert(before[i] == items[i]);
                assert(dir.take(place.len() as int) =~= place);
                lemma_prefix_of_full_path(place, dir, name);
                assert(is_prefix(full_path(items[i]), full_path(items[last])));
            }
        }
        assert forall|place: Seq<Seq<char>>|
            #![trigger made.contains_key(place)]
            #![trigger tree_of(items).contains_key(place)]
            made.contains_key(place) == tree_of(items).contains_key(place) && (made.contains_key(
                place,
            ) ==> made[place] == tree_of(items)[place]) by {
            lemma_last_recording(items, place);
            lemma_prefix_of_full_path(place, dir, name);
            if earlier.contains_key(place) && place == target {
                assert(on_the_way(before, place));
                let i = choose|i: int|
                    0 <= i < before.len() && is_prefix(place, full_path(#[trigger] before[i]));
                assert(before[i] == items[i]);
                assert(is_prefix(full_path(items[last]), full_path(items[i])));
            }
            if !earlier.contains_key(place) && recorded(before, place) {
                let i = choose|i: int|
                    0 <= i < before.len() && place == full_path(#[trigger] before[i]);
                assert(place.take(place.len() as int) =~= place);
                assert(is_prefix(place, full_path(before[i])));
            }
        }
        assert(made =~= tree_of(items));
    }
}

/// Of recordings that are apart, made one after the other in a tree that has
/// found nothing yet, none is lost, whichever came first: the tree holds the
/// file of each as a file, in its directory, and every directory on the way
/// as a directory.
pub proof fn lemma_no_recording_is_lost(items: Seq<(Seq<Seq<char>>, Seq<char>)>, i: int)
    requires
        apart(items),
        0 <= i < items.len(),
    ensures
        with_files(empty_tree(), items).contains_key(full_path(items[i])),
        with_files(empty_tree(), items)[full_path(items[i])] == EntryKind::File,
        forall|k: int|
            0 <= k <= items[i].0.len() ==> with_files(empty_tree(), items).contains_key(
                #[trigger] items[i].0.take(k),
            ) && with_files(empty_tree(), items)[items[i].0.take(k)] == EntryKind::Dir,
{
    lemma_recordings_make_their_tree(items);
    let target = full_path(items[i]);
    assert(target.take(target.len() as int) =~= target);
    assert(is_prefix(target, full_path(items[i])));
    assert forall|k: int| 0 <= k <= items[i].0.len() implies tree_of(items).contains_key(
        #[trigger] items[i].0.take(k),
    ) && tree_of(items)[items[i].0.take(k)] == EntryKind::Dir by {
        let place = items[i].0.take(k);
        assert(items[i].0.take(place.len() as int) =~= place);
        lemma_prefix_of_full_path(place, items[i].0, items[i].1);
        assert(is_prefix(place, full_path(items[i])));
        if recorded(items, place) {
            let j = choose|j: int| 0 <= j < items.len() && place == full_path(#[trigger] items[j]);
            assert(place.len() != target.len());
            assert(is_prefix(full_path(items[j]), full_path(items[i])));
        }
    }
}

/// The same recordings in two orders, apart from one another, leave the
/// same tree. So it is with recordings that arrive from many sides at once
/// and are let in one at a time: whatever the order, the tree is the same,
/// and it is the tree of the recordings.
pub proof fn lemma_recordings_in_any_order(
    one: Seq<(Seq<Seq<char>>, Seq<char>)>,
    other: Seq<(Seq<Seq<char>>, Seq<char>)>,
)
    requires
        apart(one),
        apart(other),
        forall|i: int| 0 <= i < one.len() ==> recorded(other, full_path(#[trigger] one[i])),
        forall|j: int| 0 <= j < other.len() ==> recorded(one, full_path(#[trigger] other[j])),
    ensures
        with_files(empty_tree(), one) == with_files(empty_tree(), other),
{
    lemma_recordings_make_their_tree(one);
    lemma_recordings_make_their_tree(other);
    assert forall|place: Seq<Seq<char>>|
        recorded(one, place) == recorded(other, place) && on_the_way(one, place) == on_the_way(
            other,
            place,
        ) by {
        lemma_same_recordings(one, other, place);
        lemma_same_recordings(other, one, place);
    }
    assert(tree_of(one) =~= tree_of(other));
}

/// What is recorded, or on the way, in one list is so in a list that holds
/// all the files of the first.
proof fn lemma_same_recordings(
    one: Seq<(Seq<Seq<char>>, Seq<char>)>,
    other: Seq<(Seq<Seq<char>>, Seq<char>)>,
    place: Seq<Seq<char>>,
)
    requires
        forall|i: int| 0 <= i < one.len() ==> recorded(other, full_path(#[trigger] one[i])),
    ensures
        recorded(one, place) ==> recorded(other, place),
        on_the_way(one, place) ==> on_the_way(other, place),
{
    if recorded(one, place) {
        let i = choose|i: int| 0 <= i < one.len() && place == full_path(#[trigger] one[i]);
        assert(recorded(other, full_path(one[i])));
    }
    if on_the_way(one, place) {
        let i = choose|i: int| 0 <= i < one.len() && is_prefix(place, full_path(#[trigger] one[i]));
        assert(recorded(other, full_path(one[i])));
        let j = choose|j: int|
            0 <= j < other.len() && full_path(one[i]) == full_path(#[trigger] other[j]);
        assert(is_prefix(place, full_path(other[j])));
    }
}

} // verus!
