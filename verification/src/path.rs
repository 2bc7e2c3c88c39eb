//! Directory paths as text and as lists of segment names.
//!
//! A directory is written as the scan writes it: the name of the scan root,
//! then the names of the directories below it, each followed by `/`. The tree
//! keeps the names after the root's own, one node for each.

use vstd::prelude::*;
use crate::text::push_char;

verus! {

/// The character that parts the names of a directory path.
pub const PATH_SEPARATOR: char = '/';

/// The names that a list of strings holds.
pub open spec fn path_of(parts: Seq<String>) -> Seq<Seq<char>> {
    Seq::new(parts.len(), |i: int| parts[i]@)
}

/// The names from place `next` of the list on; none where the list has no
/// such place.
pub open spec fn path_from(parts: Seq<String>, next: int) -> Seq<Seq<char>> {
    if 0 <= next <= parts.len() {
        path_of(parts).skip(next)
    } else {
        Seq::<Seq<char>>::empty()
    }
}

/// The pieces of `text` between the occurrences of `sep`: one more piece than
/// there are occurrences, an empty one where two of them meet or where the
/// text starts or ends with one.
pub open spec fn split_on(text: Seq<char>, sep: char) -> Seq<Seq<char>>
    decreases text.len(),
{
    if text.len() == 0 {
        seq![Seq::<char>::empty()]
    } else {
        let before = split_on(text.drop_last(), sep);
        if text.last() == sep {
            before.push(Seq::<char>::empty())
        } else {
            before.drop_last().push(before.last().push(text.last()))
        }
    }
}

/// The pieces, written one after another with `sep` between them.
pub open spec fn joined(parts: Seq<Seq<char>>, sep: char) -> Seq<char>
    decreases parts.len(),
{
    if parts.len() == 0 {
        Seq::<char>::empty()
    } else if parts.len() == 1 {
        parts[0]
    } else {
        joined(parts.drop_last(), sep) + seq![sep] + parts.last()
    }
}

/// Holds of the pieces that name something: the ones that are not empty.
pub open spec fn named() -> spec_fn(Seq<char>) -> bool {
    |part: Seq<char>| part.len() > 0
}

/// The segment names of a directory path: what stands between its slashes,
/// without the first piece, which names the root of the tree itself, and
/// without empty pieces.
pub open spec fn segments(dir: Seq<char>) -> Seq<Seq<char>> {
    split_on(dir, PATH_SEPARATOR).drop_first().filter(named())
}

/// Splitting loses nothing: there is at least one piece, no piece holds the
/// separator, and the pieces joined by the separator are the text again.
pub proof fn lemma_split_on(text: Seq<char>, sep: char)
    ensures
        split_on(text, sep).len() >= 1,
        forall|i: int, j: int|
            0 <= i < split_on(text, sep).len() && 0 <= j < split_on(text, sep)[i].len()
                ==> split_on(text, sep)[i][j] != sep,
        joined(split_on(text, sep), sep) == text,
    decreases text.len(),
{
    let parts = split_on(text, sep);
    if text.len() == 0 {
        assert(parts[0] =~= text);
    } else {
        let before = split_on(text.drop_last(), sep);
        lemma_split_on(text.drop_last(), sep);
        if text.last() == sep {
            assert(parts.drop_last() =~= before);
            assert(joined(parts, sep) =~= text);
        } else {
            let grown = before.last().push(text.last());
            assert(text =~= text.drop_last().push(text.last()));
            if before.len() == 1 {
                assert(joined(before, sep) == before[0]);
                assert(parts.len() == 1 && parts[0] == grown);
                assert(joined(parts, sep) =~= text);
            } else {
                assert(parts.drop_last() =~= before.drop_last());
                assert(joined(before, sep) == joined(before.drop_last(), sep) + seq![sep]
                    + before.last());
                assert(joined(parts, sep) =~= text);
            }
        }
    }
}

/// Splits `dir` at every `sep`.
pub fn split_path(dir: &str, sep: char) -> (parts: Vec<String>)
    ensures
        path_of(parts@) == split_on(dir@, sep),
{
    let mut done: Vec<String> = Vec::new();
    let mut current = String::new();
    for c in it: dir.chars()
        invariant
            it.seq() == dir@,
            path_of(done@).push(current@) == split_on(dir@.take(it.index() as int), sep),
    {
        proof {
            assert(dir@.take(it.index() + 1).drop_last() =~= dir@.take(it.index() as int));
        }
        if c == sep {
            done.push(current);
            current = String::new();
        } else {
            push_char(&mut current, c);
        }
        proof {
            assert(path_of(done@).push(current@) =~= split_on(dir@.take(it.index() + 1), sep));
        }
    }
    proof {
        assert(dir@.take(dir@.len() as int) =~= dir@);
    }
    done.push(current);
    proof {
        assert(path_of(done@) =~= split_on(dir@, sep));
    }
    done
}

/// The segment names of the directory path `dir`, in order.
pub fn directory_segments(dir: &str) -> (parts: Vec<String>)
    ensures
        path_of(parts@) == segments(dir@),
{
    let raw = split_path(dir, PATH_SEPARATOR);
    let ghost pieces = path_of(raw@);
    let mut parts: Vec<String> = Vec::new();
    let mut i: usize = 1;
    proof {
        lemma_split_on(dir@, PATH_SEPARATOR);
        assert(pieces.subrange(1, 1) =~= Seq::<Seq<char>>::empty());
        assert(path_of(parts@) =~= pieces.subrange(1, 1).filter(named())) by {
            reveal(Seq::filter);
        }
    }
    while i < raw.len()
        invariant
            1 <= i <= raw.len(),
            pieces == path_of(raw@),
            path_of(parts@) == pieces.subrange(1, i as int).filter(named()),
        decreases raw.len() - i,
    {
        proof {
            assert(pieces.subrange(1, i + 1) =~= pieces.subrange(1, i as int).push(pieces[i as int]));
            pieces.subrange(1, i as int).lemma_filter_push(pieces[i as int], named());
            assert(named()(pieces[i as int]) == (raw[i as int]@.len() > 0));
        }
        if !raw[i].as_str().is_empty() {
            let ghost before = path_of(parts@);
            parts.push(raw[i].clone());
            proof {
                assert(path_of(parts@) =~= before.push(pieces[i as int]));
            }
        }
        i += 1;
    }
    proof {
        assert(pieces.subrange(1, raw.len() as int) =~= pieces.drop_first());
    }
    parts
}

} // verus!
