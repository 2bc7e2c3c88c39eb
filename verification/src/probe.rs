//! The text of a probe: what is asked of the oracle about one candidate.

use vstd::prelude::*;
use vstd::utf8::{
    decode_utf8,
    encode_utf8,
    encode_utf8_decode_utf8,
    encode_utf8_first_scalar,
    encode_utf8_valid_utf8,
    is_ascii_chars,
    is_ascii_chars_encode_utf8,
    is_char_boundary,
    length_of_first_scalar,
    pop_first_scalar,
};
use crate::text::{push_char, truncate_text};

verus! {

/// `depth` times the marker `*/`, which stands for any one level of
/// directories.
pub open spec fn markers(depth: nat) -> Seq<char>
    decreases depth,
{
    if depth == 0 {
        Seq::<char>::empty()
    } else {
        markers((depth - 1) as nat).push('*').push('/')
    }
}

/// The text whose bytes are those of `text` without the last `2 * depth + 1`.
pub open spec fn restored(text: Seq<char>, depth: nat) -> Seq<char> {
    decode_utf8(encode_utf8(text).subrange(0, encode_utf8(text).len() - 1 - 2 * depth))
}

/// The markers for `depth` levels are two characters for each level.
pub proof fn lemma_markers_len(depth: nat)
    ensures
        markers(depth).len() == 2 * depth,
    decreases depth,
{
    if depth > 0 {
        lemma_markers_len((depth - 1) as nat);
    }
}

/// The markers are plain one-byte characters.
pub proof fn lemma_markers_ascii(depth: nat)
    ensures
        is_ascii_chars(markers(depth)),
    decreases depth,
{
    if depth > 0 {
        lemma_markers_ascii((depth - 1) as nat);
    }
}

/// The bytes of two texts one after the other are the bytes of the first
/// and then those of the second.
pub proof fn lemma_bytes_of_add(first: Seq<char>, second: Seq<char>)
    ensures
        encode_utf8(first + second) == encode_utf8(first) + encode_utf8(second),
    decreases first.len(),
{
    if first.len() == 0 {
        assert(first + second =~= second);
        assert(encode_utf8(first) + encode_utf8(second) =~= encode_utf8(second));
    } else {
        lemma_bytes_of_add(first.drop_first(), second);
        assert((first + second).drop_first() =~= first.drop_first() + second);
        assert(encode_utf8(first + second) =~= encode_utf8(first) + encode_utf8(second));
    }
}

/// Where one text ends and the next begins, a character begins in their
/// bytes.
pub proof fn lemma_boundary_between(first: Seq<char>, second: Seq<char>)
    ensures
        is_char_boundary(encode_utf8(first + second), encode_utf8(first).len() as int),
    decreases first.len(),
{
    let bytes = encode_utf8(first + second);
    encode_utf8_valid_utf8(first + second);
    lemma_bytes_of_add(first, second);
    if first.len() > 0 {
        let rest = first.drop_first();
        encode_utf8_first_scalar(first + second);
        encode_utf8_first_scalar(first);
        lemma_boundary_between(rest, second);
        lemma_bytes_of_add(rest, second);
        assert((first + second).drop_first() =~= rest + second);
        assert(encode_utf8(first).len() == length_of_first_scalar(bytes) + encode_utf8(
            rest,
        ).len());
        assert(pop_first_scalar(bytes) =~= encode_utf8(rest + second));
    }
}

/// What `restore_dir_after_search` takes away is what
/// `prepare_dir_for_search` put there, for every candidate that is a plain
/// one-byte character, as those of the alphabet are: the prepared text can be
/// restored, and restored it is the text that was prepared.
pub proof fn lemma_restore_undoes_prepare(dir: Seq<char>, new_char: char, depth: nat)
    requires
        new_char <= '\u{7f}',
    ensures
        encode_utf8(dir.push(new_char) + markers(depth)).len() == encode_utf8(dir).len() + 1 + 2
            * depth,
        is_char_boundary(
            encode_utf8(dir.push(new_char) + markers(depth)),
            encode_utf8(dir).len() as int,
        ),
        restored(dir.push(new_char) + markers(depth), depth) == dir,
{
    let added = seq![new_char] + markers(depth);
    let prepared = dir.push(new_char) + markers(depth);
    assert(prepared =~= dir + added);
    lemma_markers_len(depth);
    lemma_markers_ascii(depth);
    assert(is_ascii_chars(added));
    is_ascii_chars_encode_utf8(added);
    lemma_bytes_of_add(dir, added);
    lemma_boundary_between(dir, added);
    let bytes = encode_utf8(prepared);
    assert(bytes.subrange(0, bytes.len() - 1 - 2 * depth) =~= encode_utf8(dir));
    encode_utf8_decode_utf8(dir);
}

/// Turns the text of a directory-name prefix into a probe for the candidate
/// that is one character longer: appends `new_char`, then `depth` markers, so
/// that the probe asks for an entry `depth` levels below a directory whose
/// name starts with the candidate.
pub fn prepare_dir_for_search(dir: &mut String, new_char: char, depth: usize)
    ensures
        final(dir)@ == old(dir)@.push(new_char) + markers(depth as nat),
{
    push_char(dir, new_char);
    let ghost start = dir@;
    let mut level: usize = 0;
    proof {
        assert(start + markers(0) =~= start);
    }
    while level < depth
        invariant
            level <= depth,
            dir@ == start + markers(level as nat),
        decreases depth - level,
    {
        push_char(dir, '*');
        push_char(dir, '/');
        level += 1;
        proof {
            assert(dir@ =~= start + markers(level as nat));
        }
    }
}

/// Takes a probe back to the prefix it was made from: cuts the last
/// `2 * depth + 1` bytes off `dir`, which are the candidate and the markers
/// where the candidate is a plain one-byte character.
///
/// The text must have that many bytes, and a character must begin where the
/// cut falls.
pub fn restore_dir_after_search(dir: &mut String, depth: usize)
    requires
        1 + 2 * depth <= encode_utf8(old(dir)@).len(),
        is_char_boundary(
            encode_utf8(old(dir)@),
            encode_utf8(old(dir)@).len() - 1 - 2 * depth,
        ),
    ensures
        final(dir)@ == restored(old(dir)@, depth as nat),
        encode_utf8(final(dir)@) == encode_utf8(old(dir)@).subrange(
            0,
            encode_utf8(old(dir)@).len() - 1 - 2 * depth,
        ),
{
    let length = dir.as_str().as_bytes().len();
    truncate_text(dir, length - 1 - 2 * depth);
    proof {
        encode_utf8_decode_utf8(dir@);
    }
}

/// The request that asks whether some file in `directory` has a name that
/// starts with `prefix` followed by `candidate`.
pub fn file_request(search_url: &str, directory: &str, prefix: &str, candidate: char) -> (url:
    String)
    ensures
        url@ == search_url@ + directory@ + prefix@ + seq![candidate],
{
    let mut url = String::from_str(search_url);
    url.append(directory);
    url.append(prefix);
    push_char(&mut url, candidate);
    proof {
        assert(url@ =~= search_url@ + directory@ + prefix@ + seq![candidate]);
    }
    url
}

/// The request that asks whether anything lies `depth` levels below a
/// directory of `base_directory` whose name starts with `prefix` followed by
/// `candidate`.
pub fn dir_request(
    search_url: &str,
    base_directory: &str,
    prefix: &str,
    candidate: char,
    depth: usize,
) -> (url: String)
    ensures
        url@ == search_url@ + base_directory@ + prefix@ + seq![candidate] + markers(depth as nat),
{
    let mut url = String::from_str(search_url);
    url.append(base_directory);
    url.append(prefix);
    prepare_dir_for_search(&mut url, candidate, depth);
    proof {
        assert(url@ =~= search_url@ + base_directory@ + prefix@ + seq![candidate] + markers(
            depth as nat,
        ));
    }
    url
}

} // verus!
