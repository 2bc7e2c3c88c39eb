//! Small string operations that the rest of the crate builds paths with.

use vstd::prelude::*;
use vstd::utf8::{encode_utf8, is_char_boundary};

verus! {

/// Appends one character to `s`.
///
/// Calls `String::push`, which is documented to append the given `char` to the
/// end of the string; nothing else of the string changes.
#[verifier::external_body]
pub(crate) fn push_char(s: &mut String, c: char)
    ensures
        final(s)@ == old(s)@.push(c),
{
    s.push(c);
}

/// Cuts `s` down to its first `new_len` bytes.
///
/// Calls `String::truncate`, which is documented to shorten the string to the
/// given length in bytes, and to panic if that length does not lie on a
/// character boundary; a length beyond the end, for which it does nothing,
/// is left out here as well.
#[verifier::external_body]
pub(crate) fn truncate_text(s: &mut String, new_len: usize)
    requires
        new_len <= encode_utf8(old(s)@).len(),
        is_char_boundary(encode_utf8(old(s)@), new_len as int),
    ensures
        encode_utf8(final(s)@) == encode_utf8(old(s)@).subrange(0, new_len as int),
{
    s.truncate(new_len);
}

} // verus!
