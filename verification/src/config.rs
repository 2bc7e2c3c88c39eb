//! What a scan is set up with: the alphabet that names are spelt in, the
//! endpoint that answers, and the sentinel that says "not found".

use vstd::prelude::*;

verus! {

/// The characters that a name may hold, in the order in which they are tried.
/// A name with any other character in it cannot be found.
pub const PATH_CHARACTERS: &'static str =
    "abcdefghijklmnopqrstuvwxyzABCDEFGHIJKLMNOPQRSTUVWXYZ0123456789-=_.";

/// The search endpoint: a request target is this text with the probe behind
/// it.
pub const SEARCH_URL: &'static str = "http://art.shieldchallenges.com/?search=";

/// The sentinel: a response body that holds these bytes, the text
/// `No images found.`, means that nothing matched the probe.
pub const PATH_DOESNT_EXIST_MSG: [u8; 16] = [
    78, 111, 32, 105, 109, 97, 103, 101, 115, 32, 102, 111, 117, 110, 100, 46,
];

/// The characters of `text`, one by one.
pub fn alphabet_of(text: &str) -> (alphabet: Vec<char>)
    ensures
        alphabet@ == text@,
{
    let mut alphabet: Vec<char> = Vec::new();
    for c in it: text.chars()
        invariant
            it.seq() == text@,
            alphabet@ == text@.take(it.index() as int),
    {
        alphabet.push(c);
        proof {
            assert(alphabet@ =~= text@.take(it.index() + 1));
        }
    }
    proof {
        assert(text@.take(text@.len() as int) =~= text@);
    }
    alphabet
}

/// The sentinel as a vector of its own.
pub fn sentinel_of(bytes: &[u8]) -> (sentinel: Vec<u8>)
    ensures
        sentinel@ == bytes@,
{
    let mut sentinel: Vec<u8> = Vec::new();
    let mut i: usize = 0;
    while i < bytes.len()
        invariant
            i <= bytes.len(),
            sentinel@ == bytes@.take(i as int),
        decreases bytes.len() - i,
    {
        sentinel.push(bytes[i]);
        proof {
            assert(sentinel@ =~= bytes@.take(i + 1));
        }
        i += 1;
    }
    proof {
        assert(bytes@.take(bytes@.len() as int) =~= bytes@);
    }
    sentinel
}

} // verus!
