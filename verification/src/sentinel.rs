//! Reading the oracle's answer: a response body that holds the sentinel
//! anywhere means "not found", and the body is read piece by piece as it
//! arrives, without ever being held whole.

use vstd::prelude::*;

verus! {

/// `pattern` stands in `text` at offset `at`.
pub open spec fn occurs_at(text: Seq<u8>, pattern: Seq<u8>, at: int) -> bool {
    &&& 0 <= at
    &&& at + pattern.len() <= text.len()
    &&& text.subrange(at, at + pattern.len()) == pattern
}

/// `pattern` stands somewhere in `text`.
pub open spec fn contains(text: Seq<u8>, pattern: Seq<u8>) -> bool {
    exists|at: int| occurs_at(text, pattern, at)
}

/// The pieces of a body, one after another.
pub open spec fn stream_of(chunks: Seq<Vec<u8>>) -> Seq<u8>
    decreases chunks.len(),
{
    if chunks.len() == 0 {
        Seq::<u8>::empty()
    } else {
        stream_of(chunks.drop_last()) + chunks.last()@
    }
}

/// The last `n` bytes of `text` are the first `n` bytes of `pattern`.
pub open spec fn ends_with_start(text: Seq<u8>, pattern: Seq<u8>, n: int) -> bool {
    &&& 0 <= n <= text.len()
    &&& n <= pattern.len()
    &&& forall|i: int| 0 <= i < n ==> text[text.len() - n + i] == #[trigger] pattern[i]
}

/// `n` is the greatest length at which the end of `text` is a start of
/// `pattern`.
pub open spec fn longest_overlap(text: Seq<u8>, pattern: Seq<u8>, n: int) -> bool {
    &&& ends_with_start(text, pattern, n)
    &&& forall|m: int| #[trigger] ends_with_start(text, pattern, m) ==> m <= n
}

/// For every state `k` from 1 up to `upto`, `table[k]` is the state to fall
/// back to: the greatest length, short of `k`, at which the end of the first
/// `k` bytes of `pattern` is a start of `pattern`.
pub open spec fn fallbacks_hold(pattern: Seq<u8>, table: Seq<usize>, upto: int) -> bool {
    &&& upto < table.len()
    &&& upto <= pattern.len()
    &&& forall|k: int|
        1 <= k <= upto ==> longest_overlap(pattern.subrange(1, k), pattern, #[trigger] table[k] as int)
}

/// Text that holds the pattern still holds it when more follows.
pub proof fn lemma_contains_grows(text: Seq<u8>, more: Seq<u8>, pattern: Seq<u8>)
    requires
        contains(text, pattern),
    ensures
        contains(text + more, pattern),
{
    let at = choose|at: int| occurs_at(text, pattern, at);
    assert((text + more).subrange(at, at + pattern.len()) =~= text.subrange(
        at,
        at + pattern.len(),
    ));
    assert(occurs_at(text + more, pattern, at));
}

/// Whatever comes before the pattern and whatever comes after it, be it a
/// start of the pattern that broke off, the pattern is found.
pub proof fn lemma_occurrence_is_found(before: Seq<u8>, pattern: Seq<u8>, after: Seq<u8>)
    ensures
        contains(before + pattern + after, pattern),
{
    let text = before + pattern + after;
    assert(text.subrange(before.len() as int, (before.len() + pattern.len()) as int) =~= pattern);
    assert(occurs_at(text, pattern, before.len() as int));
}

/// Text that does not hold the pattern holds it after one more byte exactly
/// when it then ends with the pattern.
proof fn lemma_contains_push(text: Seq<u8>, byte: u8, pattern: Seq<u8>)
    requires
        !contains(text, pattern),
    ensures
        contains(text.push(byte), pattern) <==> ends_with_start(
            text.push(byte),
            pattern,
            pattern.len() as int,
        ),
{
    let longer = text.push(byte);
    let m = pattern.len() as int;
    if contains(longer, pattern) {
        let at = choose|at: int| occurs_at(longer, pattern, at);
        if at + m <= text.len() {
            assert(text.subrange(at, at + m) =~= longer.subrange(at, at + m));
            assert(occurs_at(text, pattern, at));
        }
        assert forall|i: int| 0 <= i < m implies longer[longer.len() - m + i] == pattern[i] by {
            assert(longer.subrange(at, at + m)[i] == pattern[i]);
        }
    }
    if ends_with_start(longer, pattern, m) {
        let at = longer.len() - m;
        assert(longer.subrange(at, at + m) =~= pattern);
        assert(occurs_at(longer, pattern, at));
    }
}

/// An overlap shorter than another is an overlap of the pattern with itself.
proof fn lemma_overlap_within(text: Seq<u8>, pattern: Seq<u8>, cur: int, n: int)
    requires
        ends_with_start(text, pattern, cur),
        ends_with_start(text, pattern, n),
        n < cur,
    ensures
        ends_with_start(pattern.subrange(1, cur), pattern, n),
{
    let head = pattern.subrange(1, cur);
    assert forall|i: int| 0 <= i < n implies head[head.len() - n + i] == pattern[i] by {
        assert(text[text.len() - n + i] == pattern[i]);
        assert(text[text.len() - cur + (cur - n + i)] == pattern[cur - n + i]);
    }
}

/// An overlap of the pattern with itself, inside an overlap with the text,
/// is an overlap with the text.
proof fn lemma_overlap_through(text: Seq<u8>, pattern: Seq<u8>, cur: int, shorter: int)
    requires
        cur >= 1,
        ends_with_start(text, pattern, cur),
        ends_with_start(pattern.subrange(1, cur), pattern, shorter),
    ensures
        ends_with_start(text, pattern, shorter),
{
    let head = pattern.subrange(1, cur);
    assert forall|i: int| 0 <= i < shorter implies text[text.len() - shorter + i]
        == pattern[i] by {
        assert(head[head.len() - shorter + i] == pattern[i]);
        assert(text[text.len() - cur + (cur - shorter + i)] == pattern[cur - shorter + i]);
    }
}

/// A byte that continues an overlap makes it one longer.
proof fn lemma_overlap_push(text: Seq<u8>, byte: u8, pattern: Seq<u8>, n: int)
    requires
        ends_with_start(text, pattern, n),
        n < pattern.len(),
        pattern[n] == byte,
    ensures
        ends_with_start(text.push(byte), pattern, n + 1),
{
    let longer = text.push(byte);
    assert forall|i: int| 0 <= i < n + 1 implies longer[longer.len() - (n + 1) + i]
        == pattern[i] by {
        if i < n {
            assert(text[text.len() - n + i] == pattern[i]);
        }
    }
}

/// An overlap after one more byte is an overlap before it, one shorter, that
/// the byte continues.
proof fn lemma_overlap_pop(text: Seq<u8>, byte: u8, pattern: Seq<u8>, m: int)
    requires
        ends_with_start(text.push(byte), pattern, m),
        m > 0,
    ensures
        ends_with_start(text, pattern, m - 1),
        pattern[m - 1] == byte,
{
    let longer = text.push(byte);
    assert forall|i: int| 0 <= i < m - 1 implies text[text.len() - (m - 1) + i]
        == pattern[i] by {
        assert(longer[longer.len() - m + i] == pattern[i]);
    }
    assert(longer[longer.len() - m + (m - 1)] == pattern[m - 1]);
}

/// From where the match stands after `text`, the next state after `byte`.
///
/// Tries the longest overlap first and falls back, overlap by overlap, until
/// `byte` continues one of them or none is left.
fn advance(
    pattern: &Vec<u8>,
    table: &Vec<usize>,
    state: usize,
    byte: u8,
    Ghost(text): Ghost<Seq<u8>>,
) -> (next: usize)
    requires
        state < pattern.len(),
        longest_overlap(text, pattern@, state as int),
        fallbacks_hold(pattern@, table@, state as int),
    ensures
        longest_overlap(text.push(byte), pattern@, next as int),
        next <= state + 1,
{
    let ghost longer = text.push(byte);
    let mut cur = state;
    while cur > 0 && pattern[cur] != byte
        invariant
            cur <= state < pattern.len(),
            fallbacks_hold(pattern@, table@, state as int),
            ends_with_start(text, pattern@, cur as int),
            forall|n: int|
                cur < n && #[trigger] ends_with_start(text, pattern@, n) ==> n < pattern.len()
                    && pattern[n] != byte,
        decreases cur,
    {
        let shorter = table[cur];
        proof {
            let head = pattern@.subrange(1, cur as int);
            assert(longest_overlap(head, pattern@, shorter as int));
            lemma_overlap_through(text, pattern@, cur as int, shorter as int);
            assert forall|n: int|
                shorter < n && #[trigger] ends_with_start(text, pattern@, n) implies n
                < pattern.len() && pattern[n] != byte by {
                if n < cur {
                    lemma_overlap_within(text, pattern@, cur as int, n);
                }
            }
        }
        cur = shorter;
    }
    if pattern[cur] == byte {
        proof {
            lemma_overlap_push(text, byte, pattern@, cur as int);
            assert forall|m: int| #[trigger] ends_with_start(longer, pattern@, m) implies m <= cur
                + 1 by {
                if m > cur + 1 {
                    lemma_overlap_pop(text, byte, pattern@, m);
                }
            }
        }
        cur + 1
    } else {
        proof {
            assert(ends_with_start(longer, pattern@, 0));
            assert forall|m: int| #[trigger] ends_with_start(longer, pattern@, m) implies m
                <= 0 by {
                if m > 0 {
                    lemma_overlap_pop(text, byte, pattern@, m);
                }
            }
        }
        0
    }
}

/// The fallback table of `pattern`.
fn fallback_table(pattern: &Vec<u8>) -> (table: Vec<usize>)
    requires
        pattern.len() >= 1,
    ensures
        fallbacks_hold(pattern@, table@, pattern.len() - 1),
{
    let mut table: Vec<usize> = Vec::new();
    table.push(0);
    if pattern.len() == 1 {
        return table;
    }
    table.push(0);
    proof {
        assert(pattern@.subrange(1, 1).len() == 0);
    }
    let mut k: usize = 1;
    while k + 1 < pattern.len()
        invariant
            1 <= k < pattern.len(),
            table.len() == k + 1,
            fallbacks_hold(pattern@, table@, k as int),
        decreases pattern.len() - k,
    {
        let ghost head = pattern@.subrange(1, k as int);
        let state = table[k];
        proof {
            assert(longest_overlap(head, pattern@, state as int));
            assert(state <= head.len());
            assert forall|j: int| 1 <= j <= state implies longest_overlap(
                pattern@.subrange(1, j),
                pattern@,
                #[trigger] table@[j] as int,
            ) by {}
        }
        let next = advance(pattern, &table, state, pattern[k], Ghost(head));
        let ghost before = table@;
        table.push(next);
        proof {
            assert(head.push(pattern[k as int]) =~= pattern@.subrange(1, k + 1));
            assert forall|j: int| 1 <= j <= k + 1 implies longest_overlap(
                pattern@.subrange(1, j),
                pattern@,
                #[trigger] table@[j] as int,
            ) by {
                if j <= k {
                    assert(table@[j] == before[j]);
                }
            }
        }
        k += 1;
    }
    table
}

/// What happens while the body of a response is read.
pub enum BodyEvent<'a> {
    /// The next piece of the body arrived.
    Piece(&'a [u8]),
    /// The body came to its end.
    Ended,
    /// The body broke off: a piece failed to arrive.
    Failed,
}

/// What the reader of a body is to do next.
#[derive(Clone, Copy, Debug, PartialEq, Eq, Structural)]
pub enum Reading {
    /// Read on: nothing is settled yet.
    More,
    /// Stop: the oracle's answer is this, `true` for "exists".
    Answer(bool),
    /// Stop and send the request again: this body settles nothing.
    Again,
}

/// What a reader is to do after `event`, given whether the sentinel stands
/// in what has been read up to and with it.
pub open spec fn reading_after(found: bool, event: BodyEvent<'_>) -> Reading {
    if found {
        Reading::Answer(false)
    } else {
        match event {
            BodyEvent::Piece(_) => Reading::More,
            BodyEvent::Ended => Reading::Answer(true),
            BodyEvent::Failed => Reading::Again,
        }
    }
}

/// What a body answers that arrived in these pieces and then ended or, with
/// `ended` false, broke off: `Some(false)` where the sentinel stands in it,
/// `Some(true)` where it does not and the body ended, and nothing where it
/// does not and the body broke off.
pub open spec fn answer_of(body: Seq<u8>, ended: bool, sentinel: Seq<u8>) -> Option<bool> {
    if contains(body, sentinel) {
        Some(false)
    } else if ended {
        Some(true)
    } else {
        None
    }
}

/// How far a matcher has come.
struct Progress {
    matched: usize,
    found: bool,
    seen: Ghost<Seq<u8>>,
}

/// A matcher that reads a body piece by piece and knows at every moment
/// whether the sentinel stands in what it has read.
///
/// It keeps no more than the sentinel, a table of as many numbers, and how
/// far the current match has come; the bytes that it has read are known to
/// the proof alone.
pub struct SentinelMatcher {
    sentinel: Vec<u8>,
    fallback: Vec<usize>,
    progress: Progress,
}

impl SentinelMatcher {
    /// The byte sequence that is looked for.
    pub closed spec fn sentinel(&self) -> Seq<u8> {
        self.sentinel@
    }

    /// All the bytes read so far, in the order they came.
    pub closed spec fn seen(&self) -> Seq<u8> {
        self.progress.seen@
    }

    /// The matcher's state fits what it has read.
    #[verifier::type_invariant]
    spec fn fits(&self) -> bool {
        &&& self.progress.found == contains(self.progress.seen@, self.sentinel@)
        &&& !self.progress.found ==> {
            &&& self.progress.matched < self.sentinel.len()
            &&& longest_overlap(self.progress.seen@, self.sentinel@, self.progress.matched as int)
            &&& fallbacks_hold(self.sentinel@, self.fallback@, self.sentinel.len() - 1)
        }
    }

    /// A matcher for `sentinel` that has read nothing yet.
    pub fn new(sentinel: Vec<u8>) -> (matcher: Self)
        ensures
            matcher.sentinel() == sentinel@,
            matcher.seen() == Seq::<u8>::empty(),
    {
        let ghost nothing = Seq::<u8>::empty();
        if sentinel.len() == 0 {
            proof {
                assert(nothing.subrange(0, 0) =~= sentinel@);
                assert(occurs_at(nothing, sentinel@, 0));
            }
            SentinelMatcher {
                sentinel,
                fallback: Vec::new(),
                progress: Progress { matched: 0, found: true, seen: Ghost(nothing) },
            }
        } else {
            let fallback = fallback_table(&sentinel);
            proof {
                assert(!contains(nothing, sentinel@));
            }
            SentinelMatcher {
                sentinel,
                fallback,
                progress: Progress { matched: 0, found: false, seen: Ghost(nothing) },
            }
        }
    }

    /// Whether the sentinel stands in what has been read.
    pub fn is_found(&self) -> (found: bool)
        ensures
            found == contains(self.seen(), self.sentinel()),
    {
        proof {
            use_type_invariant(self);
        }
        self.progress.found
    }

    /// Reads the next piece of the body and says whether the sentinel stands
    /// in all that has been read, this piece included. Where the pieces are
    /// cut does not matter: only the bytes and their order do.
    pub fn feed(&mut self, chunk: &[u8]) -> (found: bool)
        ensures
            final(self).sentinel() == old(self).sentinel(),
            final(self).seen() == old(self).seen() + chunk@,
            found == contains(final(self).seen(), final(self).sentinel()),
    {
        proof {
            use_type_invariant(&*self);
        }
        let ghost start = self.progress.seen@;
        let ghost mut text = start;
        let mut matched = self.progress.matched;
        let mut found = self.progress.found;
        let mut i: usize = 0;
        proof {
            assert(start + chunk@.take(0) =~= start);
        }
        while i < chunk.len() && !found
            invariant
                i <= chunk.len(),
                text == start + chunk@.take(i as int),
                found == contains(text, self.sentinel@),
                !found ==> {
                    &&& matched < self.sentinel.len()
                    &&& longest_overlap(text, self.sentinel@, matched as int)
                    &&& fallbacks_hold(self.sentinel@, self.fallback@, self.sentinel.len() - 1)
                },
            decreases chunk.len() - i,
        {
            matched = advance(&self.sentinel, &self.fallback, matched, chunk[i], Ghost(text));
            proof {
                lemma_contains_push(text, chunk[i as int], self.sentinel@);
                assert(start + chunk@.take(i + 1) =~= text.push(chunk[i as int]));
                text = text.push(chunk[i as int]);
            }
            if matched == self.sentinel.len() {
                found = true;
            }
            i += 1;
        }
        proof {
            let rest = chunk@.skip(i as int);
            assert(start + chunk@ =~= text + rest);
            if found {
                lemma_contains_grows(text, rest, self.sentinel@);
            } else {
                assert(rest.len() == 0);
                assert(text + rest =~= text);
            }
        }
        self.progress = Progress { matched, found, seen: Ghost(start + chunk@) };
        found
    }

    /// Takes the next thing that happens while a body is read and says what
    /// the reader is to do. Once the sentinel stands in what has been read,
    /// the answer is that the path does not exist, and the reader can stop.
    /// Short of that, a piece asks for more, the end of the body answers that
    /// the path exists, and a body that broke off answers nothing: it is
    /// never taken for a body without the sentinel.
    pub fn read(&mut self, event: BodyEvent<'_>) -> (next: Reading)
        ensures
            final(self).sentinel() == old(self).sentinel(),
            final(self).seen() == match event {
                BodyEvent::Piece(bytes) => old(self).seen() + bytes@,
                _ => old(self).seen(),
            },
            next == reading_after(contains(final(self).seen(), final(self).sentinel()), event),
            event is Failed ==> next != Reading::Answer(true),
    {
        match event {
            BodyEvent::Piece(bytes) => {
                if self.feed(bytes) {
                    Reading::Answer(false)
                } else {
                    Reading::More
                }
            },
            BodyEvent::Ended => Reading::Answer(!self.is_found()),
            BodyEvent::Failed => {
                if self.is_found() {
                    Reading::Answer(false)
                } else {
                    Reading::Again
                }
            },
        }
    }
}

/// Whether a body that arrived in these pieces, and then ended or broke
/// off, says that the path exists. It says that it does not where the
/// sentinel stands somewhere in it, be it across the cuts between pieces. It
/// says that it does where the body ended without the sentinel. A body that
/// broke off without the sentinel says nothing, and the request is to be
/// sent again.
pub fn path_exists(chunks: &Vec<Vec<u8>>, ended: bool, sentinel: &Vec<u8>) -> (answer: Option<bool>)
    ensures
        answer == answer_of(stream_of(chunks@), ended, sentinel@),
        !ended ==> answer != Some(true),
{
    let mut matcher = SentinelMatcher::new(sentinel.clone());
    let mut i: usize = 0;
    while i < chunks.len()
        invariant
            i <= chunks.len(),
            matcher.sentinel() == sentinel@,
            matcher.seen() == stream_of(chunks@.take(i as int)),
        decreases chunks.len() - i,
    {
        proof {
            assert(chunks@.take(i + 1).drop_last() =~= chunks@.take(i as int));
        }
        match matcher.read(BodyEvent::Piece(chunks[i].as_slice())) {
            Reading::More => {},
            _ => {
                proof {
                    lemma_stream_grows(chunks@, i + 1);
                    lemma_contains_grows(
                        stream_of(chunks@.take(i + 1)),
                        stream_of(chunks@).skip(stream_of(chunks@.take(i + 1)).len() as int),
                        sentinel@,
                    );
                }
                return Some(false);
            },
        }
        i += 1;
    }
    proof {
        assert(chunks@.take(chunks.len() as int) =~= chunks@);
    }
    let last = if ended {
        BodyEvent::Ended
    } else {
        BodyEvent::Failed
    };
    match matcher.read(last) {
        Reading::Answer(answer) => Some(answer),
        _ => None,
    }
}

/// The first pieces of a body make up the start of the body.
pub proof fn lemma_stream_grows(chunks: Seq<Vec<u8>>, n: int)
    requires
        0 <= n <= chunks.len(),
    ensures
        stream_of(chunks.take(n)).len() <= stream_of(chunks).len(),
        stream_of(chunks) == stream_of(chunks.take(n)) + stream_of(chunks).skip(
            stream_of(chunks.take(n)).len() as int,
        ),
    decreases chunks.len() - n,
{
    if n == chunks.len() {
        assert(chunks.take(n) =~= chunks);
        assert(stream_of(chunks) =~= stream_of(chunks) + stream_of(chunks).skip(
            stream_of(chunks).len() as int,
        ));
    } else {
        lemma_stream_grows(chunks, n + 1);
        assert(chunks.take(n + 1).drop_last() =~= chunks.take(n));
        let short = stream_of(chunks.take(n));
        let long = stream_of(chunks.take(n + 1));
        assert(long == short + chunks[n]@);
        assert(stream_of(chunks) =~= short + stream_of(chunks).skip(short.len() as int));
    }
}

/// Two lists of pieces one after the other make up the two bodies one after
/// the other.
pub proof fn lemma_stream_of_add(first: Seq<Vec<u8>>, second: Seq<Vec<u8>>)
    ensures
        stream_of(first + second) == stream_of(first) + stream_of(second),
    decreases second.len(),
{
    if second.len() == 0 {
        assert(first + second =~= first);
        assert(stream_of(first) + stream_of(second) =~= stream_of(first));
    } else {
        lemma_stream_of_add(first, second.drop_last());
        assert((first + second).drop_last() =~= first + second.drop_last());
        assert(stream_of(first + second) =~= stream_of(first) + stream_of(second));
    }
}

/// Cutting one piece of a body in two leaves the body what it was.
pub proof fn lemma_cut_keeps_stream(chunks: Seq<Vec<u8>>, at: int, left: Vec<u8>, right: Vec<u8>)
    requires
        0 <= at < chunks.len(),
        left@ + right@ == chunks[at]@,
    ensures
        stream_of(chunks.take(at).push(left).push(right) + chunks.skip(at + 1)) == stream_of(
            chunks,
        ),
{
    let cut = chunks.take(at).push(left).push(right);
    lemma_stream_of_add(cut, chunks.skip(at + 1));
    lemma_stream_of_add(chunks.take(at + 1), chunks.skip(at + 1));
    assert(chunks.take(at + 1) + chunks.skip(at + 1) =~= chunks);
    assert(chunks.take(at + 1).drop_last() =~= chunks.take(at));
    assert(cut.drop_last() =~= chunks.take(at).push(left));
    assert(cut.drop_last().drop_last() =~= chunks.take(at));
    assert(stream_of(cut) == stream_of(cut.drop_last()) + right@);
    assert(stream_of(cut.drop_last()) == stream_of(chunks.take(at)) + left@);
    assert(stream_of(chunks.take(at + 1)) == stream_of(chunks.take(at)) + chunks[at]@);
    assert(stream_of(cut) =~= stream_of(chunks.take(at + 1)));
}

/// Where a body is cut into pieces does not matter: two ways of cutting the
/// same bytes get the same answer, and so does the body in one piece.
pub proof fn lemma_cuts_do_not_matter(
    one_way: Seq<Vec<u8>>,
    other_way: Seq<Vec<u8>>,
    sentinel: Seq<u8>,
)
    requires
        stream_of(one_way) == stream_of(other_way),
    ensures
        contains(stream_of(one_way), sentinel) == contains(stream_of(other_way), sentinel),
        forall|whole: Vec<u8>|
            whole@ == stream_of(one_way) ==> stream_of(seq![whole]) == stream_of(one_way),
{
    assert forall|whole: Vec<u8>| whole@ == stream_of(one_way) implies stream_of(seq![whole])
        == stream_of(one_way) by {
        assert(seq![whole].drop_last() =~= Seq::<Vec<u8>>::empty());
        assert(stream_of(Seq::<Vec<u8>>::empty()) =~= Seq::<u8>::empty());
        assert(stream_of(seq![whole]) == stream_of(seq![whole].drop_last()) + whole@);
        assert(stream_of(seq![whole]) =~= whole@);
    }
}

} // verus!
