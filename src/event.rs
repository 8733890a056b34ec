use vstd::prelude::*;

verus! {

/// A timing marker reported by the engine, with character offsets into the utterance.
#[derive(Clone, Copy, Debug, PartialEq, Eq, Structural)]
pub enum BoundaryEvent {
    Start,
    /// A word starting at the first offset, of the second's length.
    Word(u64, u64),
    /// A sentence starting at the offset.
    Sentence(u64),
    End,
}

/// The outward notifications of the local playback mode, each scoped to a task id.
#[derive(Clone, Copy, Debug, PartialEq, Eq, Structural)]
pub enum Notification {
    SpeechStart(u64),
    /// Task id, start offset and end offset of the word being spoken.
    SpeechRangeStart(u64, u64, u64),
    SpeechEnd(u64),
}

pub open spec fn min_int(a: int, b: int) -> int {
    if a <= b {
        a
    } else {
        b
    }
}

/// The character range `[start, start + len)` of a word, cut to an utterance of
/// `text_len` characters.
pub open spec fn word_bounds(start: u64, len: u64, text_len: u64) -> (u64, u64) {
    (
        min_int(start as int, text_len as int) as u64,
        min_int(start + len, text_len as int) as u64,
    )
}

/// Start and end offsets of a word event, kept within the utterance.
pub fn word_range(start: u64, len: u64, text_len: u64) -> (r: (u64, u64))
    ensures
        r == word_bounds(start, len, text_len),
{
    let s = if start <= text_len { start } else { text_len };
    let e = if len <= text_len && start <= text_len - len { start + len } else { text_len };
    (s, e)
}

/// Reported word ranges lie within the utterance and are ordered; a word that
/// lies within it already is reported as it is.
pub proof fn lemma_word_range_within_text(start: u64, len: u64, text_len: u64)
    ensures
        word_bounds(start, len, text_len).0 <= word_bounds(start, len, text_len).1,
        word_bounds(start, len, text_len).1 <= text_len,
        start + len <= text_len ==> word_bounds(start, len, text_len) == (start, (start + len) as u64),
{
}

} // verus!
