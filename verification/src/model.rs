//! What a limited writer is, seen from outside: its budget, the bytes it
//! was asked to write, and the text it handed on.

use vstd::prelude::*;
use vstd::utf8::*;
use crate::boundary::{
    byte_len, fits, fitting_prefix, lemma_boundary_ends_prefix, lemma_encode_concat,
    lemma_longest_fit, lemma_prefix_ends_on_boundary, lemma_prefix_offsets_grow,
    lemma_whole_text_fits, longest_fit, room_left,
};

verus! {

/// The state of a limited writer.
pub struct SinkState {
    /// The most bytes that are ever handed to the destination.
    pub limit: nat,
    /// The bytes of all texts written so far, handed on or not.
    pub counted: nat,
    /// The text handed to the destination so far.
    pub sent: Seq<char>,
}

impl SinkState {
    /// A writer that nothing was written to yet.
    pub open spec fn fresh(limit: nat) -> SinkState {
        SinkState { limit, counted: 0, sent: Seq::empty() }
    }

    /// The bytes that may still be handed on.
    pub open spec fn room(self) -> nat {
        room_left(self.limit, self.counted)
    }

    /// The part of `text` that a write hands on.
    pub open spec fn forwarded(self, text: Seq<char>) -> Seq<char> {
        fitting_prefix(text, self.room())
    }

    /// The state after `text` was written.
    pub open spec fn write(self, text: Seq<char>) -> SinkState {
        SinkState {
            limit: self.limit,
            counted: self.counted + byte_len(text),
            sent: self.sent + self.forwarded(text),
        }
    }

    /// The state after the texts were written one after the other.
    pub open spec fn write_all(self, texts: Seq<Seq<char>>) -> SinkState
        decreases texts.len(),
    {
        if texts.len() == 0 {
            self
        } else {
            self.write(texts[0]).write_all(texts.drop_first())
        }
    }

    /// What was handed on is within the budget, and is no more than what
    /// was written.
    pub open spec fn within_budget(self) -> bool {
        byte_len(self.sent) <= self.limit && byte_len(self.sent) <= self.counted
    }
}

/// What a write hands on is a run of whole leading characters of the text:
/// no character is cut. Its encoding ends at the last character boundary
/// within the room that is left, so it is within that room, and no longer
/// run of leading characters is.
pub proof fn lemma_forwarded_whole_characters(st: SinkState, text: Seq<char>) -> (c: int)
    ensures
        0 <= c <= text.len(),
        st.forwarded(text) == text.take(c),
        byte_len(st.forwarded(text)) == longest_fit(encode_utf8(text), st.room()),
        byte_len(st.forwarded(text)) <= st.room(),
        byte_len(st.forwarded(text)) <= byte_len(text),
        forall|d: int| c < d <= text.len() ==> byte_len(#[trigger] text.take(d)) > st.room(),
{
    broadcast use group_utf8_lib;

    let bytes = encode_utf8(text);
    let k = longest_fit(bytes, st.room());
    lemma_longest_fit(bytes, st.room());
    let c = lemma_boundary_ends_prefix(text, k);
    assert forall|d: int| c < d <= text.len() implies byte_len(#[trigger] text.take(d))
        > st.room() by {
        lemma_prefix_ends_on_boundary(text, d);
        lemma_prefix_offsets_grow(text, c, d);
        assert(!fits(bytes, st.room(), byte_len(text.take(d)) as int));
    }
    c
}

/// The encoding of what a write hands on ends at a character boundary of
/// the text within the room that is left, and at the last such boundary.
pub proof fn lemma_forwarded_maximal(st: SinkState, text: Seq<char>, k: int)
    requires
        0 <= k <= st.room(),
        is_char_boundary(encode_utf8(text), k),
    ensures
        is_char_boundary(encode_utf8(text), byte_len(st.forwarded(text)) as int),
        k <= byte_len(st.forwarded(text)),
{
    broadcast use group_utf8_lib;

    let bytes = encode_utf8(text);
    lemma_longest_fit(bytes, st.room());
    lemma_forwarded_whole_characters(st, text);
    assert(fits(bytes, st.room(), k));
}

/// A text that fits the room that is left is handed on whole.
pub proof fn lemma_forwarded_whole_text(st: SinkState, text: Seq<char>)
    requires
        st.counted + byte_len(text) <= st.limit,
    ensures
        st.forwarded(text) == text,
{
    lemma_whole_text_fits(text, st.room());
}

/// Once the budget is used up, nothing more is handed on.
pub proof fn lemma_forwarded_nothing(st: SinkState, text: Seq<char>)
    requires
        st.counted >= st.limit,
    ensures
        st.forwarded(text) == Seq::<char>::empty(),
{
    let c = lemma_forwarded_whole_characters(st, text);
    if c > 0 {
        lemma_prefix_offsets_grow(text, 0, c);
    }
    assert(text.take(0) =~= Seq::<char>::empty());
}

/// A write counts every byte of the text, whatever part of it is handed
/// on, and leaves the limit as it was.
pub proof fn lemma_write_counts_all(st: SinkState, text: Seq<char>)
    ensures
        st.write(text).counted == st.counted + byte_len(text),
        st.write(text).counted >= st.counted,
        st.write(text).limit == st.limit,
{
}

/// A writer that nothing was written to is within its budget.
pub proof fn lemma_fresh_within_budget(limit: nat)
    ensures
        SinkState::fresh(limit).within_budget(),
{
    assert(encode_utf8(Seq::<char>::empty()).len() == 0);
}

/// A write keeps a writer within its budget: never more than `limit` bytes
/// are handed on in all.
pub proof fn lemma_write_within_budget(st: SinkState, text: Seq<char>)
    requires
        st.within_budget(),
    ensures
        st.write(text).within_budget(),
{
    lemma_forwarded_whole_characters(st, text);
    lemma_encode_concat(st.sent, st.forwarded(text));
}

/// Writing texts one after the other keeps a writer within its budget and
/// counts the bytes of each.
pub proof fn lemma_write_all_within_budget(st: SinkState, texts: Seq<Seq<char>>)
    requires
        st.within_budget(),
    ensures
        st.write_all(texts).within_budget(),
        st.write_all(texts).limit == st.limit,
        st.write_all(texts).counted >= st.counted,
    decreases texts.len(),
{
    if texts.len() > 0 {
        lemma_write_within_budget(st, texts[0]);
        lemma_write_all_within_budget(st.write(texts[0]), texts.drop_first());
    }
}

} // verus!
