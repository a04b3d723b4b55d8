//! The two limited writers. They differ only in how they find the place
//! where a text is cut.

use vstd::prelude::*;
use crate::boundary::{byte_len, prefix_to, scan_longest_fit, walk_longest_fit};
use crate::model::{
    lemma_forwarded_whole_text, lemma_fresh_within_budget, lemma_write_within_budget, SinkState,
};

verus! {

/// `core::fmt::Error`, the answer of a destination that did not accept a
/// text. It is carried through unread.
#[verifier::external_type_specification]
#[verifier::external_body]
pub struct ExFmtError(core::fmt::Error);

/// `core::fmt::Write::write_str` of the destination, with `s` as the text.
/// What the destination does with the text and whether it accepts it is
/// its own affair: nothing is claimed of the result.
#[verifier::external_body]
fn forward<T: core::fmt::Write + ?Sized>(inner: &mut T, s: &str) -> (r: Result<
    (),
    core::fmt::Error,
>) {
    inner.write_str(s)
}

/// Hands `text` to the destination and notes it as handed on, whatever the
/// destination answers.
fn hand_on<T: core::fmt::Write + ?Sized>(
    inner: &mut T,
    sent: &mut Ghost<Seq<char>>,
    text: &str,
) -> (r: Result<(), core::fmt::Error>)
    ensures
        final(sent)@ == old(sent)@ + text@,
{
    proof {
        sent@ = sent@ + text@;
    }
    forward(inner, text)
}

/// A writer that hands on at most `limit` bytes to its destination and
/// finds the place to cut by reading leading bytes.
pub struct LimitedWriter<'a, T: ?Sized + 'a> {
    inner: &'a mut T,
    limit: usize,
    n: usize,
    sent: Ghost<Seq<char>>,
}

impl<'a, T: ?Sized> View for LimitedWriter<'a, T> {
    type V = SinkState;

    closed spec fn view(&self) -> SinkState {
        SinkState { limit: self.limit as nat, counted: self.n as nat, sent: self.sent@ }
    }
}

impl<'a, T> LimitedWriter<'a, T> {
    /// A writer to `inner` that has handed on nothing yet.
    pub fn new(inner: &'a mut T, limit: usize) -> (w: Self)
        ensures
            w@ == SinkState::fresh(limit as nat),
            w@.within_budget(),
    {
        proof {
            lemma_fresh_within_budget(limit as nat);
        }
        Self { inner, limit, n: 0, sent: Ghost(Seq::empty()) }
    }

    /// The bytes of all texts written so far, handed on or not.
    pub fn num_bytes_would_written(&self) -> (n: usize)
        ensures
            n == self@.counted,
    {
        self.n
    }
}

impl<'a, T: core::fmt::Write + ?Sized> LimitedWriter<'a, T> {
    /// Hands to the destination the longest prefix of `s` that ends on a
    /// character boundary and fits the room that is left, counts all of
    /// `s`, and returns what the destination answered.
    pub fn write_str(&mut self, s: &str) -> (r: Result<(), core::fmt::Error>)
        requires
            old(self)@.counted + byte_len(s@) <= usize::MAX,
        ensures
            final(self)@ == old(self)@.write(s@),
            old(self)@.within_budget() ==> final(self)@.within_budget(),
    {
        proof {
            if self@.within_budget() {
                lemma_write_within_budget(self@, s@);
            }
        }
        let total: usize = s.as_bytes().len();
        let r = if self.n + total <= self.limit {
            proof {
                lemma_forwarded_whole_text(self@, s@);
            }
            hand_on(&mut *self.inner, &mut self.sent, s)
        } else {
            let room: usize = if self.n <= self.limit {
                self.limit - self.n
            } else {
                0
            };
            let k: usize = scan_longest_fit(s, room);
            hand_on(&mut *self.inner, &mut self.sent, prefix_to(s, k))
        };
        self.n += total;
        r
    }
}

/// A writer that hands on at most `limit` bytes to its destination and
/// finds the place to cut among the offsets at which characters start.
pub struct LimitedWriter2<'a, T: ?Sized + 'a> {
    inner: &'a mut T,
    limit: usize,
    n: usize,
    sent: Ghost<Seq<char>>,
}

impl<'a, T: ?Sized> View for LimitedWriter2<'a, T> {
    type V = SinkState;

    closed spec fn view(&self) -> SinkState {
        SinkState { limit: self.limit as nat, counted: self.n as nat, sent: self.sent@ }
    }
}

impl<'a, T> LimitedWriter2<'a, T> {
    /// A writer to `inner` that has handed on nothing yet.
    pub fn new(inner: &'a mut T, limit: usize) -> (w: Self)
        ensures
            w@ == SinkState::fresh(limit as nat),
            w@.within_budget(),
    {
        proof {
            lemma_fresh_within_budget(limit as nat);
        }
        Self { inner, limit, n: 0, sent: Ghost(Seq::empty()) }
    }

    /// The bytes of all texts written so far, handed on or not.
    pub fn num_bytes_would_written(&self) -> (n: usize)
        ensures
            n == self@.counted,
    {
        self.n
    }
}

impl<'a, T: core::fmt::Write + ?Sized> LimitedWriter2<'a, T> {
    /// Hands to the destination the longest prefix of `s` that ends on a
    /// character boundary and fits the room that is left, counts all of
    /// `s`, and returns what the destination answered.
    pub fn write_str(&mut self, s: &str) -> (r: Result<(), core::fmt::Error>)
        requires
            old(self)@.counted + byte_len(s@) <= usize::MAX,
        ensures
            final(self)@ == old(self)@.write(s@),
            old(self)@.within_budget() ==> final(self)@.within_budget(),
    {
        proof {
            if self@.within_budget() {
                lemma_write_within_budget(self@, s@);
            }
        }
        let total: usize = s.as_bytes().len();
        let r = if self.n + total <= self.limit {
            proof {
                lemma_forwarded_whole_text(self@, s@);
            }
            hand_on(&mut *self.inner, &mut self.sent, s)
        } else {
            let room: usize = if self.n <= self.limit {
                self.limit - self.n
            } else {
                0
            };
            let k: usize = walk_longest_fit(s, room);
            hand_on(&mut *self.inner, &mut self.sent, prefix_to(s, k))
        };
        self.n += total;
        r
    }
}

/// The two kinds of writer hand on the same text: where one of each kind
/// agree in limit, count and text handed on, they agree again after the
/// same text was written to both.
pub proof fn lemma_variants_agree<'a, 'b, T: ?Sized, U: ?Sized>(
    a: LimitedWriter<'a, T>,
    a_next: LimitedWriter<'a, T>,
    b: LimitedWriter2<'b, U>,
    b_next: LimitedWriter2<'b, U>,
    text: Seq<char>,
)
    requires
        a@ == b@,
        a_next@ == a@.write(text),
        b_next@ == b@.write(text),
    ensures
        a_next@ == b_next@,
        a_next@.sent == b_next@.sent,
{
}

/// The two kinds of writer hand on the same text over any run of writes:
/// where one of each kind were made with the same limit and the same texts
/// were written to both, one after the other, they agree in count and in
/// the text handed on.
pub proof fn lemma_variants_agree_over_writes<'a, 'b, T: ?Sized, U: ?Sized>(
    a: LimitedWriter<'a, T>,
    b: LimitedWriter2<'b, U>,
    limit: nat,
    texts: Seq<Seq<char>>,
)
    requires
        a@ == SinkState::fresh(limit).write_all(texts),
        b@ == SinkState::fresh(limit).write_all(texts),
    ensures
        a@.sent == b@.sent,
        a@.counted == b@.counted,
{
}

} // verus!
