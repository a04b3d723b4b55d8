//! Where a UTF-8 text may be cut: character boundaries, and the longest
//! prefix of a text that fits a byte budget.

use vstd::prelude::*;
use vstd::utf8::*;
use vstd::string::*;
use vstd::pervasive::unreached;

verus! {

/// Bytes that are still free when `n` bytes were counted against `limit`.
pub open spec fn room_left(limit: nat, n: nat) -> nat {
    if n <= limit {
        (limit - n) as nat
    } else {
        0
    }
}

/// Number of bytes in the UTF-8 encoding of `text`.
pub open spec fn byte_len(text: Seq<char>) -> nat {
    encode_utf8(text).len()
}

/// The width that a leading byte announces for its character, 0 for a byte
/// that leads no character.
pub open spec fn leading_byte_width(b: u8) -> int {
    if is_leading_byte_width_1(b) {
        1
    } else if is_leading_byte_width_2(b) {
        2
    } else if is_leading_byte_width_3(b) {
        3
    } else if is_leading_byte_width_4(b) {
        4
    } else {
        0
    }
}

/// The high bits of a byte tell its width: `0` leads one byte, `110` two,
/// `1110` three, `11110` four, and any other pattern leads no character.
pub proof fn lemma_leading_byte_width_by_bits(b: u8)
    ensures
        leading_byte_width(b) == 1 <==> b & 0b1000_0000 == 0,
        leading_byte_width(b) == 2 <==> b & 0b1110_0000 == 0b1100_0000,
        leading_byte_width(b) == 3 <==> b & 0b1111_0000 == 0b1110_0000,
        leading_byte_width(b) == 4 <==> b & 0b1111_1000 == 0b1111_0000,
        leading_byte_width(b) == 0 <==> (b & 0b1100_0000 == 0b1000_0000 || b & 0b1111_1000
            == 0b1111_1000),
{
    utf8_byte_ranges_bitwise(b);
    assert(0xf8 <= b <==> b & 0xf8 == 0xf8) by (bit_vector);
}

/// `k` is a place where `bytes` may be cut without exceeding `room`.
pub open spec fn fits(bytes: Seq<u8>, room: nat, k: int) -> bool {
    0 <= k <= room && is_char_boundary(bytes, k)
}

/// `k` is the last place where `bytes` may be cut without exceeding `room`.
pub open spec fn is_longest_fit(bytes: Seq<u8>, room: nat, k: int) -> bool {
    fits(bytes, room, k) && forall|j: int| #[trigger] fits(bytes, room, j) ==> j <= k
}

/// The last place where `bytes` may be cut without exceeding `room`.
pub open spec fn longest_fit(bytes: Seq<u8>, room: nat) -> int {
    choose|k: int| is_longest_fit(bytes, room, k)
}

/// The longest prefix of `text` that ends on a character boundary and whose
/// encoding takes at most `room` bytes.
pub open spec fn fitting_prefix(text: Seq<char>, room: nat) -> Seq<char> {
    let bytes = encode_utf8(text);
    decode_utf8(bytes.subrange(0, longest_fit(bytes, room)))
}

/// A character that starts at a boundary `i` ends at the next boundary, and
/// its leading byte tells where that is.
pub proof fn lemma_next_boundary(bytes: Seq<u8>, i: int)
    requires
        valid_utf8(bytes),
        0 <= i < bytes.len(),
        is_char_boundary(bytes, i),
    ensures
        1 <= leading_byte_width(bytes[i]) <= 4,
        leading_byte_width(bytes[i]) == length_of_first_scalar(bytes.skip(i)),
        i + leading_byte_width(bytes[i]) <= bytes.len(),
        is_char_boundary(bytes, i + leading_byte_width(bytes[i])),
        forall|j: int| i < j < i + leading_byte_width(bytes[i]) ==> !is_char_boundary(bytes, j),
{
    broadcast use group_utf8_lib;

    let rest = bytes.skip(i);
    let w = leading_byte_width(bytes[i]);
    assert(rest =~= bytes.subrange(i, bytes.len() as int));
    assert(valid_utf8(rest));
    assert(valid_first_scalar(rest));
    assert(rest[0] == bytes[i]);
    assert(w == length_of_first_scalar(rest));
    assert forall|j: int| i < j < i + w implies !is_char_boundary(bytes, j) by {
        assert(bytes[j] == rest[j - i]);
        assert(is_continuation_byte(bytes[j]));
    }
    if i + w < bytes.len() {
        let tail = pop_first_scalar(rest);
        assert(valid_utf8(tail));
        assert(valid_first_scalar(tail));
        assert(tail[0] == bytes[i + w]);
        assert(!is_continuation_byte(bytes[i + w]));
    }
}

/// The number of bytes, 1 to 4, of the character of `s` that starts at byte
/// `i`, read from the high bits of its leading byte.
pub fn len_utf8_at(s: &str, i: usize) -> (len: usize)
    requires
        i < s.spec_bytes().len(),
        is_char_boundary(s.spec_bytes(), i as int),
    ensures
        1 <= len <= 4,
        len == leading_byte_width(s.spec_bytes()[i as int]),
        len == length_of_first_scalar(s.spec_bytes().skip(i as int)),
        i + len <= s.spec_bytes().len(),
        is_char_boundary(s.spec_bytes(), i + len),
        forall|j: int| i < j < i + len ==> !is_char_boundary(s.spec_bytes(), j),
{
    let b: u8 = s.as_bytes()[i];
    proof {
        broadcast use group_utf8_lib;

        lemma_next_boundary(s.spec_bytes(), i as int);
        utf8_byte_ranges_bitwise(b);
    }
    if b & 0b1000_0000 == 0 {
        1
    } else if b & 0b1110_0000u8 == 0b1100_0000u8 {
        2
    } else if b & 0b1111_0000u8 == 0b1110_0000u8 {
        3
    } else if b & 0b1111_1000u8 == 0b1111_0000u8 {
        4
    } else {
        unreached()
    }
}

/// Below any bound `m` from which on nothing fits, some place is the last
/// that fits.
proof fn lemma_longest_fit_below(bytes: Seq<u8>, room: nat, m: int)
    requires
        valid_utf8(bytes),
        0 <= m <= room,
        forall|j: int| m < j ==> !fits(bytes, room, j),
    ensures
        exists|k: int| is_longest_fit(bytes, room, k),
    decreases m,
{
    if fits(bytes, room, m) {
        assert(is_longest_fit(bytes, room, m));
    } else {
        assert(is_char_boundary(bytes, 0));
        lemma_longest_fit_below(bytes, room, m - 1);
    }
}

/// Every valid text has a last place to cut within any budget, and
/// `longest_fit` is that place and no other.
pub proof fn lemma_longest_fit(bytes: Seq<u8>, room: nat)
    requires
        valid_utf8(bytes),
    ensures
        is_longest_fit(bytes, room, longest_fit(bytes, room)),
        forall|k: int| is_longest_fit(bytes, room, k) ==> k == longest_fit(bytes, room),
{
    lemma_longest_fit_below(bytes, room, room as int);
}

/// A text whose encoding is within the budget fits whole.
pub proof fn lemma_whole_text_fits(text: Seq<char>, room: nat)
    requires
        byte_len(text) <= room,
    ensures
        longest_fit(encode_utf8(text), room) == byte_len(text),
        fitting_prefix(text, room) == text,
{
    broadcast use group_utf8_lib;

    let bytes = encode_utf8(text);
    assert(is_longest_fit(bytes, room, bytes.len() as int));
    lemma_longest_fit(bytes, room);
    assert(bytes.subrange(0, bytes.len() as int) =~= bytes);
}

/// The place where the longest prefix of `s` that fits `room` bytes ends,
/// found by stepping from one leading byte to the next.
pub fn scan_longest_fit(s: &str, room: usize) -> (k: usize)
    ensures
        k == longest_fit(s.spec_bytes(), room as nat),
        is_longest_fit(s.spec_bytes(), room as nat, k as int),
{
    let ghost bytes = s.spec_bytes();
    proof {
        broadcast use group_utf8_lib;

        assert(valid_utf8(bytes));
        assert(is_char_boundary(bytes, 0));
    }
    let total: usize = s.as_bytes().len();
    let mut i: usize = 0;
    while i < total
        invariant
            bytes == s.spec_bytes(),
            valid_utf8(bytes),
            total == bytes.len(),
            i <= total,
            i <= room,
            is_char_boundary(bytes, i as int),
        ensures
            i <= total,
            fits(bytes, room as nat, i as int),
            forall|j: int| i < j ==> !fits(bytes, room as nat, j),
        decreases total - i,
    {
        let len: usize = len_utf8_at(s, i);
        if len > room - i {
            break;
        }
        i += len;
    }
    proof {
        lemma_longest_fit(bytes, room as nat);
    }
    i
}

/// Encoding a text that is made of two parts gives the two encodings, one
/// after the other.
pub proof fn lemma_encode_concat(a: Seq<char>, b: Seq<char>)
    ensures
        encode_utf8(a + b) == encode_utf8(a) + encode_utf8(b),
    decreases a.len(),
{
    if a.len() == 0 {
        assert(a + b =~= b);
        assert(encode_utf8(a) + encode_utf8(b) =~= encode_utf8(b));
    } else {
        assert((a + b).drop_first() =~= a.drop_first() + b);
        lemma_encode_concat(a.drop_first(), b);
        assert(encode_utf8(a + b) =~= encode_utf8(a) + encode_utf8(b));
    }
}

/// A longer run of leading characters takes more bytes.
pub proof fn lemma_prefix_offsets_grow(text: Seq<char>, c1: int, c2: int)
    requires
        0 <= c1 <= c2 <= text.len(),
    ensures
        byte_len(text.take(c1)) <= byte_len(text.take(c2)),
        c1 < c2 ==> byte_len(text.take(c1)) < byte_len(text.take(c2)),
{
    let mid = text.subrange(c1, c2);
    assert(text.take(c2) =~= text.take(c1) + mid);
    lemma_encode_concat(text.take(c1), mid);
    if c1 < c2 {
        assert(encode_scalar(mid[0] as u32).len() >= 1);
        assert(encode_utf8(mid).len() >= 1);
    }
}

/// The encoding of a run of leading characters ends on a character
/// boundary of the whole encoding.
pub proof fn lemma_prefix_ends_on_boundary(text: Seq<char>, c: int)
    requires
        0 <= c <= text.len(),
    ensures
        byte_len(text.take(c)) <= byte_len(text),
        is_char_boundary(encode_utf8(text), byte_len(text.take(c)) as int),
{
    broadcast use group_utf8_lib;

    let bytes = encode_utf8(text);
    let head = encode_utf8(text.take(c));
    let tail = encode_utf8(text.skip(c));
    assert(text =~= text.take(c) + text.skip(c));
    lemma_encode_concat(text.take(c), text.skip(c));
    assert(bytes == head + tail);
    if tail.len() > 0 {
        assert(valid_utf8(tail));
        assert(valid_first_scalar(tail));
        assert(bytes[head.len() as int] == tail[0]);
        assert(!is_continuation_byte(tail[0]));
    }
}

/// A character boundary of an encoded text is where the encoding of a run
/// of its leading characters ends, and the bytes before it decode to that
/// run.
pub proof fn lemma_boundary_ends_prefix(text: Seq<char>, j: int) -> (c: int)
    requires
        is_char_boundary(encode_utf8(text), j),
    ensures
        0 <= c <= text.len(),
        j == byte_len(text.take(c)),
        decode_utf8(encode_utf8(text).subrange(0, j)) == text.take(c),
{
    broadcast use group_utf8_lib;

    let bytes = encode_utf8(text);
    let head = decode_utf8(bytes.subrange(0, j));
    let tail = decode_utf8(bytes.subrange(j, bytes.len() as int));
    assert(0 <= j <= bytes.len());
    assert(decode_utf8(bytes) == text);
    assert(text =~= head + tail);
    assert(head =~= text.take(head.len() as int));
    assert(encode_utf8(head) == bytes.subrange(0, j));
    head.len() as int
}

/// `str::char_indices`: the byte offset at which each character of `s`
/// starts, in the order of the characters. A character starts where the
/// encoding of the characters before it ends.
#[verifier::external_body]
fn char_starts(s: &str) -> (starts: Vec<usize>)
    ensures
        starts@.len() == s@.len(),
        forall|c: int| 0 <= c < s@.len() ==> #[trigger] starts@[c] == byte_len(s@.take(c)),
{
    s.char_indices().map(|(j, _)| j).collect()
}

/// The place where the longest prefix of `s` that fits `room` bytes ends,
/// found among the offsets at which the characters of `s` start.
pub fn walk_longest_fit(s: &str, room: usize) -> (k: usize)
    ensures
        k == longest_fit(s.spec_bytes(), room as nat),
        is_longest_fit(s.spec_bytes(), room as nat, k as int),
{
    let ghost text = s@;
    let ghost bytes = s.spec_bytes();
    let total: usize = s.as_bytes().len();
    proof {
        broadcast use group_utf8_lib;

        lemma_longest_fit(bytes, room as nat);
    }
    if total <= room {
        proof {
            lemma_whole_text_fits(text, room as nat);
        }
        return total;
    }
    let starts = char_starts(s);
    let mut i: usize = 0;
    let mut c: usize = 0;
    while c < starts.len()
        invariant
            starts@.len() == text.len(),
            forall|d: int| 0 <= d < text.len() ==> #[trigger] starts@[d] == byte_len(text.take(d)),
            c <= starts@.len(),
            i <= room,
            c == 0 ==> i == 0,
            c > 0 ==> i == starts@[c - 1],
        ensures
            c <= starts@.len(),
            i <= room,
            c == 0 ==> i == 0,
            c > 0 ==> i == starts@[c - 1],
            c < starts@.len() ==> starts@[c as int] > room,
        decreases starts@.len() - c,
    {
        let j: usize = starts[c];
        if j > room {
            break;
        }
        i = j;
        c += 1;
    }
    proof {
        assert(text.take(0) =~= Seq::<char>::empty());
        assert(text.take(text.len() as int) =~= text);
        assert(c > 0) by {
            if c == 0 {
                if text.len() > 0 {
                    assert(starts@[0] == byte_len(text.take(0)));
                }
            }
        }
        lemma_prefix_ends_on_boundary(text, c - 1);
        assert forall|j: int| #[trigger] fits(bytes, room as nat, j) implies j <= i by {
            let d = lemma_boundary_ends_prefix(text, j);
            if d >= c {
                lemma_prefix_offsets_grow(text, c as int, d);
            } else {
                lemma_prefix_offsets_grow(text, d, c - 1);
            }
        }
        assert(is_longest_fit(bytes, room as nat, i as int));
    }
    i
}

/// The part of `s` before the character boundary `k`.
pub fn prefix_to(s: &str, k: usize) -> (head: &str)
    requires
        is_char_boundary(s.spec_bytes(), k as int),
    ensures
        head@ == decode_utf8(s.spec_bytes().subrange(0, k as int)),
        head.spec_bytes() == s.spec_bytes().subrange(0, k as int),
{
    broadcast use group_utf8_lib;

    let (head, _) = s.split_at(k);
    head
}

} // verus!
