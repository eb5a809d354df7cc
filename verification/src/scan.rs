//! Scanning UTF-8 text one code point at a time.
//!
//! The engines walk a subject by byte offsets. These helpers decode the code
//! point that starts at an offset, tell how many bytes it takes, and find the
//! code point that ends at an offset.

use vstd::prelude::*;
use vstd::utf8::*;
use crate::util::Char;

verus! {

/// The bytes of `bytes` from `pos` to the end.
pub open spec fn suffix(bytes: Seq<u8>, pos: int) -> Seq<u8> {
    bytes.subrange(pos, bytes.len() as int)
}

/// The code point whose encoding starts at `pos`.
pub open spec fn char_at(bytes: Seq<u8>, pos: int) -> Char {
    Char(decode_first_scalar(suffix(bytes, pos)))
}

/// The number of bytes that the code point starting at `pos` takes.
pub open spec fn width_at(bytes: Seq<u8>, pos: int) -> int {
    length_of_first_scalar(suffix(bytes, pos))
}

/// True when a well-formed encoding of one code point starts at `pos`.
pub open spec fn scalar_at(bytes: Seq<u8>, pos: int) -> bool {
    0 <= pos < bytes.len() && valid_first_scalar(suffix(bytes, pos))
}

/// The character seen at `pos`: the code point that starts there, or the
/// sentinel at the end of the text.
pub open spec fn char_or_bound(bytes: Seq<u8>, pos: int) -> Char {
    if pos >= bytes.len() {
        Char::spec_input_bound()
    } else {
        char_at(bytes, pos)
    }
}

/// The closest character boundary at or before `k`.
pub open spec fn boundary_at_or_before(bytes: Seq<u8>, k: int) -> int
    decreases k,
{
    if k <= 0 || is_char_boundary(bytes, k) {
        k
    } else {
        boundary_at_or_before(bytes, k - 1)
    }
}

/// The character that ends at `to`: the sentinel at the start of the text,
/// else the code point that starts at the closest boundary before `to`.
pub open spec fn prev_char(bytes: Seq<u8>, to: int) -> Char {
    if to <= 0 {
        Char::spec_input_bound()
    } else {
        char_at(bytes, boundary_at_or_before(bytes, to - 1))
    }
}

/// At a character boundary before the end of valid UTF-8 text a code point
/// starts, and the offset just after it is again a character boundary.
pub proof fn lemma_boundary_step(bytes: Seq<u8>, pos: int)
    requires
        valid_utf8(bytes),
        is_char_boundary(bytes, pos),
        0 <= pos < bytes.len(),
    ensures
        scalar_at(bytes, pos),
        1 <= width_at(bytes, pos) <= 4,
        pos + width_at(bytes, pos) <= bytes.len(),
        is_char_boundary(bytes, pos + width_at(bytes, pos)),
    decreases bytes.len(),
{
    let w0 = length_of_first_scalar(bytes);
    let rest = pop_first_scalar(bytes);
    if pos == 0 {
        assert(suffix(bytes, 0) =~= bytes);
        assert(valid_utf8(rest));
        assert(is_char_boundary(rest, 0));
        assert(is_char_boundary(bytes, w0));
    } else {
        assert(is_char_boundary(rest, pos - w0));
        if pos - w0 < 0 {
            assert(false);
        }
        lemma_boundary_step(rest, pos - w0);
        assert(suffix(rest, pos - w0) =~= suffix(bytes, pos));
        let w = width_at(bytes, pos);
        assert(is_char_boundary(rest, pos - w0 + w));
        assert(is_char_boundary(bytes, pos + w));
    }
}

/// No character boundary lies strictly inside the encoding of a code point.
pub proof fn lemma_boundary_gap(bytes: Seq<u8>, pos: int, other: int)
    requires
        valid_utf8(bytes),
        is_char_boundary(bytes, pos),
        is_char_boundary(bytes, other),
        0 <= pos < other,
    ensures
        pos + width_at(bytes, pos) <= other,
{
    if other > bytes.len() {
        assert(!is_char_boundary(bytes, other));
    }
    lemma_boundary_step(bytes, pos);
    let s = suffix(bytes, pos);
    let w = width_at(bytes, pos);
    if other < pos + w {
        let k = other - pos;
        assert(1 <= k < w);
        assert(s[k] == bytes[other]);
        assert(is_continuation_byte(s[k]));
        is_char_boundary_iff_not_is_continuation_byte(bytes, other);
    }
}

/// Before a character boundary behind the start of valid UTF-8 text lies
/// the boundary at which the code point that ends there starts.
pub proof fn lemma_prev_boundary(bytes: Seq<u8>, to: int)
    requires
        valid_utf8(bytes),
        is_char_boundary(bytes, to),
        0 < to,
    ensures
        0 <= boundary_at_or_before(bytes, to - 1) < to,
        is_char_boundary(bytes, boundary_at_or_before(bytes, to - 1)),
        boundary_at_or_before(bytes, to - 1) + width_at(bytes, boundary_at_or_before(bytes, to - 1)) == to,
{
    is_char_boundary_start_end_of_seq(bytes);
    lemma_scan_back(bytes, to - 1);
    let from = boundary_at_or_before(bytes, to - 1);
    if to > bytes.len() {
        assert(!is_char_boundary(bytes, to));
    }
    lemma_boundary_step(bytes, from);
    lemma_boundary_gap(bytes, from, to);
    let next = from + width_at(bytes, from);
    if next < to {
        lemma_scan_back_skips(bytes, to - 1, next);
    }
}

/// Scanning back from `k` ends at a character boundary that is at most `k`.
pub proof fn lemma_scan_back(bytes: Seq<u8>, k: int)
    requires
        is_char_boundary(bytes, 0),
        0 <= k,
    ensures
        0 <= boundary_at_or_before(bytes, k) <= k,
        is_char_boundary(bytes, boundary_at_or_before(bytes, k)),
    decreases k,
{
    if k > 0 && !is_char_boundary(bytes, k) {
        lemma_scan_back(bytes, k - 1);
    }
}

/// Scanning back from `k` does not pass a character boundary.
pub proof fn lemma_scan_back_skips(bytes: Seq<u8>, k: int, boundary: int)
    requires
        is_char_boundary(bytes, boundary),
        0 <= boundary <= k,
    ensures
        boundary <= boundary_at_or_before(bytes, k),
    decreases k,
{
    if k > 0 && !is_char_boundary(bytes, k) {
        lemma_scan_back_skips(bytes, k - 1, boundary);
    }
}

/// Decodes the code point whose encoding starts at `pos`, and the number of
/// bytes it takes. Returns `None` when no well-formed encoding starts there.
pub fn decode_scalar(bytes: &[u8], pos: usize) -> (r: Option<(Char, usize)>)
    requires
        pos < bytes@.len(),
    ensures
        r is Some <==> scalar_at(bytes@, pos as int),
        r matches Some((c, w)) ==> {
            &&& c == char_at(bytes@, pos as int)
            &&& w == width_at(bytes@, pos as int)
            &&& 1 <= w <= 4
            &&& pos + w <= bytes@.len()
            &&& c.0 <= 0x10FFFF
        },
{
    let ghost s = suffix(bytes@, pos as int);
    let len = bytes.len();
    let b0 = bytes[pos];
    assert(s[0] == b0);
    assert(s.len() == len - pos);
    if b0 <= 0x7f {
        assert((b0 & 0x7f) as u32 <= 0x7f) by (bit_vector);
        Some((Char((b0 & 0x7f) as u32), 1))
    } else if 0xc0 <= b0 && b0 <= 0xdf {
        if len - pos < 2 {
            return None;
        }
        let b1 = bytes[pos + 1];
        assert(s[1] == b1);
        if !(0x80 <= b1 && b1 <= 0xbf) {
            return None;
        }
        let cp: u32 = (((b0 & 0x1f) as u32) << 6) | ((b1 & 0x3f) as u32);
        assert(cp <= 0x7ff) by (bit_vector)
            requires
                cp == (((b0 & 0x1f) as u32) << 6) | ((b1 & 0x3f) as u32),
        ;
        if cp < 0x80 {
            return None;
        }
        Some((Char(cp), 2))
    } else if 0xe0 <= b0 && b0 <= 0xef {
        if len - pos < 3 {
            return None;
        }
        let b1 = bytes[pos + 1];
        let b2 = bytes[pos + 2];
        assert(s[1] == b1 && s[2] == b2);
        if !(0x80 <= b1 && b1 <= 0xbf) || !(0x80 <= b2 && b2 <= 0xbf) {
            return None;
        }
        let cp: u32 = (((b0 & 0x0f) as u32) << 12) | (((b1 & 0x3f) as u32) << 6) | ((b2
            & 0x3f) as u32);
        assert(cp <= 0xffff) by (bit_vector)
            requires
                cp == (((b0 & 0x0f) as u32) << 12) | (((b1 & 0x3f) as u32) << 6) | ((b2
                    & 0x3f) as u32),
        ;
        if cp < 0x800 || (0xD800 <= cp && cp <= 0xDFFF) {
            return None;
        }
        Some((Char(cp), 3))
    } else if 0xf0 <= b0 && b0 <= 0xf7 {
        if len - pos < 4 {
            return None;
        }
        let b1 = bytes[pos + 1];
        let b2 = bytes[pos + 2];
        let b3 = bytes[pos + 3];
        assert(s[1] == b1 && s[2] == b2 && s[3] == b3);
        if !(0x80 <= b1 && b1 <= 0xbf) || !(0x80 <= b2 && b2 <= 0xbf) || !(0x80 <= b3 && b3
            <= 0xbf) {
            return None;
        }
        let cp: u32 = (((b0 & 0x07) as u32) << 18) | (((b1 & 0x3f) as u32) << 12) | (((b2
            & 0x3f) as u32) << 6) | ((b3 & 0x3f) as u32);
        if cp < 0x10000 || cp > 0x10ffff {
            return None;
        }
        Some((Char(cp), 4))
    } else {
        None
    }
}

/// Decodes the code point whose encoding starts at `pos`, and the number of
/// bytes it takes, where a well-formed encoding is known to start there.
pub fn decode_char(bytes: &[u8], pos: usize) -> (r: (Char, usize))
    requires
        scalar_at(bytes@, pos as int),
    ensures
        r.0 == char_at(bytes@, pos as int),
        r.1 == width_at(bytes@, pos as int),
        1 <= r.1 <= 4,
        pos + r.1 <= bytes@.len(),
        r.0.0 <= 0x10FFFF,
{
    let ghost s = suffix(bytes@, pos as int);
    let b0 = bytes[pos];
    assert(s[0] == b0);
    assert(s.len() == bytes@.len() - pos);
    if b0 < 0x80 {
        assert((b0 & 0x7f) as u32 <= 0x7f) by (bit_vector);
        (Char((b0 & 0x7f) as u32), 1)
    } else if b0 < 0xE0 {
        let b1 = bytes[pos + 1];
        assert(s[1] == b1);
        let cp: u32 = (((b0 & 0x1f) as u32) << 6) | ((b1 & 0x3f) as u32);
        assert(cp <= 0x7ff) by (bit_vector)
            requires
                cp == (((b0 & 0x1f) as u32) << 6) | ((b1 & 0x3f) as u32),
        ;
        (Char(cp), 2)
    } else if b0 < 0xF0 {
        let b1 = bytes[pos + 1];
        let b2 = bytes[pos + 2];
        assert(s[1] == b1 && s[2] == b2);
        let cp: u32 = (((b0 & 0x0f) as u32) << 12) | (((b1 & 0x3f) as u32) << 6) | ((b2
            & 0x3f) as u32);
        assert(cp <= 0xffff) by (bit_vector)
            requires
                cp == (((b0 & 0x0f) as u32) << 12) | (((b1 & 0x3f) as u32) << 6) | ((b2
                    & 0x3f) as u32),
        ;
        (Char(cp), 3)
    } else {
        let b1 = bytes[pos + 1];
        let b2 = bytes[pos + 2];
        let b3 = bytes[pos + 3];
        assert(s[1] == b1 && s[2] == b2 && s[3] == b3);
        let cp: u32 = (((b0 & 0x07) as u32) << 18) | (((b1 & 0x3f) as u32) << 12) | (((b2
            & 0x3f) as u32) << 6) | ((b3 & 0x3f) as u32);
        assert(cp == decode_first_scalar(s));
        (Char(cp), 4)
    }
}

} // verus!
