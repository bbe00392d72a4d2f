//! Facts about UTF-8 validity of byte ranges cut out of valid UTF-8 text.
//!
//! Text is modelled by its UTF-8 encoding, a `Seq<u8>`. A byte range of a
//! text is itself text exactly when it is empty or both of its ends are
//! character boundaries.

use vstd::prelude::*;
use vstd::utf8::*;

verus! {

/// Text made of ASCII bytes alone is valid UTF-8.
pub proof fn lemma_ascii_is_valid(bytes: Seq<u8>)
    requires
        forall|i: int| 0 <= i < bytes.len() ==> #[trigger] bytes[i] <= 0x7f,
    ensures
        valid_utf8(bytes),
{
    assert(bytes.subrange(0, 0).len() == 0);
    partial_valid_utf8_extend_ascii_block(bytes, 0, bytes.len() as int);
    assert(bytes.subrange(0, bytes.len() as int) =~= bytes);
}

/// A valid prefix of valid UTF-8 ends on a character boundary.
pub proof fn lemma_valid_prefix_is_boundary(bytes: Seq<u8>, k: int)
    requires
        valid_utf8(bytes),
        0 <= k <= bytes.len(),
        valid_utf8(bytes.subrange(0, k)),
    ensures
        is_char_boundary(bytes, k),
    decreases bytes.len(),
{
    if k != 0 {
        let prefix = bytes.subrange(0, k);
        let width = length_of_first_scalar(bytes);
        assert(prefix[0] == bytes[0]);
        assert(valid_first_scalar(prefix));
        assert(length_of_first_scalar(prefix) == width);
        assert(width <= k);
        assert(pop_first_scalar(prefix) =~= pop_first_scalar(bytes).subrange(0, k - width));
        lemma_valid_prefix_is_boundary(pop_first_scalar(bytes), k - width);
    }
}

/// A non-empty byte range of valid UTF-8 that is itself valid UTF-8 starts
/// and ends on character boundaries.
pub proof fn lemma_valid_range_on_boundaries(bytes: Seq<u8>, start: int, end: int)
    requires
        valid_utf8(bytes),
        0 <= start < end <= bytes.len(),
        valid_utf8(bytes.subrange(start, end)),
    ensures
        is_char_boundary(bytes, start),
        is_char_boundary(bytes, end),
{
    let range = bytes.subrange(start, end);
    let suffix = bytes.subrange(start, bytes.len() as int);
    assert(valid_first_scalar(range));
    assert(range[0] == bytes[start]);
    is_char_boundary_iff_not_is_continuation_byte(bytes, start);
    valid_utf8_split(bytes, start);
    assert(suffix.subrange(0, end - start) =~= range);
    lemma_valid_prefix_is_boundary(suffix, end - start);
    if end < bytes.len() {
        assert(suffix[end - start] == bytes[end]);
        is_char_boundary_iff_not_is_continuation_byte(suffix, end - start);
        is_char_boundary_iff_not_is_continuation_byte(bytes, end);
    } else {
        is_char_boundary_start_end_of_seq(bytes);
    }
}

/// A byte range of valid UTF-8 between two character boundaries is valid
/// UTF-8.
pub proof fn lemma_boundaries_give_valid_range(bytes: Seq<u8>, start: int, end: int)
    requires
        valid_utf8(bytes),
        0 <= start <= end <= bytes.len(),
        is_char_boundary(bytes, start),
        is_char_boundary(bytes, end),
    ensures
        valid_utf8(bytes.subrange(start, end)),
{
    if start < end {
        let prefix = bytes.subrange(0, end);
        valid_utf8_split(bytes, end);
        if start > 0 {
            assert(prefix[start] == bytes[start]);
            is_char_boundary_iff_not_is_continuation_byte(bytes, start);
            is_char_boundary_iff_not_is_continuation_byte(prefix, start);
        }
        valid_utf8_split(prefix, start);
        assert(prefix.subrange(start, end) =~= bytes.subrange(start, end));
    }
}

/// Cutting valid UTF-8 around one ASCII byte leaves valid UTF-8 on both
/// sides.
pub proof fn lemma_cut_at_ascii_byte(bytes: Seq<u8>, i: int)
    requires
        valid_utf8(bytes),
        0 <= i < bytes.len(),
        bytes[i] <= 0x7f,
    ensures
        valid_utf8(bytes.subrange(0, i)),
        valid_utf8(bytes.subrange(i + 1, bytes.len() as int)),
{
    let suffix = bytes.subrange(i, bytes.len() as int);
    is_char_boundary_iff_not_is_continuation_byte(bytes, i);
    valid_utf8_split(bytes, i);
    assert(suffix[0] == bytes[i]);
    assert(pop_first_scalar(suffix) =~= bytes.subrange(i + 1, bytes.len() as int));
}

/// Cutting valid UTF-8 around a byte that is not ASCII never leaves valid
/// UTF-8 on both sides: such a byte is always part of a longer character.
pub proof fn lemma_cut_at_non_ascii_byte(bytes: Seq<u8>, i: int)
    requires
        valid_utf8(bytes),
        0 <= i < bytes.len(),
        bytes[i] > 0x7f,
    ensures
        !(valid_utf8(bytes.subrange(0, i)) && valid_utf8(bytes.subrange(i + 1, bytes.len() as int))),
{
    let head = bytes.subrange(0, i);
    let tail = bytes.subrange(i + 1, bytes.len() as int);
    if valid_utf8(head) && valid_utf8(tail) {
        let suffix = bytes.subrange(i, bytes.len() as int);
        lemma_valid_prefix_is_boundary(bytes, i);
        valid_utf8_split(bytes, i);
        assert(suffix[0] == bytes[i]);
        assert(valid_first_scalar(suffix));
        assert(suffix.len() >= 2);
        assert(is_continuation_byte(suffix[1]));
        assert(tail[0] == suffix[1]);
        assert(valid_first_scalar(tail));
        assert(false);
    }
}

} // verus!
