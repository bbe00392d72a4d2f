//! Byte-oriented primitives on text: searching for a byte, cutting a byte
//! range out of a string, and splitting a string at a delimiter byte.

use vstd::prelude::*;
use vstd::string::StringSliceAdditionalSpecFns;
use vstd::utf8::*;
use crate::boundary::{
    lemma_boundaries_give_valid_range, lemma_cut_at_ascii_byte, lemma_cut_at_non_ascii_byte,
    lemma_valid_range_on_boundaries,
};
use crate::error::Error;

verus! {

/// The index of the first occurrence of `byte` in `bytes`, or `bytes.len()`
/// when `byte` does not occur.
pub open spec fn first_index_of(bytes: Seq<u8>, byte: u8) -> int
    decreases bytes.len(),
{
    if bytes.len() == 0 || bytes[0] == byte {
        0
    } else {
        1 + first_index_of(bytes.drop_first(), byte)
    }
}

/// `first_index_of` lies within the sequence, points at `byte` when it is
/// inside, and nothing before it equals `byte`.
pub proof fn lemma_first_index_of(bytes: Seq<u8>, byte: u8)
    ensures
        0 <= first_index_of(bytes, byte) <= bytes.len(),
        first_index_of(bytes, byte) < bytes.len() ==> bytes[first_index_of(bytes, byte)] == byte,
        forall|j: int| 0 <= j < first_index_of(bytes, byte) ==> bytes[j] != byte,
        first_index_of(bytes, byte) == bytes.len() <==> !bytes.contains(byte),
    decreases bytes.len(),
{
    if bytes.len() == 0 || bytes[0] == byte {
    } else {
        let rest = bytes.drop_first();
        lemma_first_index_of(rest, byte);
        let k = first_index_of(rest, byte);
        assert forall|j: int| 0 <= j < 1 + k implies bytes[j] != byte by {
            if j > 0 {
                assert(bytes[j] == rest[j - 1]);
            }
        }
        if k < rest.len() {
            assert(bytes[1 + k] == rest[k]);
        }
        if bytes.contains(byte) {
            let w = choose|w: int| 0 <= w < bytes.len() && bytes[w] == byte;
            assert(rest[w - 1] == byte);
        }
    }
}

/// Any position that holds `byte` and has no `byte` before it is the first
/// index of `byte`.
pub proof fn lemma_first_index_of_unique(bytes: Seq<u8>, byte: u8, i: int)
    requires
        0 <= i <= bytes.len(),
        i < bytes.len() ==> bytes[i] == byte,
        forall|j: int| 0 <= j < i ==> bytes[j] != byte,
    ensures
        first_index_of(bytes, byte) == i,
{
    lemma_first_index_of(bytes, byte);
}

/// Finds the first position of `byte` in `bytes`.
pub fn find_byte(bytes: &[u8], byte: u8) -> (found: Option<usize>)
    ensures
        match found {
            Some(i) => i < bytes@.len() && i == first_index_of(bytes@, byte),
            None => first_index_of(bytes@, byte) == bytes@.len(),
        },
        found is Some <==> bytes@.contains(byte),
{
    let mut i: usize = 0;
    while i < bytes.len()
        invariant
            i <= bytes@.len(),
            forall|j: int| 0 <= j < i ==> bytes@[j] != byte,
        decreases bytes@.len() - i,
    {
        if bytes[i] == byte {
            proof {
                lemma_first_index_of_unique(bytes@, byte, i as int);
                lemma_first_index_of(bytes@, byte);
            }
            return Some(i);
        }
        i += 1;
    }
    proof {
        lemma_first_index_of_unique(bytes@, byte, i as int);
        lemma_first_index_of(bytes@, byte);
    }
    None
}

/// Whether the byte range `start..end` of `bytes` can be cut out as text:
/// it lies within `bytes` and what it holds is valid UTF-8.
pub open spec fn sliceable(bytes: Seq<u8>, start: int, end: int) -> bool {
    0 <= start <= end <= bytes.len() && valid_utf8(bytes.subrange(start, end))
}

/// The verdict on a byte range of a text: `None` when it can be cut out,
/// else the reason why not.
pub open spec fn slice_error(bytes: Seq<u8>, start: int, end: int) -> Option<Error> {
    if !(0 <= start <= end <= bytes.len()) {
        Some(Error::InvalidRange)
    } else if !valid_utf8(bytes.subrange(start, end)) {
        Some(Error::InvalidUtf8)
    } else {
        None
    }
}

/// What `split_on` puts before the delimiter: everything before the first
/// `byte`, or all of `bytes` when there is none.
pub open spec fn head_of(bytes: Seq<u8>, byte: u8) -> Seq<u8> {
    bytes.subrange(0, first_index_of(bytes, byte))
}

/// What `split_on` puts after the delimiter: everything after the first
/// `byte`, or nothing when there is none.
pub open spec fn tail_of(bytes: Seq<u8>, byte: u8) -> Seq<u8> {
    if first_index_of(bytes, byte) < bytes.len() {
        bytes.subrange(first_index_of(bytes, byte) + 1, bytes.len() as int)
    } else {
        Seq::empty()
    }
}

/// The fields of a delimiter-separated text: what stands before, between
/// and after the occurrences of `byte`, in order. A text without `byte` is
/// one field, an empty text one empty field.
pub open spec fn fields(bytes: Seq<u8>, byte: u8) -> Seq<Seq<u8>>
    decreases bytes.len(),
    via fields_decreases
{
    if first_index_of(bytes, byte) < bytes.len() {
        seq![head_of(bytes, byte)] + fields(tail_of(bytes, byte), byte)
    } else {
        seq![bytes]
    }
}

#[via_fn]
proof fn fields_decreases(bytes: Seq<u8>, byte: u8) {
    lemma_first_index_of(bytes, byte);
}

/// Whether a text can be split at `byte` into two texts. An ASCII byte is a
/// whole character, so it always can; any other byte only where it does not
/// occur.
pub open spec fn splittable(bytes: Seq<u8>, byte: u8) -> bool {
    byte <= 0x7f || !bytes.contains(byte)
}

/// A text is empty exactly when its encoding is.
pub proof fn lemma_empty_encoding(chars: Seq<char>)
    ensures
        encode_utf8(chars).len() == 0 <==> chars.len() == 0,
{
    if chars.len() > 0 {
        assert(encode_scalar(chars[0] as u32).len() >= 1);
    }
}

/// The length of `s` in bytes.
pub fn byte_len(s: &str) -> (len: usize)
    ensures
        len == s.spec_bytes().len(),
{
    s.as_bytes().len()
}

/// The substring of `s` that holds the bytes `start..end`.
pub fn slice<'a>(s: &'a str, start: usize, end: usize) -> (part: &'a str)
    requires
        sliceable(s.spec_bytes(), start as int, end as int),
    ensures
        part.spec_bytes() == s.spec_bytes().subrange(start as int, end as int),
        part@ == decode_utf8(s.spec_bytes().subrange(start as int, end as int)),
{
    let part = if start == end {
        proof {
            reveal_strlit("");
            assert("".spec_bytes() =~= s.spec_bytes().subrange(start as int, end as int));
        }
        ""
    } else {
        proof {
            let bytes = s.spec_bytes();
            let front = bytes.subrange(0, end as int);
            encode_utf8_valid_utf8(s@);
            lemma_valid_range_on_boundaries(bytes, start as int, end as int);
            valid_utf8_split(bytes, end as int);
            assert(front.subrange(start as int, end as int) =~= bytes.subrange(
                start as int,
                end as int,
            ));
            lemma_valid_range_on_boundaries(front, start as int, end as int);
        }
        let (front, _) = s.split_at(end);
        let (_, part) = front.split_at(start);
        proof {
            assert(part.spec_bytes() =~= s.spec_bytes().subrange(start as int, end as int));
        }
        part
    };
    proof {
        encode_utf8_decode_utf8(part@);
    }
    part
}

/// The substring of `s` that holds the bytes `start..end`, or the reason why
/// there is none.
pub fn try_slice<'a>(s: &'a str, start: usize, end: usize) -> (outcome: Result<&'a str, Error>)
    ensures
        match outcome {
            Ok(part) => {
                &&& slice_error(s.spec_bytes(), start as int, end as int) is None
                &&& part.spec_bytes() == s.spec_bytes().subrange(start as int, end as int)
                &&& part@ == decode_utf8(s.spec_bytes().subrange(start as int, end as int))
            },
            Err(e) => slice_error(s.spec_bytes(), start as int, end as int) == Some(e),
        },
{
    if start > end || end > byte_len(s) {
        return Err(Error::InvalidRange);
    }
    proof {
        encode_utf8_valid_utf8(s@);
        lemma_sliceable_iff_on_boundaries(s.spec_bytes(), start as int, end as int);
    }
    if start == end || (s.is_char_boundary(start) && s.is_char_boundary(end)) {
        Ok(slice(s, start, end))
    } else {
        Err(Error::InvalidUtf8)
    }
}

/// Splits `s` at the first occurrence of `byte`: the text before it and the
/// text after it. Without an occurrence, all of `s` and the empty text.
pub fn split_on<'a>(s: &'a str, byte: u8) -> (parts: (&'a str, &'a str))
    requires
        splittable(s.spec_bytes(), byte),
    ensures
        parts.0.spec_bytes() == head_of(s.spec_bytes(), byte),
        parts.1.spec_bytes() == tail_of(s.spec_bytes(), byte),
        parts.0@ == decode_utf8(head_of(s.spec_bytes(), byte)),
        parts.1@ == decode_utf8(tail_of(s.spec_bytes(), byte)),
        !parts.0.spec_bytes().contains(byte),
        s.spec_bytes().contains(byte) ==> s.spec_bytes() == parts.0.spec_bytes() + seq![byte]
            + parts.1.spec_bytes(),
        !s.spec_bytes().contains(byte) ==> parts.0@ == s@ && parts.1@.len() == 0,
{
    proof {
        lemma_split_parts(s.spec_bytes(), byte);
        encode_utf8_valid_utf8(s@);
    }
    let len = byte_len(s);
    match find_byte(s.as_bytes(), byte) {
        Some(index) => {
            proof {
                lemma_cut_at_ascii_byte(s.spec_bytes(), index as int);
            }
            (slice(s, 0, index), slice(s, index + 1, len))
        },
        None => {
            proof {
                reveal_strlit("");
                assert("".spec_bytes() =~= Seq::<u8>::empty());
                assert(head_of(s.spec_bytes(), byte) =~= s.spec_bytes());
                encode_utf8_decode_utf8(s@);
                encode_utf8_decode_utf8(""@);
            }
            (s, "")
        },
    }
}

/// Splits `s` at the first occurrence of `byte` like `split_on`, or reports
/// that `byte` occurs in `s` as part of a longer character.
pub fn try_split_on<'a>(s: &'a str, byte: u8) -> (outcome: Result<(&'a str, &'a str), Error>)
    ensures
        match outcome {
            Ok(parts) => {
                &&& splittable(s.spec_bytes(), byte)
                &&& parts.0.spec_bytes() == head_of(s.spec_bytes(), byte)
                &&& parts.1.spec_bytes() == tail_of(s.spec_bytes(), byte)
                &&& parts.0@ == decode_utf8(head_of(s.spec_bytes(), byte))
                &&& parts.1@ == decode_utf8(tail_of(s.spec_bytes(), byte))
            },
            Err(e) => e == Error::InvalidUtf8 && !splittable(s.spec_bytes(), byte),
        },
{
    if byte > 0x7f && find_byte(s.as_bytes(), byte).is_some() {
        Err(Error::InvalidUtf8)
    } else {
        Ok(split_on(s, byte))
    }
}

/// The fields of `s` between the occurrences of `byte`, in order.
pub fn split_fields<'a>(s: &'a str, byte: u8) -> (parts: Vec<&'a str>)
    requires
        splittable(s.spec_bytes(), byte),
    ensures
        parts@.len() == fields(s.spec_bytes(), byte).len(),
        forall|i: int|
            0 <= i < parts@.len() ==> (#[trigger] parts@[i]).spec_bytes() == fields(
                s.spec_bytes(),
                byte,
            )[i],
        forall|i: int|
            0 <= i < parts@.len() ==> (#[trigger] parts@[i])@ == decode_utf8(
                fields(s.spec_bytes(), byte)[i],
            ),
{
    let mut parts: Vec<&'a str> = Vec::new();
    let mut rest: &'a str = s;
    let ghost all = fields(s.spec_bytes(), byte);
    loop
        invariant_except_break
            parts@.len() < all.len(),
            fields(rest.spec_bytes(), byte) == all.subrange(parts@.len() as int, all.len() as int),
        invariant
            all == fields(s.spec_bytes(), byte),
            splittable(rest.spec_bytes(), byte),
            forall|i: int| 0 <= i < parts@.len() ==> (#[trigger] parts@[i]).spec_bytes() == all[i],
            forall|i: int| 0 <= i < parts@.len() ==> (#[trigger] parts@[i])@ == decode_utf8(all[i]),
        ensures
            parts@.len() == all.len(),
            forall|i: int| 0 <= i < parts@.len() ==> (#[trigger] parts@[i]).spec_bytes() == all[i],
            forall|i: int| 0 <= i < parts@.len() ==> (#[trigger] parts@[i])@ == decode_utf8(all[i]),
        decreases rest.spec_bytes().len(),
    {
        let ghost left = fields(rest.spec_bytes(), byte);
        proof {
            lemma_first_index_of(rest.spec_bytes(), byte);
            lemma_split_parts(rest.spec_bytes(), byte);
            assert(left[0] == all[parts@.len() as int]);
            encode_utf8_decode_utf8(rest@);
        }
        if find_byte(rest.as_bytes(), byte).is_none() {
            proof {
                assert(left.len() == 1);
            }
            parts.push(rest);
            break ;
        }
        let (head, tail) = split_on(rest, byte);
        proof {
            assert(left.drop_first() =~= fields(tail.spec_bytes(), byte));
            assert(left.drop_first() =~= all.subrange(parts@.len() as int + 1, all.len() as int));
            assert(fields(tail.spec_bytes(), byte).len() >= 1);
            if byte > 0x7f {
                assert(!tail.spec_bytes().contains(byte));
            }
        }
        parts.push(head);
        rest = tail;
    }
    parts
}

/// The two parts of a split never hold more than the text did: the head is
/// free of the delimiter, and where the delimiter occurs, head, delimiter
/// and tail put together give the text back; where it does not, the head is
/// the text and the tail is empty.
pub proof fn lemma_split_parts(bytes: Seq<u8>, byte: u8)
    ensures
        !head_of(bytes, byte).contains(byte),
        bytes.contains(byte) ==> bytes == head_of(bytes, byte) + seq![byte] + tail_of(bytes, byte),
        !bytes.contains(byte) ==> head_of(bytes, byte) == bytes && tail_of(bytes, byte).len() == 0,
        head_of(bytes, byte).len() + tail_of(bytes, byte).len() <= bytes.len(),
        bytes.len() > 0 ==> tail_of(bytes, byte).len() < bytes.len(),
{
    lemma_first_index_of(bytes, byte);
    let index = first_index_of(bytes, byte);
    if index < bytes.len() {
        assert(bytes =~= head_of(bytes, byte) + seq![byte] + tail_of(bytes, byte));
    } else {
        assert(head_of(bytes, byte) =~= bytes);
    }
}

/// Splitting what was put together from a head without the delimiter, the
/// delimiter and a tail gives the head and the tail back.
pub proof fn lemma_split_of_concat(head: Seq<u8>, byte: u8, tail: Seq<u8>)
    requires
        !head.contains(byte),
    ensures
        head_of(head + seq![byte] + tail, byte) == head,
        tail_of(head + seq![byte] + tail, byte) == tail,
{
    let bytes = head + seq![byte] + tail;
    assert forall|j: int| 0 <= j < head.len() implies bytes[j] != byte by {
        assert(bytes[j] == head[j]);
    }
    lemma_first_index_of_unique(bytes, byte, head.len() as int);
    assert(head_of(bytes, byte) =~= head);
    assert(tail_of(bytes, byte) =~= tail);
}

/// A byte range of a text can be cut out exactly when it is empty or both
/// of its ends are character boundaries.
pub proof fn lemma_sliceable_iff_on_boundaries(bytes: Seq<u8>, start: int, end: int)
    requires
        valid_utf8(bytes),
        0 <= start <= end <= bytes.len(),
    ensures
        sliceable(bytes, start, end) <==> start == end || (is_char_boundary(bytes, start)
            && is_char_boundary(bytes, end)),
{
    if start < end && valid_utf8(bytes.subrange(start, end)) {
        lemma_valid_range_on_boundaries(bytes, start, end);
    }
    if is_char_boundary(bytes, start) && is_char_boundary(bytes, end) {
        lemma_boundaries_give_valid_range(bytes, start, end);
    }
}

/// A text can be split at `byte` exactly when what stands before the first
/// `byte` and what stands after it are both texts.
pub proof fn lemma_splittable_iff_parts_are_text(bytes: Seq<u8>, byte: u8)
    requires
        valid_utf8(bytes),
    ensures
        splittable(bytes, byte) <==> valid_utf8(head_of(bytes, byte)) && valid_utf8(
            tail_of(bytes, byte),
        ),
{
    lemma_first_index_of(bytes, byte);
    let index = first_index_of(bytes, byte);
    if index < bytes.len() {
        if byte <= 0x7f {
            lemma_cut_at_ascii_byte(bytes, index);
        } else {
            lemma_cut_at_non_ascii_byte(bytes, index);
        }
    } else {
        assert(head_of(bytes, byte) =~= bytes);
    }
}

/// Cutting a text at two character boundaries and putting the three pieces
/// together again gives the text back, byte for byte and character for
/// character; each piece can be cut out.
pub proof fn lemma_slices_reassemble(bytes: Seq<u8>, start: int, end: int)
    requires
        valid_utf8(bytes),
        0 <= start <= end <= bytes.len(),
        is_char_boundary(bytes, start),
        is_char_boundary(bytes, end),
    ensures
        sliceable(bytes, 0, start),
        sliceable(bytes, start, end),
        sliceable(bytes, end, bytes.len() as int),
        bytes.subrange(0, start) + bytes.subrange(start, end) + bytes.subrange(
            end,
            bytes.len() as int,
        ) == bytes,
        decode_utf8(bytes.subrange(0, start)) + decode_utf8(bytes.subrange(start, end))
            + decode_utf8(bytes.subrange(end, bytes.len() as int)) == decode_utf8(bytes),
{
    let len = bytes.len() as int;
    let front = bytes.subrange(0, end);
    is_char_boundary_start_end_of_seq(bytes);
    lemma_boundaries_give_valid_range(bytes, 0, start);
    lemma_boundaries_give_valid_range(bytes, start, end);
    lemma_boundaries_give_valid_range(bytes, end, len);
    assert(bytes.subrange(0, start) + bytes.subrange(start, end) + bytes.subrange(end, len)
        =~= bytes);
    decode_utf8_split(bytes, end);
    valid_utf8_split(bytes, end);
    if start < end {
        if start > 0 {
            assert(front[start] == bytes[start]);
            is_char_boundary_iff_not_is_continuation_byte(bytes, start);
            is_char_boundary_iff_not_is_continuation_byte(front, start);
        }
    } else {
        is_char_boundary_start_end_of_seq(front);
    }
    decode_utf8_split(front, start);
    assert(front.subrange(0, start) =~= bytes.subrange(0, start));
    assert(front.subrange(start, end) =~= bytes.subrange(start, end));
}

} // verus!
