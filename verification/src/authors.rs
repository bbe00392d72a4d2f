//! The author list of a package: a text whose entries are separated by one
//! delimiter byte. Empty entries are skipped.

use vstd::prelude::*;
use vstd::string::StringSliceAdditionalSpecFns;
use vstd::utf8::*;
use crate::buffer::{append_bytes, text_from_utf8};
use crate::error::Error;
use crate::str::{
    byte_len, fields, first_index_of, head_of, lemma_empty_encoding, lemma_first_index_of,
    lemma_first_index_of_unique, lemma_split_parts, split_on, tail_of,
};

verus! {

/// The byte that separates the names in an author list: a colon.
pub const SEP: u8 = 0x3a;

/// The entries of a delimiter-separated list: what stands between the
/// delimiters, in order, without what is empty.
pub open spec fn entries(bytes: Seq<u8>, sep: u8) -> Seq<Seq<u8>>
    decreases bytes.len(),
    via entries_decreases
{
    if bytes.len() == 0 {
        Seq::empty()
    } else if head_of(bytes, sep).len() == 0 {
        entries(tail_of(bytes, sep), sep)
    } else {
        seq![head_of(bytes, sep)] + entries(tail_of(bytes, sep), sep)
    }
}

#[via_fn]
proof fn entries_decreases(bytes: Seq<u8>, sep: u8) {
    lemma_split_parts(bytes, sep);
}

/// The encodings of a sequence of texts.
pub open spec fn encodings(texts: Seq<&str>) -> Seq<Seq<u8>> {
    texts.map_values(|text: &str| text.spec_bytes())
}

/// Whether none of the texts is empty.
pub open spec fn all_filled(texts: Seq<&str>) -> bool {
    forall|i: int| 0 <= i < texts.len() ==> (#[trigger] texts[i])@.len() > 0
}

/// Texts whose encodings are the entries of a list are not empty.
pub proof fn lemma_entries_are_filled(texts: Seq<&str>, bytes: Seq<u8>, sep: u8)
    requires
        encodings(texts) == entries(bytes, sep),
    ensures
        all_filled(texts),
{
    lemma_entries(bytes, sep);
    assert forall|i: int| 0 <= i < texts.len() implies (#[trigger] texts[i])@.len() > 0 by {
        assert(encodings(texts)[i] == texts[i].spec_bytes());
        lemma_empty_encoding(texts[i]@);
    }
}

/// No entry is empty, no entry holds the delimiter, and a list has no more
/// entries than bytes.
pub proof fn lemma_entries(bytes: Seq<u8>, sep: u8)
    ensures
        entries(bytes, sep).len() <= bytes.len(),
        forall|i: int|
            0 <= i < entries(bytes, sep).len() ==> (#[trigger] entries(bytes, sep)[i]).len() > 0,
        forall|i: int|
            0 <= i < entries(bytes, sep).len() ==> !(#[trigger] entries(bytes, sep)[i]).contains(
                sep,
            ),
    decreases bytes.len(),
{
    if bytes.len() > 0 {
        lemma_split_parts(bytes, sep);
        lemma_entries(tail_of(bytes, sep), sep);
    }
}

/// The entries of a list are its fields that are not empty.
pub proof fn lemma_entries_are_filled_fields(bytes: Seq<u8>, sep: u8)
    ensures
        entries(bytes, sep) == fields(bytes, sep).filter(|field: Seq<u8>| field.len() > 0),
    decreases bytes.len(),
{
    let filled = |field: Seq<u8>| field.len() > 0;
    let head = head_of(bytes, sep);
    let tail = tail_of(bytes, sep);
    reveal_with_fuel(Seq::filter, 2);
    lemma_first_index_of(bytes, sep);
    lemma_split_parts(bytes, sep);
    assert(seq![head].drop_last() =~= Seq::<Seq<u8>>::empty());
    assert(seq![head].filter(filled) =~= if head.len() > 0 {
        seq![head]
    } else {
        Seq::empty()
    });
    if first_index_of(bytes, sep) < bytes.len() {
        lemma_entries_are_filled_fields(tail, sep);
        Seq::filter_distributes_over_add(seq![head], fields(tail, sep), filled);
        assert(entries(bytes, sep) =~= fields(bytes, sep).filter(filled));
    } else {
        assert(head =~= bytes);
        if bytes.len() > 0 {
            assert(entries(tail, sep) =~= Seq::<Seq<u8>>::empty());
        }
        assert(entries(bytes, sep) =~= fields(bytes, sep).filter(filled));
    }
}

/// The entries of a list put together again, with `sep` between each two.
pub open spec fn joined(parts: Seq<Seq<u8>>, sep: Seq<u8>) -> Seq<u8>
    decreases parts.len(),
{
    if parts.len() == 0 {
        Seq::empty()
    } else if parts.len() == 1 {
        parts[0]
    } else {
        joined(parts.drop_last(), sep) + sep + parts.last()
    }
}

/// The sum of the lengths of the entries.
pub open spec fn total_len(parts: Seq<Seq<u8>>) -> nat
    decreases parts.len(),
{
    if parts.len() == 0 {
        0
    } else {
        total_len(parts.drop_last()) + parts.last().len()
    }
}

/// The length of the entries joined with a separator of `sep_len` bytes:
/// the lengths of the entries, and one separator less than there are
/// entries.
pub open spec fn joined_len(parts: Seq<Seq<u8>>, sep_len: nat) -> nat {
    if parts.len() >= 2 {
        total_len(parts) + sep_len * (parts.len() - 1) as nat
    } else {
        total_len(parts)
    }
}

/// How the joined length grows by one more entry: by the entry, and by a
/// separator where it is not the first.
pub proof fn lemma_joined_len_push(parts: Seq<Seq<u8>>, part: Seq<u8>, sep_len: nat)
    ensures
        joined_len(parts.push(part), sep_len) == joined_len(parts, sep_len) + part.len() + (
        if parts.len() > 0 {
            sep_len
        } else {
            0
        }),
{
    let n = parts.len();
    assert(parts.push(part).drop_last() =~= parts);
    if n >= 2 {
        assert(sep_len * n == sep_len * ((n - 1) as nat) + sep_len) by (nonlinear_arith)
            requires
                n >= 1,
        ;
    } else if n == 1 {
        assert(sep_len * 1 == sep_len) by (nonlinear_arith);
    }
}

/// The joined length of the first entries of a list is no more than that of
/// the whole list.
pub proof fn lemma_joined_len_prefix(parts: Seq<Seq<u8>>, k: int, sep_len: nat)
    requires
        0 <= k <= parts.len(),
    ensures
        joined_len(parts.take(k), sep_len) <= joined_len(parts, sep_len),
    decreases parts.len() - k,
{
    if k < parts.len() {
        lemma_joined_len_push(parts.take(k), parts[k], sep_len);
        assert(parts.take(k).push(parts[k]) =~= parts.take(k + 1));
        lemma_joined_len_prefix(parts, k + 1, sep_len);
    } else {
        assert(parts.take(k) =~= parts);
    }
}

/// The entries joined have the joined length.
pub proof fn lemma_joined_has_joined_len(parts: Seq<Seq<u8>>, sep: Seq<u8>)
    ensures
        joined(parts, sep).len() == joined_len(parts, sep.len()),
    decreases parts.len(),
{
    if parts.len() >= 2 {
        lemma_joined_has_joined_len(parts.drop_last(), sep);
        lemma_joined_len_push(parts.drop_last(), parts.last(), sep.len());
        assert(parts.drop_last().push(parts.last()) =~= parts);
    } else if parts.len() == 1 {
        assert(parts.drop_last().len() == 0);
        assert(total_len(parts.drop_last()) == 0);
    }
}

/// How the joined entries grow by one more entry.
pub proof fn lemma_joined_push(parts: Seq<Seq<u8>>, part: Seq<u8>, sep: Seq<u8>)
    ensures
        joined(parts.push(part), sep) == if parts.len() > 0 {
            joined(parts, sep) + sep + part
        } else {
            part
        },
{
    assert(parts.push(part).drop_last() =~= parts);
}

/// Texts joined with a text between them are text.
pub proof fn lemma_joined_valid(parts: Seq<Seq<u8>>, sep: Seq<u8>)
    requires
        valid_utf8(sep),
        forall|i: int| 0 <= i < parts.len() ==> valid_utf8(#[trigger] parts[i]),
    ensures
        valid_utf8(joined(parts, sep)),
    decreases parts.len(),
{
    if parts.len() >= 2 {
        lemma_joined_valid(parts.drop_last(), sep);
        valid_utf8_concat(joined(parts.drop_last(), sep), sep);
        valid_utf8_concat(joined(parts.drop_last(), sep) + sep, parts.last());
    }
}

/// The entries joined, seen from the front: the first entry, a separator,
/// and the other entries joined.
pub proof fn lemma_joined_front(parts: Seq<Seq<u8>>, sep: Seq<u8>)
    requires
        parts.len() >= 2,
    ensures
        joined(parts, sep) == parts[0] + sep + joined(parts.drop_first(), sep),
    decreases parts.len(),
{
    if parts.len() == 2 {
        assert(parts.drop_last().len() == 1);
        assert(parts.drop_first().len() == 1);
        assert(joined(parts.drop_last(), sep) == parts[0]);
        assert(joined(parts.drop_first(), sep) == parts[1]);
    } else {
        lemma_joined_front(parts.drop_last(), sep);
        assert(parts.drop_last().drop_first() =~= parts.drop_first().drop_last());
        assert(joined(parts, sep) =~= parts[0] + sep + joined(parts.drop_first(), sep));
    }
}

/// Joining entries with a delimiter byte and splitting the result at that
/// byte gives the entries back, where no entry is empty and none holds the
/// delimiter.
pub proof fn lemma_join_then_split(parts: Seq<Seq<u8>>, sep: u8)
    requires
        forall|i: int| 0 <= i < parts.len() ==> (#[trigger] parts[i]).len() > 0,
        forall|i: int| 0 <= i < parts.len() ==> !(#[trigger] parts[i]).contains(sep),
    ensures
        entries(joined(parts, seq![sep]), sep) == parts,
    decreases parts.len(),
{
    let bytes = joined(parts, seq![sep]);
    if parts.len() == 0 {
        assert(entries(bytes, sep) =~= parts);
    } else if parts.len() == 1 {
        lemma_first_index_of(bytes, sep);
        assert(head_of(bytes, sep) =~= parts[0]);
        assert(tail_of(bytes, sep).len() == 0);
        assert(entries(tail_of(bytes, sep), sep).len() == 0);
        assert(entries(bytes, sep) =~= parts);
    } else {
        let rest = parts.drop_first();
        lemma_joined_front(parts, seq![sep]);
        assert(bytes == parts[0] + seq![sep] + joined(rest, seq![sep]));
        assert forall|j: int| 0 <= j < parts[0].len() implies bytes[j] != sep by {
            assert(bytes[j] == parts[0][j]);
        }
        lemma_first_index_of_unique(bytes, sep, parts[0].len() as int);
        assert(head_of(bytes, sep) =~= parts[0]);
        assert(tail_of(bytes, sep) =~= joined(rest, seq![sep]));
        assert forall|i: int| 0 <= i < rest.len() implies (#[trigger] rest[i]).len() > 0
            && !rest[i].contains(sep) by {
            assert(rest[i] == parts[i + 1]);
        }
        lemma_join_then_split(rest, sep);
        assert(entries(bytes, sep) =~= parts);
    }
}

/// The authors of any author list, joined with the delimiter and split
/// again, are the same authors.
pub proof fn lemma_authors_round_trip(bytes: Seq<u8>, sep: u8)
    ensures
        entries(joined(entries(bytes, sep), seq![sep]), sep) == entries(bytes, sep),
{
    lemma_entries(bytes, sep);
    lemma_join_then_split(entries(bytes, sep), sep);
}

/// What is left of an author list while its entries are taken out one by
/// one.
pub struct IterAuthors<'a>(pub &'a str);

impl<'a> IterAuthors<'a> {
    /// The entries that are still to come.
    pub open spec fn remaining(self) -> Seq<Seq<u8>> {
        entries(self.0.spec_bytes(), SEP)
    }

    /// The next entry and what is left after it, or `None` when no entry is
    /// left.
    pub fn next(self) -> (step: Option<(&'a str, IterAuthors<'a>)>)
        ensures
            match step {
                Some((author, rest)) => {
                    &&& self.remaining().len() > 0
                    &&& author.spec_bytes() == self.remaining()[0]
                    &&& author@ == decode_utf8(self.remaining()[0])
                    &&& rest.remaining() == self.remaining().drop_first()
                    &&& rest.0.spec_bytes().len() < self.0.spec_bytes().len()
                },
                None => self.remaining().len() == 0,
            },
    {
        let mut text = self.0;
        while !text.is_empty()
            invariant
                entries(text.spec_bytes(), SEP) == self.remaining(),
                text.spec_bytes().len() <= self.0.spec_bytes().len(),
            decreases text.spec_bytes().len(),
        {
            proof {
                lemma_empty_encoding(text@);
                lemma_split_parts(text.spec_bytes(), SEP);
            }
            let (author, remaining) = split_on(text, SEP);
            proof {
                lemma_empty_encoding(author@);
            }
            if !author.is_empty() {
                proof {
                    assert(self.remaining().drop_first() =~= entries(remaining.spec_bytes(), SEP));
                }
                return Some((author, IterAuthors(remaining)));
            }
            text = remaining;
        }
        proof {
            lemma_empty_encoding(text@);
        }
        None
    }

    /// The number of entries that are still to come.
    pub fn count(self) -> (n: usize)
        ensures
            n == self.remaining().len(),
    {
        let mut n: usize = 0;
        let len = byte_len(self.0);
        let mut iter = self;
        proof {
            lemma_entries(self.0.spec_bytes(), SEP);
        }
        loop
            invariant
                n + iter.remaining().len() == self.remaining().len(),
                self.remaining().len() <= len,
            ensures
                n == self.remaining().len(),
            decreases iter.0.spec_bytes().len(),
        {
            match iter.next() {
                Some((_, rest)) => {
                    n += 1;
                    iter = rest;
                },
                None => {
                    break ;
                },
            }
        }
        n
    }
}

/// The number of authors in an author list.
pub fn count_authors(authors_str: &str) -> (n: usize)
    ensures
        n == entries(authors_str.spec_bytes(), SEP).len(),
{
    IterAuthors(authors_str).count()
}

/// The `N` authors of an author list, in the order of the list.
pub fn authors<'a, const N: usize>(authors_str: &'a str) -> (names: [&'a str; N])
    requires
        entries(authors_str.spec_bytes(), SEP).len() == N,
    ensures
        encodings(names@) == entries(authors_str.spec_bytes(), SEP),
        forall|i: int| 0 <= i < N ==> (#[trigger] names@[i])@ == decode_utf8(
            entries(authors_str.spec_bytes(), SEP)[i],
        ),
        all_filled(names@),
{
    let mut names: [&'a str; N] = [""; N];
    let mut i: usize = 0;
    let mut iter = IterAuthors(authors_str);
    let ghost all = entries(authors_str.spec_bytes(), SEP);
    loop
        invariant
            i <= N,
            all == entries(authors_str.spec_bytes(), SEP),
            all.len() == N,
            iter.remaining() == all.subrange(i as int, N as int),
            forall|j: int| 0 <= j < i ==> (#[trigger] names@[j]).spec_bytes() == all[j],
            forall|j: int| 0 <= j < i ==> (#[trigger] names@[j])@ == decode_utf8(all[j]),
        ensures
            i == N,
            forall|j: int| 0 <= j < N ==> (#[trigger] names@[j]).spec_bytes() == all[j],
            forall|j: int| 0 <= j < N ==> (#[trigger] names@[j])@ == decode_utf8(all[j]),
        decreases iter.0.spec_bytes().len(),
    {
        match iter.next() {
            Some((author, rest)) => {
                proof {
                    assert(iter.remaining()[0] == all[i as int]);
                    assert(iter.remaining().drop_first() =~= all.subrange(i + 1, N as int));
                }
                names[i] = author;
                i += 1;
                iter = rest;
            },
            None => {
                break ;
            },
        }
    }
    proof {
        assert(encodings(names@) =~= all);
        lemma_entries_are_filled(names@, authors_str.spec_bytes(), SEP);
    }
    names
}

/// The authors of an author list, in the order of the list, where there are
/// `expected` of them.
pub fn try_authors<'a>(authors_str: &'a str, expected: usize) -> (outcome: Result<
    Vec<&'a str>,
    Error,
>)
    ensures
        match outcome {
            Ok(names) => {
                &&& entries(authors_str.spec_bytes(), SEP).len() == expected
                &&& encodings(names@) == entries(authors_str.spec_bytes(), SEP)
                &&& forall|i: int|
                    0 <= i < names@.len() ==> (#[trigger] names@[i])@ == decode_utf8(
                        entries(authors_str.spec_bytes(), SEP)[i],
                    )
                &&& all_filled(names@)
            },
            Err(e) => e == Error::LengthMismatch && entries(authors_str.spec_bytes(), SEP).len()
                != expected,
        },
{
    if count_authors(authors_str) != expected {
        return Err(Error::LengthMismatch);
    }
    let mut names: Vec<&'a str> = Vec::with_capacity(expected);
    let mut iter = IterAuthors(authors_str);
    let ghost all = entries(authors_str.spec_bytes(), SEP);
    loop
        invariant
            all == entries(authors_str.spec_bytes(), SEP),
            names@.len() <= all.len(),
            iter.remaining() == all.subrange(names@.len() as int, all.len() as int),
            forall|j: int| 0 <= j < names@.len() ==> (#[trigger] names@[j]).spec_bytes() == all[j],
            forall|j: int| 0 <= j < names@.len() ==> (#[trigger] names@[j])@ == decode_utf8(all[j]),
        ensures
            names@.len() == all.len(),
            forall|j: int| 0 <= j < names@.len() ==> (#[trigger] names@[j]).spec_bytes() == all[j],
            forall|j: int| 0 <= j < names@.len() ==> (#[trigger] names@[j])@ == decode_utf8(all[j]),
        decreases iter.0.spec_bytes().len(),
    {
        match iter.next() {
            Some((author, rest)) => {
                proof {
                    assert(iter.remaining()[0] == all[names@.len() as int]);
                    assert(iter.remaining().drop_first() =~= all.subrange(
                        names@.len() as int + 1,
                        all.len() as int,
                    ));
                }
                names.push(author);
                iter = rest;
            },
            None => {
                break ;
            },
        }
    }
    proof {
        assert(encodings(names@) =~= all);
        lemma_entries_are_filled(names@, authors_str.spec_bytes(), SEP);
    }
    Ok(names)
}

/// The authors of an author list, in the order of the list: counted first,
/// then taken out in that number.
pub fn all_authors<'a>(authors_str: &'a str) -> (names: Vec<&'a str>)
    ensures
        names@.len() == entries(authors_str.spec_bytes(), SEP).len(),
        encodings(names@) == entries(authors_str.spec_bytes(), SEP),
        forall|i: int|
            0 <= i < names@.len() ==> (#[trigger] names@[i])@ == decode_utf8(
                entries(authors_str.spec_bytes(), SEP)[i],
            ),
        all_filled(names@),
{
    let count = count_authors(authors_str);
    match try_authors(authors_str, count) {
        Ok(names) => {
            proof {
                assert(encodings(names@).len() == names@.len());
            }
            names
        },
        Err(_) => {
            proof {
                assert(false);
            }
            Vec::new()
        },
    }
}

/// The length of the buffer that holds `authors` joined with `sep`.
pub fn join_authors_buf_len(authors: &[&str], sep: &str) -> (len: usize)
    requires
        joined_len(encodings(authors@), sep.spec_bytes().len()) <= usize::MAX,
    ensures
        len == joined_len(encodings(authors@), sep.spec_bytes().len()),
{
    let sep_len = byte_len(sep);
    let ghost parts = encodings(authors@);
    let mut len: usize = 0;
    let mut i: usize = 0;
    while i < authors.len()
        invariant
            i <= authors@.len(),
            parts == encodings(authors@),
            sep_len == sep.spec_bytes().len(),
            len == joined_len(parts.take(i as int), sep_len as nat),
            joined_len(parts, sep_len as nat) <= usize::MAX,
        decreases authors@.len() - i,
    {
        proof {
            lemma_joined_len_push(parts.take(i as int), parts[i as int], sep_len as nat);
            assert(parts.take(i as int).push(parts[i as int]) =~= parts.take(i + 1));
            lemma_joined_len_prefix(parts, i + 1, sep_len as nat);
        }
        if i > 0 {
            len += sep_len;
        }
        len += byte_len(authors[i]);
        i += 1;
    }
    proof {
        assert(parts.take(i as int) =~= parts);
    }
    len
}

/// The length of the buffer that holds `authors` joined with `sep`, where a
/// `usize` can hold it.
pub fn try_join_authors_buf_len(authors: &[&str], sep: &str) -> (len: Option<usize>)
    ensures
        match len {
            Some(n) => n == joined_len(encodings(authors@), sep.spec_bytes().len()),
            None => joined_len(encodings(authors@), sep.spec_bytes().len()) > usize::MAX,
        },
{
    let sep_len = byte_len(sep);
    let ghost parts = encodings(authors@);
    let mut len: usize = 0;
    let mut i: usize = 0;
    while i < authors.len()
        invariant
            i <= authors@.len(),
            parts == encodings(authors@),
            sep_len == sep.spec_bytes().len(),
            len == joined_len(parts.take(i as int), sep_len as nat),
        decreases authors@.len() - i,
    {
        proof {
            lemma_joined_len_push(parts.take(i as int), parts[i as int], sep_len as nat);
            assert(parts.take(i as int).push(parts[i as int]) =~= parts.take(i + 1));
            lemma_joined_len_prefix(parts, i + 1, sep_len as nat);
        }
        if i > 0 {
            match len.checked_add(sep_len) {
                Some(sum) => {
                    len = sum;
                },
                None => {
                    return None;
                },
            }
        }
        match len.checked_add(byte_len(authors[i])) {
            Some(sum) => {
                len = sum;
            },
            None => {
                return None;
            },
        }
        i += 1;
    }
    proof {
        assert(parts.take(i as int) =~= parts);
    }
    Some(len)
}

/// Copies `src` into `buf` from `offset` on, and gives the offset behind
/// what was written.
fn write_bytes<const N: usize>(buf: &mut [u8; N], offset: usize, src: &[u8]) -> (end: usize)
    requires
        offset + src@.len() <= N,
    ensures
        end == offset + src@.len(),
        final(buf)@.subrange(0, offset as int) == old(buf)@.subrange(0, offset as int),
        final(buf)@.subrange(offset as int, end as int) == src@,
{
    let mut j: usize = 0;
    while j < src.len()
        invariant
            j <= src@.len(),
            offset + src@.len() <= N,
            buf@.subrange(0, offset as int) == old(buf)@.subrange(0, offset as int),
            buf@.subrange(offset as int, offset + j) == src@.subrange(0, j as int),
        decreases src@.len() - j,
    {
        let ghost before = buf@;
        buf[offset + j] = src[j];
        proof {
            assert(buf@.subrange(0, offset as int) =~= before.subrange(0, offset as int));
            assert(buf@.subrange(offset as int, offset + j + 1) =~= before.subrange(
                offset as int,
                offset + j,
            ).push(src@[j as int]));
            assert(src@.subrange(0, j + 1) =~= src@.subrange(0, j as int).push(src@[j as int]));
        }
        j += 1;
    }
    proof {
        assert(src@.subrange(0, j as int) =~= src@);
    }
    offset + j
}

/// The bytes of `authors` joined with `sep`, in a buffer of exactly their
/// length.
pub fn join_authors<const BUF_LEN: usize>(authors: &[&str], sep: &str) -> (buf: [u8; BUF_LEN])
    requires
        joined_len(encodings(authors@), sep.spec_bytes().len()) == BUF_LEN,
    ensures
        buf@ == joined(encodings(authors@), sep.spec_bytes()),
        valid_utf8(buf@),
{
    let mut buf: [u8; BUF_LEN] = [0u8; BUF_LEN];
    let ghost parts = encodings(authors@);
    let ghost sep_bytes = sep.spec_bytes();
    let mut offset: usize = 0;
    let mut i: usize = 0;
    while i < authors.len()
        invariant
            i <= authors@.len(),
            parts == encodings(authors@),
            sep_bytes == sep.spec_bytes(),
            joined_len(parts, sep_bytes.len()) == BUF_LEN,
            offset == joined(parts.take(i as int), sep_bytes).len(),
            buf@.subrange(0, offset as int) == joined(parts.take(i as int), sep_bytes),
        decreases authors@.len() - i,
    {
        let author = authors[i];
        let ghost done = joined(parts.take(i as int), sep_bytes);
        proof {
            assert(parts.take(i as int).push(parts[i as int]) =~= parts.take(i + 1));
            lemma_joined_push(parts.take(i as int), parts[i as int], sep_bytes);
            lemma_joined_has_joined_len(parts.take(i + 1), sep_bytes);
            lemma_joined_len_prefix(parts, i + 1, sep_bytes.len());
        }
        if i > 0 {
            offset = write_bytes(&mut buf, offset, sep.as_bytes());
            proof {
                assert(buf@.subrange(0, offset as int) =~= done + sep_bytes);
            }
        }
        let ghost written = buf@.subrange(0, offset as int);
        offset = write_bytes(&mut buf, offset, author.as_bytes());
        proof {
            assert(buf@.subrange(0, offset as int) =~= written + parts[i as int]);
        }
        i += 1;
    }
    proof {
        assert(parts.take(i as int) =~= parts);
        lemma_joined_has_joined_len(parts, sep_bytes);
        assert(buf@.subrange(0, offset as int) =~= buf@);
        lemma_encodings_valid(authors@);
        encode_utf8_valid_utf8(sep@);
        lemma_joined_valid(parts, sep_bytes);
    }
    buf
}

/// The text of `authors` joined with `sep`, where its length in bytes is
/// `expected_len`.
pub fn try_join_authors(authors: &[&str], sep: &str, expected_len: usize) -> (outcome: Result<
    String,
    Error,
>)
    ensures
        match outcome {
            Ok(text) => {
                &&& joined_len(encodings(authors@), sep.spec_bytes().len()) == expected_len
                &&& encode_utf8(text@) == joined(encodings(authors@), sep.spec_bytes())
                &&& text@ == decode_utf8(joined(encodings(authors@), sep.spec_bytes()))
            },
            Err(e) => e == Error::LengthMismatch && joined_len(
                encodings(authors@),
                sep.spec_bytes().len(),
            ) != expected_len,
        },
{
    match try_join_authors_buf_len(authors, sep) {
        Some(len) => {
            if len != expected_len {
                return Err(Error::LengthMismatch);
            }
        },
        None => {
            return Err(Error::LengthMismatch);
        },
    }
    let mut buf: Vec<u8> = Vec::with_capacity(expected_len);
    let ghost parts = encodings(authors@);
    let ghost sep_bytes = sep.spec_bytes();
    let mut i: usize = 0;
    while i < authors.len()
        invariant
            i <= authors@.len(),
            parts == encodings(authors@),
            sep_bytes == sep.spec_bytes(),
            buf@ == joined(parts.take(i as int), sep_bytes),
        decreases authors@.len() - i,
    {
        proof {
            assert(parts.take(i as int).push(parts[i as int]) =~= parts.take(i + 1));
            lemma_joined_push(parts.take(i as int), parts[i as int], sep_bytes);
        }
        if i > 0 {
            append_bytes(&mut buf, sep.as_bytes());
        }
        append_bytes(&mut buf, authors[i].as_bytes());
        proof {
            assert(buf@ =~= joined(parts.take(i + 1), sep_bytes));
        }
        i += 1;
    }
    proof {
        assert(parts.take(i as int) =~= parts);
        lemma_encodings_valid(authors@);
        encode_utf8_valid_utf8(sep@);
        lemma_joined_valid(parts, sep_bytes);
    }
    match text_from_utf8(buf) {
        Some(text) => {
            proof {
                encode_utf8_decode_utf8(text@);
            }
            Ok(text)
        },
        None => {
            proof {
                assert(false);
            }
            Err(Error::InvalidUtf8)
        },
    }
}

/// The text of `authors` joined with `sep`: its length computed first, then
/// written in that length. `None` where no `usize` holds the length.
pub fn join_text(authors: &[&str], sep: &str) -> (text: Option<String>)
    ensures
        match text {
            Some(text) => {
                &&& encode_utf8(text@) == joined(encodings(authors@), sep.spec_bytes())
                &&& text@ == decode_utf8(joined(encodings(authors@), sep.spec_bytes()))
            },
            None => joined_len(encodings(authors@), sep.spec_bytes().len()) > usize::MAX,
        },
{
    match try_join_authors_buf_len(authors, sep) {
        Some(len) => match try_join_authors(authors, sep, len) {
            Ok(text) => Some(text),
            Err(_) => {
                proof {
                    assert(false);
                }
                None
            },
        },
        None => None,
    }
}

/// The encoding of each text is valid UTF-8.
pub proof fn lemma_encodings_valid(texts: Seq<&str>)
    ensures
        forall|i: int| 0 <= i < texts.len() ==> valid_utf8(#[trigger] encodings(texts)[i]),
{
    assert forall|i: int| 0 <= i < texts.len() implies valid_utf8(#[trigger] encodings(texts)[i]) by {
        encode_utf8_valid_utf8(texts[i]@);
    }
}

} // verus!
