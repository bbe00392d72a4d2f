//! Source text for the authors of a package: a list of names separated by
//! semicolons becomes the text of a slice of string literals.

use vstd::prelude::*;
use vstd::string::StringSliceAdditionalSpecFns;
use vstd::utf8::*;
use crate::authors::{
    encodings, joined, lemma_encodings_valid, lemma_joined_push, lemma_joined_valid,
};
use crate::boundary::lemma_ascii_is_valid;
use crate::buffer::{append_bytes, text_from_utf8};
use crate::str::{fields, split_fields, splittable};

verus! {

/// The byte `;`, which separates the names.
pub const SEMICOLON: u8 = 0x3b;

/// The byte `"`, which stands before and after each name.
pub const QUOTE: u8 = 0x22;

/// The byte `,`, which stands between the names.
pub const COMMA: u8 = 0x2c;

/// A text without the white space at its start and at its end, as `str::trim`
/// gives it.
pub uninterp spec fn trimmed(text: Seq<char>) -> Seq<char>;

/// `str::trim` of the standard library: the part of `s` that is left when
/// leading and trailing white space is taken away. What counts as white
/// space is for the standard library to say, so the result goes by the name
/// `trimmed`.
#[verifier::external_body]
fn trim<'a>(s: &'a str) -> (part: &'a str)
    ensures
        part@ == trimmed(s@),
{
    s.trim()
}

/// A name between two quotes.
pub open spec fn quoted(name: Seq<u8>) -> Seq<u8> {
    seq![QUOTE] + name + seq![QUOTE]
}

/// The text of a slice of string literals: `&[`, the names in quotes with a
/// comma between each two, and `]`.
pub open spec fn slice_code_text(names: Seq<Seq<u8>>) -> Seq<u8> {
    seq![0x26u8, 0x5bu8] + joined(names.map_values(|name: Seq<u8>| quoted(name)), seq![COMMA])
        + seq![0x5du8]
}

/// The fields of a text, each without the white space around it.
pub open spec fn trimmed_field_texts(bytes: Seq<u8>, byte: u8) -> Seq<Seq<u8>> {
    fields(bytes, byte).map_values(|field: Seq<u8>| encode_utf8(trimmed(decode_utf8(field))))
}

/// The fields of `s` between the occurrences of `byte`, in order, each
/// without the white space around it.
pub fn trimmed_fields<'a>(s: &'a str, byte: u8) -> (parts: Vec<&'a str>)
    requires
        splittable(s.spec_bytes(), byte),
    ensures
        encodings(parts@) == trimmed_field_texts(s.spec_bytes(), byte),
        forall|i: int|
            0 <= i < parts@.len() ==> (#[trigger] parts@[i])@ == trimmed(
                decode_utf8(fields(s.spec_bytes(), byte)[i]),
            ),
{
    let raw = split_fields(s, byte);
    let mut parts: Vec<&'a str> = Vec::with_capacity(raw.len());
    let ghost all = fields(s.spec_bytes(), byte);
    let mut i: usize = 0;
    while i < raw.len()
        invariant
            i <= raw@.len(),
            raw@.len() == all.len(),
            parts@.len() == i,
            forall|j: int| 0 <= j < raw@.len() ==> (#[trigger] raw@[j])@ == decode_utf8(all[j]),
            forall|j: int| 0 <= j < i ==> (#[trigger] parts@[j])@ == trimmed(decode_utf8(all[j])),
        decreases raw@.len() - i,
    {
        parts.push(trim(raw[i]));
        i += 1;
    }
    proof {
        assert(encodings(parts@) =~= trimmed_field_texts(s.spec_bytes(), byte));
    }
    parts
}

/// The text of a slice of string literals that holds `names`.
pub fn slice_code(names: &[&str]) -> (code: String)
    ensures
        encode_utf8(code@) == slice_code_text(encodings(names@)),
        code@ == decode_utf8(slice_code_text(encodings(names@))),
{
    let mut buf: Vec<u8> = Vec::new();
    buf.push(0x26);
    buf.push(0x5b);
    let ghost open = buf@;
    let ghost parts = encodings(names@).map_values(|name: Seq<u8>| quoted(name));
    let mut i: usize = 0;
    while i < names.len()
        invariant
            i <= names@.len(),
            open == seq![0x26u8, 0x5bu8],
            parts == encodings(names@).map_values(|name: Seq<u8>| quoted(name)),
            buf@ == open + joined(parts.take(i as int), seq![COMMA]),
        decreases names@.len() - i,
    {
        let ghost done = joined(parts.take(i as int), seq![COMMA]);
        proof {
            assert(parts.take(i as int).push(parts[i as int]) =~= parts.take(i + 1));
            lemma_joined_push(parts.take(i as int), parts[i as int], seq![COMMA]);
            assert(parts[i as int] == quoted(names@[i as int].spec_bytes()));
        }
        if i > 0 {
            buf.push(COMMA);
        }
        buf.push(QUOTE);
        append_bytes(&mut buf, names[i].as_bytes());
        buf.push(QUOTE);
        proof {
            assert(buf@ =~= open + joined(parts.take(i + 1), seq![COMMA]));
        }
        i += 1;
    }
    buf.push(0x5d);
    proof {
        assert(parts.take(i as int) =~= parts);
        assert(buf@ =~= slice_code_text(encodings(names@)));
        lemma_encodings_valid(names@);
        lemma_ascii_is_valid(seq![QUOTE]);
        lemma_ascii_is_valid(seq![COMMA]);
        lemma_ascii_is_valid(open);
        lemma_ascii_is_valid(seq![0x5du8]);
        assert forall|j: int| 0 <= j < parts.len() implies valid_utf8(#[trigger] parts[j]) by {
            let name = encodings(names@)[j];
            valid_utf8_concat(seq![QUOTE], name);
            valid_utf8_concat(seq![QUOTE] + name, seq![QUOTE]);
        }
        lemma_joined_valid(parts, seq![COMMA]);
        valid_utf8_concat(open, joined(parts, seq![COMMA]));
        valid_utf8_concat(open + joined(parts, seq![COMMA]), seq![0x5du8]);
    }
    match text_from_utf8(buf) {
        Some(code) => {
            proof {
                encode_utf8_decode_utf8(code@);
            }
            code
        },
        None => {
            proof {
                assert(false);
            }
            String::new()
        },
    }
}

/// The text of a slice of string literals that holds the names of `string`,
/// a list separated by semicolons, each name without the white space around
/// it.
pub fn generate_authors_slice_code(string: &str) -> (code: String)
    ensures
        encode_utf8(code@) == slice_code_text(trimmed_field_texts(string.spec_bytes(), SEMICOLON)),
        code@ == decode_utf8(
            slice_code_text(trimmed_field_texts(string.spec_bytes(), SEMICOLON)),
        ),
{
    let authors = trimmed_fields(string, SEMICOLON);
    slice_code(authors.as_slice())
}

} // verus!
