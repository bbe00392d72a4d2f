//! Byte buffers in which text is put together before it becomes a `String`.

use vstd::prelude::*;
use vstd::utf8::*;

verus! {

/// Appends `src` to `buf`.
pub(crate) fn append_bytes(buf: &mut Vec<u8>, src: &[u8])
    ensures
        final(buf)@ == old(buf)@ + src@,
{
    let mut j: usize = 0;
    while j < src.len()
        invariant
            j <= src@.len(),
            buf@ == old(buf)@ + src@.subrange(0, j as int),
        decreases src@.len() - j,
    {
        buf.push(src[j]);
        proof {
            assert(src@.subrange(0, j + 1) =~= src@.subrange(0, j as int).push(src@[j as int]));
        }
        j += 1;
    }
    proof {
        assert(src@.subrange(0, j as int) =~= src@);
    }
}

/// `String::from_utf8` of the standard library: the text that `bytes`
/// encode where they are valid UTF-8, and no text where they are not.
#[verifier::external_body]
pub(crate) fn text_from_utf8(bytes: Vec<u8>) -> (text: Option<String>)
    ensures
        text is Some <==> valid_utf8(bytes@),
        text matches Some(t) ==> encode_utf8(t@) == bytes@,
{
    String::from_utf8(bytes).ok()
}

} // verus!
