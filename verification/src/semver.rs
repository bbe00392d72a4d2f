//! Semantic versions of the form `major.minor.patch[-pre][+build]`.
//!
//! A version text is split at the first `.`, the rest at the next `.`, what
//! is left at the first `-` and the last rest at the first `+`, in this
//! order. A `+` that comes before any `-` is therefore not a build marker:
//! it stays in the patch text.
//!
//! The three numbers are read as decimal numbers into 64 bits. A number too
//! large for 64 bits wraps around: its value is taken modulo 2^64.

use vstd::prelude::*;
use vstd::arithmetic::div_mod::{lemma_add_mod_noop, lemma_mul_mod_noop_left, lemma_small_mod};
use vstd::string::StringSliceAdditionalSpecFns;
use vstd::utf8::*;
use crate::boundary::lemma_ascii_is_valid;
use crate::buffer::{append_bytes, text_from_utf8};
use crate::error::Error;
use crate::str::{
    head_of, lemma_empty_encoding, lemma_split_of_concat, lemma_split_parts, split_on, tail_of,
};

verus! {

/// The byte `.`, which ends the major and the minor number.
pub const DOT: u8 = 0x2e;

/// The byte `-`, which ends the patch number.
pub const HYPHEN: u8 = 0x2d;

/// The byte `+`, which ends the pre-release text.
pub const PLUS: u8 = 0x2b;

/// The number of values of a `u64`: 2^64.
pub open spec fn modulus() -> nat {
    0x1_0000_0000_0000_0000
}

/// Whether `byte` is one of the ASCII decimal digits `0` to `9`.
pub open spec fn is_digit(byte: u8) -> bool {
    0x30 <= byte <= 0x39
}

/// Whether every byte of `text` is a decimal digit.
pub open spec fn all_digits(text: Seq<u8>) -> bool {
    forall|i: int| 0 <= i < text.len() ==> is_digit(#[trigger] text[i])
}

/// The number that a run of decimal digits denotes.
pub open spec fn decimal_value(digits: Seq<u8>) -> nat
    decreases digits.len(),
{
    if digits.len() == 0 {
        0
    } else {
        decimal_value(digits.drop_last()) * 10 + (digits.last() - 0x30) as nat
    }
}

/// Why `text` is not a number, or `None` when it is one: it must hold a
/// digit, and nothing but digits.
pub open spec fn number_error(text: Seq<u8>) -> Option<Error> {
    if text.len() == 0 {
        Some(Error::EmptyNumericComponent)
    } else if !all_digits(text) {
        Some(Error::NonDigitCharacter)
    } else {
        None
    }
}

/// The value of a numeric component in 64 bits: the number its digits
/// denote, modulo 2^64.
pub open spec fn number_value(digits: Seq<u8>) -> u64 {
    (decimal_value(digits) % modulus()) as u64
}

/// The five texts that a version text is made of.
pub struct Parts {
    pub major: Seq<u8>,
    pub minor: Seq<u8>,
    pub patch: Seq<u8>,
    pub pre: Seq<u8>,
    pub build: Seq<u8>,
}

/// The decomposition of a version text.
pub open spec fn parts_of(version: Seq<u8>) -> Parts {
    let after_major = tail_of(version, DOT);
    let after_minor = tail_of(after_major, DOT);
    let after_patch = tail_of(after_minor, HYPHEN);
    Parts {
        major: head_of(version, DOT),
        minor: head_of(after_major, DOT),
        patch: head_of(after_minor, HYPHEN),
        pre: head_of(after_patch, PLUS),
        build: tail_of(after_patch, PLUS),
    }
}

/// Why a version text is rejected, or `None` when it is a version: the
/// error of the first of major, minor and patch that is not a number.
pub open spec fn version_error(version: Seq<u8>) -> Option<Error> {
    let parts = parts_of(version);
    if number_error(parts.major) is Some {
        number_error(parts.major)
    } else if number_error(parts.minor) is Some {
        number_error(parts.minor)
    } else {
        number_error(parts.patch)
    }
}

/// The decimal digits of `n`, the most significant first, without a leading
/// zero but for zero itself.
pub open spec fn decimal_digits(n: nat) -> Seq<u8>
    decreases n,
{
    if n < 10 {
        seq![(0x30 + n) as u8]
    } else {
        decimal_digits(n / 10).push((0x30 + n % 10) as u8)
    }
}

/// The text of a version: the three numbers with a `.` between them, then
/// `-` and the pre-release text where there is one, then `+` and the build
/// text where there is one.
pub open spec fn version_text(
    major: nat,
    minor: nat,
    patch: nat,
    pre: Seq<u8>,
    build: Seq<u8>,
) -> Seq<u8> {
    decimal_digits(major) + seq![DOT] + decimal_digits(minor) + seq![DOT] + decimal_digits(patch)
        + (if pre.len() > 0 {
        seq![HYPHEN] + pre
    } else {
        Seq::empty()
    }) + (if build.len() > 0 {
        seq![PLUS] + build
    } else {
        Seq::empty()
    })
}

/// The decimal digits of a number are digits, at least one of them, and
/// denote the number.
pub proof fn lemma_decimal_digits(n: nat)
    ensures
        decimal_digits(n).len() >= 1,
        all_digits(decimal_digits(n)),
        decimal_value(decimal_digits(n)) == n,
        number_error(decimal_digits(n)) is None,
    decreases n,
{
    if n < 10 {
        let digits = decimal_digits(n);
        assert(digits.drop_last().len() == 0);
        assert(decimal_value(digits.drop_last()) == 0);
    } else {
        lemma_decimal_digits(n / 10);
        let digits = decimal_digits(n);
        assert(digits.drop_last() =~= decimal_digits(n / 10));
        assert forall|i: int| 0 <= i < digits.len() implies is_digit(#[trigger] digits[i]) by {
            if i < digits.len() - 1 {
                assert(digits[i] == decimal_digits(n / 10)[i]);
            }
        }
    }
}

/// The text of a version decomposes into what it was made of: the digits
/// of the three numbers, the pre-release text and the build text. This
/// holds where the pre-release text is free of `+`, and where a build text
/// comes with a pre-release text; without one, `+` stays in the patch text.
pub proof fn lemma_version_text_decomposes(
    major: nat,
    minor: nat,
    patch: nat,
    pre: Seq<u8>,
    build: Seq<u8>,
)
    requires
        !pre.contains(PLUS),
        pre.len() > 0 || build.len() == 0,
    ensures
        parts_of(version_text(major, minor, patch, pre, build)) == (Parts {
            major: decimal_digits(major),
            minor: decimal_digits(minor),
            patch: decimal_digits(patch),
            pre,
            build,
        }),
        version_error(version_text(major, minor, patch, pre, build)) is None,
{
    let text = version_text(major, minor, patch, pre, build);
    let d1 = decimal_digits(major);
    let d2 = decimal_digits(minor);
    let d3 = decimal_digits(patch);
    let pre_part = if pre.len() > 0 {
        seq![HYPHEN] + pre
    } else {
        Seq::empty()
    };
    let build_part = if build.len() > 0 {
        seq![PLUS] + build
    } else {
        Seq::empty()
    };
    lemma_decimal_digits(major);
    lemma_decimal_digits(minor);
    lemma_decimal_digits(patch);
    lemma_digits_hold_no(d1, DOT);
    lemma_digits_hold_no(d2, DOT);
    lemma_digits_hold_no(d3, HYPHEN);

    let after_major = d2 + seq![DOT] + d3 + pre_part + build_part;
    assert(text =~= d1 + seq![DOT] + after_major);
    lemma_split_of_concat(d1, DOT, after_major);

    let after_minor = d3 + pre_part + build_part;
    assert(after_major =~= d2 + seq![DOT] + after_minor);
    lemma_split_of_concat(d2, DOT, after_minor);

    let after_patch = pre + build_part;
    if pre.len() > 0 {
        assert(after_minor =~= d3 + seq![HYPHEN] + after_patch);
        lemma_split_of_concat(d3, HYPHEN, after_patch);
    } else {
        assert(after_minor =~= d3);
        assert(after_patch =~= Seq::<u8>::empty());
        lemma_split_parts(d3, HYPHEN);
    }
    assert(head_of(after_minor, HYPHEN) == d3);
    assert(tail_of(after_minor, HYPHEN) =~= after_patch);

    if build.len() > 0 {
        assert(after_patch =~= pre + seq![PLUS] + build);
        lemma_split_of_concat(pre, PLUS, build);
    } else {
        assert(after_patch =~= pre);
        lemma_split_parts(pre, PLUS);
        assert(tail_of(pre, PLUS) =~= build);
    }
}

/// A run of digits holds no byte that is not a digit.
pub proof fn lemma_digits_hold_no(digits: Seq<u8>, byte: u8)
    requires
        all_digits(digits),
        !is_digit(byte),
    ensures
        !digits.contains(byte),
{
}

/// A number that fits into 64 bits is the value of its decimal digits.
pub proof fn lemma_digits_value(n: u64)
    ensures
        number_error(decimal_digits(n as nat)) is None,
        number_value(decimal_digits(n as nat)) == n,
{
    lemma_decimal_digits(n as nat);
    lemma_small_mod(n as nat, modulus());
}

/// One more digit behind a number, in 64 bits: ten times the number plus
/// the digit, modulo 2^64.
proof fn lemma_next_digit(value: nat, digit: nat)
    requires
        digit < 10,
    ensures
        (((value % modulus()) * 10) % modulus() + digit) % modulus() == (value * 10 + digit)
            % modulus(),
{
    let m = modulus() as int;
    lemma_mul_mod_noop_left(value as int, 10, m);
    lemma_add_mod_noop((value * 10) as int, digit as int, m);
    lemma_small_mod(digit, modulus());
}

/// Semantic version.
#[derive(Clone, Copy, Debug, PartialEq, Eq, Hash)]
pub struct Version {
    pub major: u64,
    pub minor: u64,
    pub patch: u64,
    pub pre: &'static str,
    pub build: &'static str,
}

impl Version {
    /// Whether this is the version that the text `version` denotes.
    pub open spec fn denoted_by(self, version: Seq<u8>) -> bool {
        let parts = parts_of(version);
        &&& self.major == number_value(parts.major)
        &&& self.minor == number_value(parts.minor)
        &&& self.patch == number_value(parts.patch)
        &&& self.pre.spec_bytes() == parts.pre
        &&& self.build.spec_bytes() == parts.build
        &&& self.pre@ == decode_utf8(parts.pre)
        &&& self.build@ == decode_utf8(parts.build)
    }

    /// The text of this version.
    pub open spec fn text(self) -> Seq<u8> {
        version_text(
            self.major as nat,
            self.minor as nat,
            self.patch as nat,
            self.pre.spec_bytes(),
            self.build.spec_bytes(),
        )
    }

    /// The text of this version: `major.minor.patch`, then `-` and the
    /// pre-release text where there is one, then `+` and the build text
    /// where there is one.
    pub fn to_string(&self) -> (text: String)
        ensures
            encode_utf8(text@) == self.text(),
            text@ == decode_utf8(self.text()),
    {
        let mut buf: Vec<u8> = Vec::new();
        append_decimal(&mut buf, self.major);
        buf.push(DOT);
        append_decimal(&mut buf, self.minor);
        buf.push(DOT);
        append_decimal(&mut buf, self.patch);
        let ghost numbers = buf@;
        proof {
            lemma_decimal_digits(self.major as nat);
            lemma_decimal_digits(self.minor as nat);
            lemma_decimal_digits(self.patch as nat);
            assert(numbers =~= decimal_digits(self.major as nat) + seq![DOT] + decimal_digits(
                self.minor as nat,
            ) + seq![DOT] + decimal_digits(self.patch as nat));
            lemma_ascii_is_valid(numbers);
            lemma_ascii_is_valid(seq![HYPHEN]);
            lemma_ascii_is_valid(seq![PLUS]);
            encode_utf8_valid_utf8(self.pre@);
            encode_utf8_valid_utf8(self.build@);
            lemma_empty_encoding(self.pre@);
            lemma_empty_encoding(self.build@);
        }
        if !self.pre.is_empty() {
            buf.push(HYPHEN);
            append_bytes(&mut buf, self.pre.as_bytes());
            proof {
                assert(buf@ =~= numbers + (seq![HYPHEN] + self.pre.spec_bytes()));
                valid_utf8_concat(seq![HYPHEN], self.pre.spec_bytes());
                valid_utf8_concat(numbers, seq![HYPHEN] + self.pre.spec_bytes());
            }
        } else {
            proof {
                assert(buf@ =~= numbers + Seq::<u8>::empty());
            }
        }
        let ghost front = buf@;
        if !self.build.is_empty() {
            buf.push(PLUS);
            append_bytes(&mut buf, self.build.as_bytes());
            proof {
                assert(buf@ =~= front + (seq![PLUS] + self.build.spec_bytes()));
                valid_utf8_concat(seq![PLUS], self.build.spec_bytes());
                valid_utf8_concat(front, seq![PLUS] + self.build.spec_bytes());
            }
        } else {
            proof {
                assert(buf@ =~= front + Seq::<u8>::empty());
            }
        }
        match text_from_utf8(buf) {
            Some(text) => {
                proof {
                    encode_utf8_decode_utf8(text@);
                }
                text
            },
            None => {
                proof {
                    assert(false);
                }
                String::new()
            },
        }
    }

    /// The text of a version denotes that version: the same numbers, the
    /// same pre-release text, the same build text. This holds where the
    /// pre-release text is free of `+`, and where a build text comes with a
    /// pre-release text.
    pub proof fn lemma_text_parses_back(self, parsed: Version)
        requires
            !self.pre.spec_bytes().contains(PLUS),
            self.pre.spec_bytes().len() > 0 || self.build.spec_bytes().len() == 0,
            parsed.denoted_by(self.text()),
        ensures
            version_error(self.text()) is None,
            parsed.major == self.major,
            parsed.minor == self.minor,
            parsed.patch == self.patch,
            parsed.pre@ == self.pre@,
            parsed.build@ == self.build@,
    {
        lemma_version_text_decomposes(
            self.major as nat,
            self.minor as nat,
            self.patch as nat,
            self.pre.spec_bytes(),
            self.build.spec_bytes(),
        );
        lemma_digits_value(self.major);
        lemma_digits_value(self.minor);
        lemma_digits_value(self.patch);
        encode_utf8_decode_utf8(self.pre@);
        encode_utf8_decode_utf8(self.build@);
    }

    /// The version that the text `version` denotes.
    pub fn __parse(version: &'static str) -> (parsed: Self)
        requires
            version_error(version.spec_bytes()) is None,
        ensures
            parsed.denoted_by(version.spec_bytes()),
    {
        let (major, rest) = split_on(version, DOT);
        let (minor, rest) = split_on(rest, DOT);
        let (patch, rest) = split_on(rest, HYPHEN);

        let (pre, build) = split_on(rest, PLUS);

        let major = parse_number(major);
        let minor = parse_number(minor);
        let patch = parse_number(patch);

        Self { major, minor, patch, pre, build }
    }

    /// The version that the text `version` denotes, or why it denotes none.
    pub fn parse(version: &'static str) -> (outcome: Result<Self, Error>)
        ensures
            match outcome {
                Ok(parsed) => version_error(version.spec_bytes()) is None && parsed.denoted_by(
                    version.spec_bytes(),
                ),
                Err(e) => version_error(version.spec_bytes()) == Some(e),
            },
    {
        let (major, rest) = split_on(version, DOT);
        let (minor, rest) = split_on(rest, DOT);
        let (patch, rest) = split_on(rest, HYPHEN);

        let (pre, build) = split_on(rest, PLUS);

        let major = match try_parse_number(major) {
            Ok(n) => n,
            Err(e) => {
                return Err(e);
            },
        };
        let minor = match try_parse_number(minor) {
            Ok(n) => n,
            Err(e) => {
                return Err(e);
            },
        };
        let patch = match try_parse_number(patch) {
            Ok(n) => n,
            Err(e) => {
                return Err(e);
            },
        };

        Ok(Self { major, minor, patch, pre, build })
    }
}

/// Appends the decimal digits of `n` to `buf`.
fn append_decimal(buf: &mut Vec<u8>, n: u64)
    ensures
        final(buf)@ == old(buf)@ + decimal_digits(n as nat),
{
    let mut low: Vec<u8> = Vec::new();
    let mut rest: u64 = n;
    while rest >= 10
        invariant
            decimal_digits(n as nat) == decimal_digits(rest as nat) + low@.reverse(),
        decreases rest,
    {
        let ghost before = low@;
        low.push(0x30 + (rest % 10) as u8);
        proof {
            assert(low@.reverse() =~= seq![(0x30 + rest % 10) as u8] + before.reverse());
            assert(decimal_digits(rest as nat) =~= decimal_digits((rest / 10) as nat) + seq![
                (0x30 + rest % 10) as u8,
            ]);
        }
        rest = rest / 10;
    }
    let ghost before = low@;
    low.push(0x30 + rest as u8);
    proof {
        assert(low@.reverse() =~= seq![(0x30 + rest) as u8] + before.reverse());
        assert(decimal_digits(n as nat) =~= low@.reverse());
    }
    let mut k: usize = low.len();
    while k > 0
        invariant
            k <= low@.len(),
            buf@ == old(buf)@ + low@.reverse().subrange(0, low@.len() - k),
        decreases k,
    {
        k -= 1;
        buf.push(low[k]);
        proof {
            assert(low@.reverse().subrange(0, low@.len() - k) =~= low@.reverse().subrange(
                0,
                low@.len() - k - 1,
            ).push(low@[k as int]));
        }
    }
    proof {
        assert(low@.reverse().subrange(0, low@.len() as int) =~= low@.reverse());
    }
}

/// The number that the digits of `s` denote.
pub fn parse_number(s: &str) -> (n: u64)
    requires
        number_error(s.spec_bytes()) is None,
    ensures
        n == number_value(s.spec_bytes()),
{
    let digits = s.as_bytes();
    let mut result: u64 = 0;
    let mut i: usize = 0;
    while i < digits.len()
        invariant
            i <= digits@.len(),
            all_digits(digits@),
            result == number_value(digits@.take(i as int)),
        decreases digits@.len() - i,
    {
        proof {
            assert(digits@.take(i + 1).drop_last() =~= digits@.take(i as int));
            lemma_next_digit(
                decimal_value(digits@.take(i as int)),
                (digits@[i as int] - 0x30) as nat,
            );
        }
        result = result.wrapping_mul(10);
        let digit = digits[i] - 0x30;
        result = result.wrapping_add(digit as u64);
        i += 1;
    }
    proof {
        assert(digits@.take(i as int) =~= digits@);
    }
    result
}

/// The number that the digits of `s` denote, or why `s` is not a number.
pub fn try_parse_number(s: &str) -> (outcome: Result<u64, Error>)
    ensures
        match outcome {
            Ok(n) => number_error(s.spec_bytes()) is None && n == number_value(s.spec_bytes()),
            Err(e) => number_error(s.spec_bytes()) == Some(e),
        },
{
    let digits = s.as_bytes();
    if digits.len() == 0 {
        return Err(Error::EmptyNumericComponent);
    }
    let mut i: usize = 0;
    while i < digits.len()
        invariant
            i <= digits@.len(),
            digits@.len() > 0,
            digits@ == s.spec_bytes(),
            all_digits(digits@.take(i as int)),
        decreases digits@.len() - i,
    {
        if digits[i] < 0x30 || digits[i] > 0x39 {
            proof {
                assert(!is_digit(digits@[i as int]));
            }
            return Err(Error::NonDigitCharacter);
        }
        proof {
            assert forall|j: int| 0 <= j < i + 1 implies is_digit(
                #[trigger] digits@.take(i + 1)[j],
            ) by {
                if j < i {
                    assert(digits@.take(i as int)[j] == digits@.take(i + 1)[j]);
                }
            }
        }
        i += 1;
    }
    proof {
        assert(digits@.take(i as int) =~= digits@);
    }
    Ok(parse_number(s))
}

} // verus!
