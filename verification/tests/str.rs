use pkg::error::Error;
use pkg::str::{byte_len, find_byte, slice, split_on, try_slice, try_split_on};

#[test]
fn find_byte_gives_first_occurrence() {
    assert_eq!(find_byte(b"a:b:c", b':'), Some(1));
    assert_eq!(find_byte(b":ab", b':'), Some(0));
    assert_eq!(find_byte(b"ab:", b':'), Some(2));
}

#[test]
fn find_byte_without_occurrence() {
    assert_eq!(find_byte(b"abc", b':'), None);
    assert_eq!(find_byte(b"", b':'), None);
}

#[test]
fn byte_len_counts_bytes_not_characters() {
    assert_eq!(byte_len(""), 0);
    assert_eq!(byte_len("abc"), 3);
    assert_eq!(byte_len("h\u{e9}llo"), 6);
}

#[test]
fn slice_cuts_byte_range() {
    assert_eq!(slice("hello world", 0, 5), "hello");
    assert_eq!(slice("hello world", 6, 11), "world");
    assert_eq!(slice("hello world", 3, 3), "");
    assert_eq!(slice("hello world", 0, 11), "hello world");
    assert_eq!(slice("", 0, 0), "");
}

#[test]
fn slice_on_character_boundaries() {
    let s = "h\u{e9}llo";
    assert_eq!(slice(s, 1, 3), "\u{e9}");
    assert_eq!(slice(s, 0, 1), "h");
    assert_eq!(slice(s, 3, 6), "llo");
}

#[test]
fn slice_of_nothing_inside_a_character_is_empty() {
    let s = "h\u{e9}llo";
    assert_eq!(slice(s, 2, 2), "");
    assert_eq!(try_slice(s, 2, 2), Ok(""));
}

#[test]
fn slices_reassemble_the_text() {
    let s = "na\u{ef}ve caf\u{e9} \u{1f600}!";
    let len = byte_len(s);
    let mut starts = 0;
    for start in 0..=len {
        if !s.is_char_boundary(start) {
            continue;
        }
        starts += 1;
        for end in start..=len {
            if !s.is_char_boundary(end) {
                continue;
            }
            let mut whole = String::new();
            whole.push_str(slice(s, 0, start));
            whole.push_str(slice(s, start, end));
            whole.push_str(slice(s, end, len));
            assert_eq!(whole, s);
        }
    }
    assert_eq!(starts, 14);
}

#[test]
fn try_slice_accepts_what_slice_accepts() {
    assert_eq!(try_slice("hello world", 0, 5), Ok("hello"));
    assert_eq!(try_slice("h\u{e9}llo", 1, 3), Ok("\u{e9}"));
    assert_eq!(try_slice("abc", 3, 3), Ok(""));
}

#[test]
fn try_slice_rejects_start_after_end() {
    assert_eq!(try_slice("hello", 3, 2), Err(Error::InvalidRange));
}

#[test]
fn try_slice_rejects_end_after_length() {
    assert_eq!(try_slice("hello", 0, 6), Err(Error::InvalidRange));
    assert_eq!(try_slice("", 0, 1), Err(Error::InvalidRange));
}

#[test]
fn try_slice_rejects_half_a_character() {
    let s = "h\u{e9}llo";
    assert_eq!(try_slice(s, 0, 2), Err(Error::InvalidUtf8));
    assert_eq!(try_slice(s, 2, 3), Err(Error::InvalidUtf8));
    assert_eq!(try_slice(s, 2, 6), Err(Error::InvalidUtf8));
}

#[test]
fn try_slice_agrees_with_from_utf8_on_every_range() {
    let s = "a\u{e9}\u{20ac}\u{1f600}z";
    let len = byte_len(s);
    for start in 0..=len {
        for end in start..=len {
            let expected = core::str::from_utf8(&s.as_bytes()[start..end]);
            match try_slice(s, start, end) {
                Ok(part) => assert_eq!(Ok(part), expected),
                Err(e) => {
                    assert_eq!(e, Error::InvalidUtf8);
                    assert!(expected.is_err());
                }
            }
        }
    }
}

#[test]
fn split_on_found() {
    assert_eq!(split_on("a:b:c", b':'), ("a", "b:c"));
    assert_eq!(split_on("key=value", b'='), ("key", "value"));
}

#[test]
fn split_on_not_found() {
    assert_eq!(split_on("abc", b':'), ("abc", ""));
    assert_eq!(split_on("", b':'), ("", ""));
}

#[test]
fn split_on_delimiter_at_the_ends() {
    assert_eq!(split_on(":abc", b':'), ("", "abc"));
    assert_eq!(split_on("abc:", b':'), ("abc", ""));
    assert_eq!(split_on(":", b':'), ("", ""));
}

#[test]
fn split_on_keeps_multi_byte_characters_whole() {
    assert_eq!(split_on("caf\u{e9}:th\u{e9}", b':'), ("caf\u{e9}", "th\u{e9}"));
}

#[test]
fn split_on_head_is_free_of_delimiter_and_parts_reassemble() {
    let texts = ["a:b:c", "::", "abc", "", "x:", ":y", "1.4.2-beta.1+exp"];
    let delimiters = [b':', b'.', b'-', b'+', b'a'];
    for text in texts {
        for delimiter in delimiters {
            let (head, tail) = split_on(text, delimiter);
            assert!(!head.as_bytes().contains(&delimiter));
            if text.as_bytes().contains(&delimiter) {
                let mut whole = String::from(head);
                whole.push(delimiter as char);
                whole.push_str(tail);
                assert_eq!(whole, text);
            } else {
                assert_eq!(head, text);
                assert_eq!(tail, "");
            }
        }
    }
}

#[test]
fn try_split_on_ascii_delimiter() {
    assert_eq!(try_split_on("a:b", b':'), Ok(("a", "b")));
    assert_eq!(try_split_on("ab", b':'), Ok(("ab", "")));
}

#[test]
fn try_split_on_byte_inside_a_character() {
    assert_eq!(try_split_on("caf\u{e9}", 0xa9), Err(Error::InvalidUtf8));
    assert_eq!(try_split_on("caf\u{e9}", 0xc3), Err(Error::InvalidUtf8));
}

#[test]
fn try_split_on_absent_non_ascii_byte() {
    assert_eq!(try_split_on("cafe", 0xa9), Ok(("cafe", "")));
    assert_eq!(try_split_on("caf\u{e9}", 0xff), Ok(("caf\u{e9}", "")));
}

#[test]
fn error_messages() {
    assert_eq!(Error::InvalidRange.message(), "range is out of bounds");
    assert_eq!(Error::InvalidUtf8.message(), "slice results in invalid utf-8");
    assert_eq!(Error::LengthMismatch.message(), "precomputed length does not match");
    assert_eq!(Error::EmptyNumericComponent.message(), "version is empty");
    assert_eq!(Error::NonDigitCharacter.message(), "invalid digit in version");
}
