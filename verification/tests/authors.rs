use pkg::authors::{
    all_authors, authors, count_authors, join_authors, join_authors_buf_len, join_text,
    try_authors, try_join_authors, try_join_authors_buf_len, IterAuthors, SEP,
};
use pkg::error::Error;

#[test]
fn separator_is_a_colon() {
    assert_eq!(SEP, b':');
}

#[test]
fn count_authors_of_empty_list() {
    assert_eq!(count_authors(""), 0);
}

#[test]
fn count_authors_skips_empty_entries() {
    assert_eq!(count_authors("Alice:Bob:Charlie"), 3);
    assert_eq!(count_authors("a::b"), 2);
    assert_eq!(count_authors(":::"), 0);
    assert_eq!(count_authors(":a:"), 1);
    assert_eq!(count_authors("Alice Smith:Bob Jones"), 2);
}

#[test]
fn authors_in_order() {
    assert_eq!(authors::<3>("Alice:Bob:Charlie"), ["Alice", "Bob", "Charlie"]);
}

#[test]
fn authors_skip_empty_segments() {
    assert_eq!(authors::<2>("a::b"), ["a", "b"]);
    assert_eq!(authors::<1>(":a:"), ["a"]);
}

#[test]
fn authors_of_empty_list() {
    let none: [&str; 0] = authors::<0>("");
    assert_eq!(none.len(), 0);
    assert_eq!(try_authors("", 0), Ok(Vec::new()));
}

#[test]
fn try_authors_with_the_right_count() {
    assert_eq!(try_authors("Alice:Bob:Charlie", 3), Ok(vec!["Alice", "Bob", "Charlie"]));
    assert_eq!(try_authors("a::b", 2), Ok(vec!["a", "b"]));
}

#[test]
fn try_authors_with_the_wrong_count() {
    assert_eq!(try_authors("Alice:Bob:Charlie", 2), Err(Error::LengthMismatch));
    assert_eq!(try_authors("Alice:Bob:Charlie", 4), Err(Error::LengthMismatch));
    assert_eq!(try_authors("a::b", 3), Err(Error::LengthMismatch));
    assert_eq!(try_authors("", 1), Err(Error::LengthMismatch));
}

#[test]
fn count_agrees_with_extraction() {
    let lists = ["", ":", "a", "a:b", "a::b", ":a:b:", "Alice Smith:Bob Jones:", "x:y:z:w"];
    for list in lists {
        let n = count_authors(list);
        let names = try_authors(list, n).unwrap();
        assert_eq!(names.len(), n);
        assert!(names.iter().all(|name| !name.is_empty() && !name.contains(':')));
    }
}

#[test]
fn iter_authors_steps_through_the_list() {
    let (first, rest) = IterAuthors("a::b").next().unwrap();
    assert_eq!(first, "a");
    let (second, rest) = rest.next().unwrap();
    assert_eq!(second, "b");
    assert!(rest.next().is_none());
    assert!(IterAuthors("").next().is_none());
    assert!(IterAuthors("::").next().is_none());
}

#[test]
fn iter_authors_counts_what_is_left() {
    assert_eq!(IterAuthors("a:b:c").count(), 3);
    let (_, rest) = IterAuthors("a:b:c").next().unwrap();
    assert_eq!(rest.count(), 2);
}

#[test]
fn join_buffer_length_is_entries_plus_separators() {
    assert_eq!(join_authors_buf_len(&["Alice", "Bob", "Charlie"], ", "), 19);
    assert_eq!(join_authors_buf_len(&["Alice", "Bob"], "\n"), 9);
    assert_eq!(join_authors_buf_len(&["a", "b", "c", "d"], "--"), 10);
}

#[test]
fn join_buffer_length_without_separator() {
    assert_eq!(join_authors_buf_len(&[], ", "), 0);
    assert_eq!(join_authors_buf_len(&["Alice"], ", "), 5);
    assert_eq!(join_authors_buf_len(&["Alice", "Bob"], ""), 8);
}

#[test]
fn try_join_buffer_length_agrees() {
    assert_eq!(try_join_authors_buf_len(&["Alice", "Bob", "Charlie"], ", "), Some(19));
    assert_eq!(try_join_authors_buf_len(&[], ", "), Some(0));
}

#[test]
fn join_authors_fills_the_buffer() {
    assert_eq!(&join_authors::<19>(&["Alice", "Bob", "Charlie"], ", "), b"Alice, Bob, Charlie");
    assert_eq!(&join_authors::<5>(&["Alice"], ", "), b"Alice");
    assert_eq!(&join_authors::<0>(&[], ", "), b"");
    assert_eq!(&join_authors::<3>(&["a", "b"], "\n"), b"a\nb");
}

#[test]
fn join_authors_with_multi_byte_text() {
    let joined = join_authors::<14>(&["Zo\u{eb}", "Ren\u{e9}"], " \u{2022} ");
    assert_eq!(core::str::from_utf8(&joined), Ok("Zo\u{eb} \u{2022} Ren\u{e9}"));
}

#[test]
fn try_join_authors_gives_text() {
    assert_eq!(
        try_join_authors(&["Alice", "Bob", "Charlie"], ", ", 19),
        Ok(String::from("Alice, Bob, Charlie"))
    );
    assert_eq!(try_join_authors(&["Alice"], ", ", 5), Ok(String::from("Alice")));
    assert_eq!(try_join_authors(&[], ", ", 0), Ok(String::new()));
    assert_eq!(
        try_join_authors(&["Zo\u{eb}", "Ren\u{e9}"], " \u{2022} ", 14),
        Ok(String::from("Zo\u{eb} \u{2022} Ren\u{e9}"))
    );
}

#[test]
fn try_join_authors_with_the_wrong_length() {
    assert_eq!(try_join_authors(&["Alice", "Bob"], ", ", 9), Err(Error::LengthMismatch));
    assert_eq!(try_join_authors(&["Alice", "Bob"], ", ", 11), Err(Error::LengthMismatch));
    assert_eq!(try_join_authors(&[], ", ", 1), Err(Error::LengthMismatch));
}

#[test]
fn join_matches_the_standard_join() {
    let names = ["Alice Smith", "Bob Jones", "C"];
    for sep in [", ", "\n", "", ":"] {
        let len = join_authors_buf_len(&names, sep);
        assert_eq!(try_join_authors(&names, sep, len), Ok(names.join(sep)));
    }
}

#[test]
fn joined_authors_split_back() {
    let lists = ["Alice:Bob:Charlie", "a::b", "", ":x:", "Alice Smith:Bob Jones"];
    for list in lists {
        let n = count_authors(list);
        let names = try_authors(list, n).unwrap();
        let len = join_authors_buf_len(&names, ":");
        let joined = try_join_authors(&names, ":", len).unwrap();
        let m = count_authors(&joined);
        assert_eq!(m, n);
        assert_eq!(try_authors(&joined, m), Ok(names));
    }
}

#[test]
fn all_authors_counts_and_extracts() {
    assert_eq!(all_authors("Alice Smith:Bob Jones"), vec!["Alice Smith", "Bob Jones"]);
    assert_eq!(all_authors("a::b:"), vec!["a", "b"]);
    assert_eq!(all_authors(""), Vec::<&str>::new());
    assert_eq!(all_authors("::"), Vec::<&str>::new());
}

#[test]
fn join_text_joins_with_the_separator() {
    assert_eq!(join_text(&["Alice", "Bob", "Charlie"], ", "), Some(String::from("Alice, Bob, Charlie")));
    assert_eq!(join_text(&["Alice"], ", "), Some(String::from("Alice")));
    assert_eq!(join_text(&[], ", "), Some(String::new()));
    assert_eq!(join_text(&["a", "", "b"], "-"), Some(String::from("a--b")));
}

#[test]
fn authors_joined_as_the_macro_does() {
    let names = all_authors("Alice Smith:Bob Jones");
    assert_eq!(join_text(&names, "\n"), Some(String::from("Alice Smith\nBob Jones")));
    assert_eq!(join_text(&names, "\n"), Some(names.join("\n")));
}
