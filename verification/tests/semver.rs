use pkg::error::Error;
use pkg::semver::{parse_number, try_parse_number, Version, DOT, HYPHEN, PLUS};

#[test]
fn delimiters() {
    assert_eq!(DOT, b'.');
    assert_eq!(HYPHEN, b'-');
    assert_eq!(PLUS, b'+');
}

#[test]
fn parse_full_version() {
    let version = Version::__parse("1.4.2-beta.1+exp.sha.5114f85");
    assert_eq!(
        version,
        Version { major: 1, minor: 4, patch: 2, pre: "beta.1", build: "exp.sha.5114f85" }
    );
    assert_eq!(Version::parse("1.4.2-beta.1+exp.sha.5114f85"), Ok(version));
}

#[test]
fn parse_plain_version() {
    let version = Version::__parse("2.0.0");
    assert_eq!(version, Version { major: 2, minor: 0, patch: 0, pre: "", build: "" });
    assert_eq!(Version::parse("2.0.0"), Ok(version));
}

#[test]
fn parse_version_with_pre_release_only() {
    assert_eq!(
        Version::parse("0.10.3-rc.1"),
        Ok(Version { major: 0, minor: 10, patch: 3, pre: "rc.1", build: "" })
    );
}

#[test]
fn parse_empty_version_fails() {
    assert_eq!(Version::parse(""), Err(Error::EmptyNumericComponent));
}

#[test]
fn parse_version_with_empty_component_fails() {
    assert_eq!(Version::parse("1..0"), Err(Error::EmptyNumericComponent));
    assert_eq!(Version::parse(".1.0"), Err(Error::EmptyNumericComponent));
    assert_eq!(Version::parse("1.0."), Err(Error::EmptyNumericComponent));
    assert_eq!(Version::parse("1.0"), Err(Error::EmptyNumericComponent));
    assert_eq!(Version::parse("1"), Err(Error::EmptyNumericComponent));
    assert_eq!(Version::parse("1.0.-pre"), Err(Error::EmptyNumericComponent));
}

#[test]
fn parse_version_with_non_digit_fails() {
    assert_eq!(Version::parse("a.0.0"), Err(Error::NonDigitCharacter));
    assert_eq!(Version::parse("1.x.0"), Err(Error::NonDigitCharacter));
    assert_eq!(Version::parse("1.0.0rc"), Err(Error::NonDigitCharacter));
    assert_eq!(Version::parse("1.0.0.0"), Err(Error::NonDigitCharacter));
    assert_eq!(Version::parse("1.0:.0"), Err(Error::NonDigitCharacter));
    assert_eq!(Version::parse("1.0/.0"), Err(Error::NonDigitCharacter));
    assert_eq!(Version::parse("v1.0.0"), Err(Error::NonDigitCharacter));
    assert_eq!(Version::parse(" 1.0.0"), Err(Error::NonDigitCharacter));
}

#[test]
fn parse_version_reports_first_bad_component() {
    assert_eq!(Version::parse(".x.0"), Err(Error::EmptyNumericComponent));
    assert_eq!(Version::parse("x..0"), Err(Error::NonDigitCharacter));
    assert_eq!(Version::parse("1.x."), Err(Error::NonDigitCharacter));
}

#[test]
fn plus_before_hyphen_is_no_build_marker() {
    assert_eq!(Version::parse("1.2.3+build"), Err(Error::NonDigitCharacter));
    assert_eq!(Version::parse("1.2.3+build-x"), Err(Error::NonDigitCharacter));
    assert_eq!(
        Version::parse("1.2.3-a-b+c+d"),
        Ok(Version { major: 1, minor: 2, patch: 3, pre: "a-b", build: "c+d" })
    );
    assert_eq!(
        Version::parse("1.2.3-+x"),
        Ok(Version { major: 1, minor: 2, patch: 3, pre: "", build: "x" })
    );
}

#[test]
fn parse_number_reads_decimal_digits() {
    assert_eq!(parse_number("0"), 0);
    assert_eq!(parse_number("7"), 7);
    assert_eq!(parse_number("42"), 42);
    assert_eq!(parse_number("007"), 7);
    assert_eq!(parse_number("1234567890"), 1234567890);
    assert_eq!(parse_number("18446744073709551615"), u64::MAX);
}

#[test]
fn parse_number_wraps_around() {
    assert_eq!(parse_number("18446744073709551616"), 0);
    assert_eq!(parse_number("18446744073709551617"), 1);
    assert_eq!(parse_number("36893488147419103232"), 0);
    assert_eq!(parse_number("100000000000000000000"), 7766279631452241920);
    assert_eq!(
        Version::parse("18446744073709551616.0.18446744073709551621"),
        Ok(Version { major: 0, minor: 0, patch: 5, pre: "", build: "" })
    );
}

#[test]
fn try_parse_number_accepts_digits() {
    assert_eq!(try_parse_number("0"), Ok(0));
    assert_eq!(try_parse_number("5114"), Ok(5114));
}

#[test]
fn try_parse_number_rejects_empty_text() {
    assert_eq!(try_parse_number(""), Err(Error::EmptyNumericComponent));
}

#[test]
fn try_parse_number_rejects_non_digits() {
    assert_eq!(try_parse_number("12a"), Err(Error::NonDigitCharacter));
    assert_eq!(try_parse_number("-1"), Err(Error::NonDigitCharacter));
    assert_eq!(try_parse_number("+1"), Err(Error::NonDigitCharacter));
    assert_eq!(try_parse_number("1 "), Err(Error::NonDigitCharacter));
    assert_eq!(try_parse_number(":"), Err(Error::NonDigitCharacter));
    assert_eq!(try_parse_number("/"), Err(Error::NonDigitCharacter));
    assert_eq!(try_parse_number("\u{663}"), Err(Error::NonDigitCharacter));
}

#[test]
fn version_to_string() {
    let version = Version { major: 1, minor: 4, patch: 2, pre: "beta.1", build: "exp.sha.5114f85" };
    assert_eq!(version.to_string(), "1.4.2-beta.1+exp.sha.5114f85");
    let version = Version { major: 2, minor: 0, patch: 0, pre: "", build: "" };
    assert_eq!(version.to_string(), "2.0.0");
    let version = Version { major: 0, minor: 10, patch: 3, pre: "rc.1", build: "" };
    assert_eq!(version.to_string(), "0.10.3-rc.1");
    let version = Version { major: 3, minor: 2, patch: 1, pre: "", build: "b7" };
    assert_eq!(version.to_string(), "3.2.1+b7");
}

#[test]
fn version_to_string_with_large_numbers() {
    let version = Version { major: u64::MAX, minor: 1000, patch: 10, pre: "", build: "" };
    assert_eq!(version.to_string(), "18446744073709551615.1000.10");
    let version = Version { major: 9, minor: 99, patch: 100, pre: "\u{3b1}", build: "" };
    assert_eq!(version.to_string(), "9.99.100-\u{3b1}");
}

#[test]
fn version_text_parses_back() {
    let texts = ["1.4.2-beta.1+exp.sha.5114f85", "2.0.0", "0.10.3-rc.1", "1.2.3-a-b+c+d", "0.0.0"];
    for text in texts {
        let version = Version::parse(text).unwrap();
        assert_eq!(version.to_string(), text);
    }
    let version = Version { major: 7, minor: 8, patch: 9, pre: "x.y", build: "z" };
    let text: &'static str = Box::leak(version.to_string().into_boxed_str());
    assert_eq!(Version::parse(text), Ok(version));
}
