//! Version order, specs, and the text underneath.

use mvs::solve::Constraint;
use mvs::text::{decimal_text, join, parse_number, signed_text, trim_end};
use mvs::version::{compare, sort, Rank};

/// Versions compare part by part, numbers as numbers, and a pre-release comes
/// before its release.
#[test]
fn compares_versions() {
    let ascending = [
        "2.3pre1", "2.3", "2.3a", "2.3.1", "2.3.9", "2.3.10", "2.4", "10.0",
    ];
    for (i, a) in ascending.iter().enumerate() {
        for (j, b) in ascending.iter().enumerate() {
            let expected = if i < j {
                Rank::Older
            } else if i > j {
                Rank::Newer
            } else {
                Rank::Same
            };
            assert_eq!(compare(a, b), expected, "{a} {b}");
        }
    }
    assert_eq!(compare("1.0", "1-0"), Rank::Same);
    assert_eq!(compare("1.00", "1.0"), Rank::Same);
    assert_eq!(compare("", ""), Rank::Same);
    assert_eq!(
        compare("18446744073709551617", "18446744073709551616"),
        Rank::Newer
    );
}

/// Sorting keeps versions that rank alike in the order they came in.
#[test]
fn sorts_versions() {
    let mut versions: Vec<String> = ["1.10", "1.9", "1-9", "1.2"]
        .iter()
        .map(|v| v.to_string())
        .collect();
    sort(&mut versions);
    assert_eq!(versions, vec!["1.2", "1.9", "1-9", "1.10"]);
}

/// A wanted version matches itself and what goes on from it with a dot.
#[test]
fn matches_by_component() {
    assert!(mvs::solve::matches("3.8", "3.8"));
    assert!(mvs::solve::matches("3.8.9", "3.8"));
    assert!(!mvs::solve::matches("3.10.2", "3.1"));
    assert!(!mvs::solve::matches("3.8", "3.8.9"));
    assert!(!mvs::solve::matches("3.8", ""));
    assert!(mvs::solve::matches("", ""));
}

/// A spec splits at its first `@`; neither half may be empty.
#[test]
fn parses_specs() {
    let bare = Constraint::parse("hello").unwrap();
    assert_eq!(bare.attr, "hello");
    assert!(bare.version.is_none());
    assert_eq!(bare.describe(), "hello");
    let full = Constraint::parse("hello@1@2").unwrap();
    assert_eq!(full.attr, "hello");
    assert_eq!(full.version.as_deref(), Some("1@2"));
    assert_eq!(full.describe(), "hello@1@2");
    for bad in ["", "@", "@1", "hello@"] {
        let refused = Constraint::parse(bad).err().unwrap();
        assert_eq!(
            refused.message(),
            format!("{bad} is not a package. Give attr or attr@version.")
        );
    }
}

/// Numbers are written without leading zeros and read back.
#[test]
fn writes_numbers() {
    for n in [0u64, 7, 10, 999, u64::MAX] {
        assert_eq!(decimal_text(n), n.to_string());
    }
    for n in [0i64, -1, 42, i64::MIN, i64::MAX] {
        assert_eq!(signed_text(n), n.to_string());
        assert_eq!(parse_number(&n.to_string()), Some(n));
    }
    assert_eq!(parse_number("-9223372036854775809"), None);
    assert_eq!(parse_number("+-1"), None);
}

/// Trailing white space goes, of any kind; what is inside stays.
#[test]
fn trims_and_joins() {
    assert_eq!(trim_end(" a b \u{2003}\n"), " a b");
    assert_eq!(trim_end("   "), "");
    let parts: Vec<String> = vec!["a".to_string(), "".to_string(), "b".to_string()];
    assert_eq!(join(&parts, ", "), "a, , b");
    assert_eq!(join(&vec![], ", "), "");
}

/// Of every character, those dropped at the end of a line are those Rust
/// itself calls white space.
#[test]
fn trims_every_white_space() {
    for c in (0u32..0x11_0000).filter_map(char::from_u32) {
        let line = format!("x{c}");
        assert_eq!(trim_end(&line), line.trim_end(), "{c:?}");
    }
}
