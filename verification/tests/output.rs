//! Byte counts, plurals, styles and tables.

use mvs::output::{
    bytes, current, ended, header_style, muted, pad, paint, plain, plural, Cell, Table,
};

/// The byte formatter: exact below 1 KiB, one decimal above, and each unit
/// boundary landing on the right unit.
#[test]
fn formats_bytes() {
    assert_eq!(bytes(0), "0 B");
    assert_eq!(bytes(532), "532 B");
    assert_eq!(bytes(1023), "1023 B");
    assert_eq!(bytes(1024), "1.0 KiB");
    assert_eq!(bytes(49368), "48.2 KiB");
    assert_eq!(bytes(50_000_000), "47.7 MiB");
    assert_eq!(bytes(3_000_000_000), "2.8 GiB");
    assert_eq!(bytes(2_000_000_000_000), "1.8 TiB");
}

/// Halves round to the even tenth, a count just under a unit may round up to
/// 1024.0 of the one before, and counts past the last unit stay in it.
#[test]
fn rounds_byte_counts() {
    assert_eq!(bytes(1024 + 256), "1.2 KiB");
    assert_eq!(bytes(1024 + 768), "1.8 KiB");
    assert_eq!(bytes(1024 * 1024 - 1), "1024.0 KiB");
    assert_eq!(bytes(1024 * 1024), "1.0 MiB");
    assert_eq!(bytes(-5), "-5 B");
    assert_eq!(bytes(i64::MIN), "-9223372036854775808 B");
    assert_eq!(bytes(i64::MAX), "8192.0 PiB");
    assert_eq!(bytes(1 << 50), "1.0 PiB");
    assert_eq!(bytes((1 << 50) - 1), "1024.0 TiB");
    assert_eq!(bytes(1_152_921_504_606_846_976), "1024.0 PiB");
    assert_eq!(bytes((1 << 60) - 1), "1024.0 PiB");
    assert_eq!(bytes(3 << 59), "1536.0 PiB");
    assert_eq!(bytes((1 << 60) - 128), "1024.0 PiB");
}

/// The same counts, scaled in floating point.
fn scaled(n: i64) -> String {
    if n < 1024 {
        return format!("{n} B");
    }
    let mut value = n as f64 / 1024.0;
    for unit in ["KiB", "MiB", "GiB", "TiB"] {
        if value < 1024.0 {
            return format!("{value:.1} {unit}");
        }
        value /= 1024.0;
    }
    format!("{value:.1} PiB")
}

/// Whole-number scaling agrees with floating point, around every power of two
/// and on a long walk in between.
#[test]
fn scales_as_floating_point_does() {
    for shift in 0..63 {
        let power = 1i64 << shift;
        for delta in -70i64..70 {
            let n = power.saturating_add(delta);
            assert_eq!(bytes(n), scaled(n), "{n}");
            let n = power.saturating_add(delta.saturating_mul(power / 40));
            assert_eq!(bytes(n), scaled(n), "{n}");
        }
    }
    let mut n: i64 = 1;
    for step in 0..20000i64 {
        n = n.wrapping_mul(6364136223846793005).wrapping_add(step | 1);
        assert_eq!(bytes(n), scaled(n), "{n}");
        let small = n.rem_euclid(1 << 40);
        assert_eq!(bytes(small), scaled(small), "{small}");
    }
}

/// One is singular and everything else is not.
#[test]
fn pluralises() {
    assert_eq!(plural(0, "revision"), "0 revisions");
    assert_eq!(plural(1, "revision"), "1 revision");
    assert_eq!(plural(3, "revision"), "3 revisions");
    assert_eq!(plural(1234567890, "path"), "1234567890 paths");
}

/// Each style writes its escape sequence around the text, and the plain one
/// writes none.
#[test]
fn paints_texts() {
    assert_eq!(paint("x", plain()), "x");
    assert_eq!(paint("x", header_style()), "\x1b[1mx\x1b[0m");
    assert_eq!(paint("x", muted()), "\x1b[2mx\x1b[0m");
    assert_eq!(paint("x", current()), "\x1b[32mx\x1b[0m");
    assert_eq!(paint("x", ended()), "\x1b[31mx\x1b[0m");
    assert_eq!(paint("", muted()), "\x1b[2m\x1b[0m");
}

/// Padding counts characters, never shortens, and leaves the last column be.
#[test]
fn pads_texts() {
    assert_eq!(pad("ab", 4, false), "ab  ");
    assert_eq!(pad("ab", 4, true), "ab");
    assert_eq!(pad("abcd", 2, false), "abcd");
    assert_eq!(pad("é", 3, false), "é  ");
}

/// Columns line up on the text whatever its colour, padding stays outside the
/// colour, and trailing space is dropped.
#[test]
fn prints_tables() {
    let mut table = Table::new(&["NAME", "N", "NOTE"]);
    table.row(vec![
        Cell::new("a".to_string(), current()),
        Cell::new("100".to_string(), plain()),
        Cell::new("".to_string(), muted()),
    ]);
    table.row(vec![
        Cell::new("longer".to_string(), plain()),
        Cell::new("".to_string(), muted()),
        Cell::new("x".to_string(), ended()),
    ]);
    assert_eq!(
        table.print(),
        vec![
            "\x1b[1mNAME    N    NOTE\x1b[0m".to_string(),
            "\x1b[32ma\x1b[0m       100".to_string(),
            "longer       \x1b[31mx\x1b[0m".to_string(),
        ]
    );
}

/// A table without rows prints nothing at all.
#[test]
fn prints_no_bare_headers() {
    assert!(Table::new(&["NAME", "N"]).print().is_empty());
}
