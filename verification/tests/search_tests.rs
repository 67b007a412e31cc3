//! Hex-pattern parsing and byte search.

use imghex_core::search::{find_all, find_next, parse_hex, parse_offset};

#[test]
fn parses_hex_variants() {
    assert_eq!(parse_hex("DEADBEEF"), Some(vec![0xDE, 0xAD, 0xBE, 0xEF]));
    assert_eq!(parse_hex("de ad be ef"), Some(vec![0xDE, 0xAD, 0xBE, 0xEF]));
    assert_eq!(parse_hex("0x42"), Some(vec![0x42]));
    assert_eq!(parse_hex(""), None);
    assert_eq!(parse_hex("abc"), None); // odd length
    assert_eq!(parse_hex("zz"), None); // not hex
}

#[test]
fn finds_all_occurrences() {
    let hay = b"BMxxBMyyBM";
    assert_eq!(find_all(hay, b"BM"), vec![0, 4, 8]);
    assert_eq!(find_all(hay, b"zz"), Vec::<usize>::new());
    assert_eq!(find_all(hay, b""), Vec::<usize>::new());
}

#[test]
fn finds_overlapping() {
    assert_eq!(find_all(b"aaaa", b"aa"), vec![0, 1, 2]);
}

#[test]
fn find_next_wraps_around() {
    let hay = b"BMxxBM";
    assert_eq!(find_next(hay, b"BM", 0), Some(0));
    assert_eq!(find_next(hay, b"BM", 1), Some(4));
    assert_eq!(find_next(hay, b"BM", 5), Some(0)); // wrapped
    assert_eq!(find_next(hay, b"zz", 0), None);
}

#[test]
fn goto_queries_parse_decimal_and_hex_offsets() {
    assert_eq!(parse_offset("42"), Some(42));
    assert_eq!(parse_offset("  42\n"), Some(42));
    assert_eq!(parse_offset("0x1F"), Some(31));
    assert_eq!(parse_offset("0X1f"), Some(31));
    assert_eq!(parse_offset("+7"), Some(7));
    assert_eq!(parse_offset("0x+a"), Some(10));
    assert_eq!(parse_offset("\u{3000}5\u{a0}"), Some(5));
    assert_eq!(parse_offset("007"), Some(7));
    assert_eq!(parse_offset(""), None);
    assert_eq!(parse_offset("0x"), None);
    assert_eq!(parse_offset("+"), None);
    assert_eq!(parse_offset("-1"), None);
    assert_eq!(parse_offset("1F"), None);
    assert_eq!(parse_offset("0x1g"), None);
    assert_eq!(parse_offset("4 2"), None);
    assert_eq!(parse_offset("99999999999999999999999999"), None);
    let max = usize::MAX.to_string();
    assert_eq!(parse_offset(&max), Some(usize::MAX));
    let hex_max = format!("0x{:x}", usize::MAX);
    assert_eq!(parse_offset(&hex_max), Some(usize::MAX));
    // Every query reads as std reads it.
    for q in ["12", " 0x10 ", "0xZZ", "+", "++1", "0x-1", "9a"] {
        let t = q.trim();
        let std = if let Some(h) = t.strip_prefix("0x").or_else(|| t.strip_prefix("0X")) {
            usize::from_str_radix(h, 16).ok()
        } else {
            t.parse::<usize>().ok()
        };
        assert_eq!(parse_offset(q), std, "{q}");
    }
}
