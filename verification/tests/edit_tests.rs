//! Byte overwrites and their effect on parsing.

use imghex_core::edit::overwrite_byte;
use imghex_core::{fixtures, parse_auto};

#[test]
fn overwrite_reports_whether_it_changed() {
    let mut bytes = vec![0x10, 0x20, 0x30];
    // A real change returns true and mutates the buffer.
    assert!(overwrite_byte(&mut bytes, 1, 0x99));
    assert_eq!(bytes[1], 0x99);
    // Writing the same value is a no-op.
    assert!(!overwrite_byte(&mut bytes, 1, 0x99));
    // Out-of-range offsets are ignored, not a panic.
    assert!(!overwrite_byte(&mut bytes, 99, 0x00));
    assert_eq!(bytes, vec![0x10, 0x99, 0x30]);
}

#[test]
fn edit_changes_what_the_parser_sees() {
    // An overwrite feeds straight back into `parse_auto`: corrupting the BMP
    // magic makes the parser reject the file.
    let mut bytes = fixtures::demo_indexed();
    assert!(parse_auto(&bytes).is_ok(), "demo fixture should parse");
    assert!(overwrite_byte(&mut bytes, 0, 0x00)); // was 'B' (0x42)
    assert!(parse_auto(&bytes).is_err(), "corrupting the magic must break the parse");
}

#[test]
fn edit_preserves_length_so_offsets_stay_valid() {
    // Overwrites never change the buffer length.
    let mut bytes = fixtures::demo_indexed();
    let before = bytes.len();
    overwrite_byte(&mut bytes, before / 2, 0xAB);
    assert_eq!(bytes.len(), before);
}
