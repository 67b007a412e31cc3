//! The hex view's selection and typing state machine.

use imghex_core::cursor::{printable_ascii, Caret, CaretEvent, EditPane};
use imghex_core::search::hex_digit_value;

fn arrows(right: bool, left: bool, down: bool, up: bool, shift: bool) -> CaretEvent {
    CaretEvent::Arrows { right, left, down, up, shift }
}

#[test]
fn loading_selects_the_first_byte() {
    let c = Caret::loaded(5);
    assert_eq!(c.anchor, Some(0));
    assert_eq!(c.cursor, Some(0));
    assert_eq!(c.pending_nibble, None);
    assert_eq!(c.pane, EditPane::Hex);
    let empty = Caret::loaded(0);
    assert_eq!(empty.cursor, None);
    assert_eq!(empty.selection(), None);
    assert_eq!(empty.selection_len(), 0);
}

#[test]
fn two_hex_digits_write_one_byte_and_advance() {
    let c = Caret::loaded(4);
    let (c1, w1) = c.step(CaretEvent::Typed('a'), 4);
    assert_eq!(w1, None);
    assert_eq!(c1.pending_nibble, Some(0xA));
    assert_eq!(c1.cursor, Some(0));
    let (c2, w2) = c1.step(CaretEvent::Typed('F'), 4);
    assert_eq!(w2, Some((0, 0xAF)));
    assert_eq!(c2.pending_nibble, None);
    assert_eq!(c2.cursor, Some(1));
    assert_eq!(c2.anchor, Some(1));
}

#[test]
fn typing_on_the_last_byte_stays_there() {
    let c = Caret { anchor: Some(2), cursor: Some(2), pending_nibble: Some(1), pane: EditPane::Hex };
    let (c1, w) = c.step(CaretEvent::Typed('0'), 3);
    assert_eq!(w, Some((2, 0x10)));
    assert_eq!(c1.cursor, Some(2));
}

#[test]
fn non_hex_characters_are_ignored() {
    let c = Caret { anchor: Some(0), cursor: Some(0), pending_nibble: Some(3), pane: EditPane::Hex };
    assert_eq!(c.step(CaretEvent::Typed('g'), 4), (c, None));
    assert_eq!(c.step(CaretEvent::Typed(' '), 4), (c, None));
}

#[test]
fn ascii_column_writes_printable_characters() {
    let c = Caret { anchor: Some(1), cursor: Some(1), pending_nibble: None, pane: EditPane::Ascii };
    let (c1, w) = c.step(CaretEvent::Typed('Z'), 4);
    assert_eq!(w, Some((1, b'Z')));
    assert_eq!(c1.cursor, Some(2));
    assert_eq!(c.step(CaretEvent::Typed('\n'), 4), (c, None));
    assert_eq!(c.step(CaretEvent::Typed('é'), 4), (c, None));
    assert_eq!(c.step(CaretEvent::Typed('\u{7f}'), 4), (c, None));
}

#[test]
fn arrows_move_within_the_buffer_and_drop_a_pending_nibble() {
    let c = Caret { anchor: Some(0), cursor: Some(0), pending_nibble: Some(7), pane: EditPane::Hex };
    let (c1, _) = c.step(arrows(true, false, false, false, false), 40);
    assert_eq!(c1.cursor, Some(1));
    assert_eq!(c1.pending_nibble, None);
    let (c2, _) = c1.step(arrows(false, false, true, false, false), 40);
    assert_eq!(c2.cursor, Some(17));
    let (c3, _) = c2.step(arrows(false, false, true, false, false), 40);
    assert_eq!(c3.cursor, Some(33));
    // A row down from 33 would pass the last byte (39): no move.
    let (c4, _) = c3.step(arrows(false, false, true, false, false), 40);
    assert_eq!(c4, c3);
    // Left at byte 0 does not move, so a pending nibble stays.
    assert_eq!(c.step(arrows(false, true, false, false, false), 40), (c, None));
}

#[test]
fn shift_arrows_extend_the_selection() {
    let c = Caret::loaded(100);
    let (c1, _) = c.step(arrows(false, false, true, false, true), 100);
    assert_eq!(c1.anchor, Some(0));
    assert_eq!(c1.cursor, Some(16));
    assert_eq!(c1.selection(), Some((0, 16)));
    assert_eq!(c1.selection_len(), 17);
    assert!(c1.is_selected(8));
    assert!(!c1.is_selected(17));
}

#[test]
fn presses_drags_jumps_and_matches_select() {
    let c = Caret::loaded(50);
    let (c1, _) = c.step(CaretEvent::Press { offset: 10, pane: EditPane::Ascii, shift: false }, 50);
    assert_eq!((c1.anchor, c1.cursor, c1.pane), (Some(10), Some(10), EditPane::Ascii));
    let (c2, _) = c1.step(CaretEvent::Drag(4), 50);
    assert_eq!(c2.selection(), Some((4, 10)));
    let (c3, _) = c2.step(CaretEvent::Press { offset: 20, pane: EditPane::Hex, shift: true }, 50);
    assert_eq!(c3.selection(), Some((10, 20)));
    let (c4, _) = c3.step(CaretEvent::Jump(49), 50);
    assert_eq!(c4.selection(), Some((49, 49)));
    assert_eq!(c4.step(CaretEvent::Jump(50), 50), (c4, None));
    let (c5, _) = c4.step(CaretEvent::Found { offset: 46, len: 4 }, 50);
    assert_eq!(c5.selection(), Some((46, 49)));
    let empty = Caret::loaded(0);
    assert_eq!(empty.step(CaretEvent::Drag(0), 1), (empty, None));
}

#[test]
fn hex_digits_and_printable_bytes() {
    assert_eq!(hex_digit_value('0'), Some(0));
    assert_eq!(hex_digit_value('9'), Some(9));
    assert_eq!(hex_digit_value('a'), Some(10));
    assert_eq!(hex_digit_value('F'), Some(15));
    assert_eq!(hex_digit_value('G'), None);
    assert_eq!(printable_ascii(' '), Some(0x20));
    assert_eq!(printable_ascii('~'), Some(0x7E));
    assert_eq!(printable_ascii('\t'), None);
}
