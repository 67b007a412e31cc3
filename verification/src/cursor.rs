//! The hex view's selection and typing, as a state machine.
//!
//! The view reports what the user did (arrow keys, a typed character, a
//! press, a drag, a jump, a search match); `Caret::step` answers with the
//! next state and the byte to overwrite, if any. Edits never change the
//! buffer's length, so one length bounds every offset the state holds.

use vstd::prelude::*;
use crate::search::{hex_digit_value, hex_value};

verus! {

/// Bytes shown per row of the hex grid; the up and down arrows move by a row.
pub const BYTES_PER_ROW: usize = 16;

/// The column that typed characters overwrite.
#[derive(Clone, Copy, Debug, PartialEq, Eq, Structural)]
pub enum EditPane {
    Hex,
    Ascii,
}

/// Selection and typing state of the hex view.
#[derive(Clone, Copy, Debug, PartialEq, Eq, Structural)]
pub struct Caret {
    /// The fixed end of the selection (where a press or drag began).
    pub anchor: Option<usize>,
    /// The moving end of the selection: the byte that typing overwrites.
    pub cursor: Option<usize>,
    /// The high nibble of a hex byte typed halfway.
    pub pending_nibble: Option<u8>,
    /// The column that typed characters go to.
    pub pane: EditPane,
}

/// What the user did in the hex view.
#[derive(Clone, Copy, Debug, PartialEq, Eq, Structural)]
pub enum CaretEvent {
    /// The arrow keys pressed in one frame, and whether Shift was held.
    Arrows { right: bool, left: bool, down: bool, up: bool, shift: bool },
    /// A character typed.
    Typed(char),
    /// A press on byte `offset` of a column; Shift extends the selection.
    Press { offset: usize, pane: EditPane, shift: bool },
    /// The pointer dragged over byte `offset` with the button held.
    Drag(usize),
    /// A jump to byte `offset` (go-to, a click on the preview or the entropy strip).
    Jump(usize),
    /// A search match of `len` bytes at `offset`.
    Found { offset: usize, len: usize },
}

/// Whether every offset the state holds lies in a buffer of `len` bytes, and
/// a pending nibble is one hex digit.
pub open spec fn caret_wf(c: Caret, len: nat) -> bool {
    &&& (c.anchor matches Some(a) ==> a < len)
    &&& (c.cursor matches Some(x) ==> x < len)
    &&& (c.pending_nibble matches Some(n) ==> n < 16)
}

/// Whether the offsets an event names lie in a buffer of `len` bytes; a
/// search match also spans at least one byte.
pub open spec fn event_fits(e: CaretEvent, len: nat) -> bool {
    match e {
        CaretEvent::Press { offset, .. } => offset < len,
        CaretEvent::Drag(offset) => offset < len,
        CaretEvent::Found { offset, len: n } => offset < len && n >= 1 && offset + n <= usize::MAX,
        _ => true,
    }
}

/// The inclusive range `[start, end]` between anchor and cursor.
pub open spec fn spec_selection(c: Caret) -> Option<(usize, usize)> {
    match (c.anchor, c.cursor) {
        (Some(a), Some(x)) => Some(if a <= x { (a, x) } else { (x, a) }),
        _ => None,
    }
}

/// The byte of a printable ASCII character (space through `~`).
pub open spec fn printable_byte(ch: char) -> Option<u8> {
    if 0x20 <= (ch as u32) < 0x7f { Some(ch as u8) } else { None }
}

/// The cursor after the arrow keys of one frame, applied right, left, down,
/// up, each only where it stays in `[0, last]`; and whether any of them moved.
pub open spec fn arrow_moves(cur: int, last: int, right: bool, left: bool, down: bool, up: bool) -> (int, bool) {
    let r = right && cur < last;
    let c1 = if r { cur + 1 } else { cur };
    let l = left && c1 > 0;
    let c2 = if l { c1 - 1 } else { c1 };
    let d = down && c2 + BYTES_PER_ROW <= last;
    let c3 = if d { c2 + BYTES_PER_ROW } else { c2 };
    let u = up && c3 >= BYTES_PER_ROW;
    let c4 = if u { c3 - BYTES_PER_ROW } else { c3 };
    (c4, r || l || d || u)
}

/// The byte after `c`, kept on the last byte of a `len`-byte buffer.
pub open spec fn advanced(c: int, len: int) -> int {
    if c + 1 < len { c + 1 } else { len - 1 }
}

/// Writing `value` at the cursor `c`: the pending nibble is dropped and the
/// cursor moves on one byte, selecting it alone.
pub open spec fn spec_commit(s: Caret, c: usize, value: u8, len: nat) -> (Caret, Option<(usize, u8)>) {
    let next = advanced(c as int, len as int) as usize;
    (Caret { anchor: Some(next), cursor: Some(next), pending_nibble: None, pane: s.pane }, Some((c, value)))
}

/// The next state after an event in a `len`-byte buffer, and the overwrite it
/// asks for (offset and value), if any.
pub open spec fn spec_step(s: Caret, e: CaretEvent, len: nat) -> (Caret, Option<(usize, u8)>) {
    match e {
        CaretEvent::Arrows { right, left, down, up, shift } => {
            if len == 0 {
                (s, None)
            } else {
                let start: int = match s.cursor {
                    Some(x) => x as int,
                    None => 0,
                };
                let (cur, moved) = arrow_moves(start, len - 1, right, left, down, up);
                if !moved {
                    (s, None)
                } else {
                    let anchor = if shift && s.anchor is Some { s.anchor } else { Some(cur as usize) };
                    (Caret { anchor, cursor: Some(cur as usize), pending_nibble: None, pane: s.pane }, None)
                }
            }
        },
        CaretEvent::Typed(ch) => match s.cursor {
            None => (s, None),
            Some(c) => match s.pane {
                EditPane::Hex => match hex_value(ch) {
                    None => (s, None),
                    Some(n) => match s.pending_nibble {
                        None => (Caret { pending_nibble: Some(n as u8), ..s }, None),
                        Some(high) => spec_commit(s, c, (high * 16 + n) as u8, len),
                    },
                },
                EditPane::Ascii => match printable_byte(ch) {
                    None => (s, None),
                    Some(b) => spec_commit(s, c, b, len),
                },
            },
        },
        CaretEvent::Press { offset, pane, shift } => {
            let anchor = if shift && s.anchor is Some { s.anchor } else { Some(offset) };
            (Caret { anchor, cursor: Some(offset), pending_nibble: None, pane }, None)
        },
        CaretEvent::Drag(offset) => {
            if s.anchor is Some { (Caret { cursor: Some(offset), ..s }, None) } else { (s, None) }
        },
        CaretEvent::Jump(offset) => {
            if offset < len { (Caret { anchor: Some(offset), cursor: Some(offset), ..s }, None) } else { (s, None) }
        },
        CaretEvent::Found { offset, len: n } => {
            let end = if offset + n - 1 <= len - 1 { offset + n - 1 } else { len - 1 };
            (Caret { anchor: Some(offset), cursor: Some(end as usize), ..s }, None)
        },
    }
}

/// The byte of a printable ASCII character, the range the ASCII column shows
/// as text.
pub fn printable_ascii(ch: char) -> (r: Option<u8>)
    ensures
        r == printable_byte(ch),
{
    let code = ch as u32;
    if 0x20 <= code && code < 0x7f {
        Some(code as u8)
    } else {
        None
    }
}

impl Caret {
    /// The state for a freshly loaded buffer of `len` bytes: the first byte
    /// selected (nothing when empty), nothing pending, typing in hex.
    pub fn loaded(len: usize) -> (c: Caret)
        ensures
            c.anchor == (if len == 0 { None } else { Some(0usize) }),
            c.cursor == c.anchor,
            c.pending_nibble is None,
            c.pane == EditPane::Hex,
            caret_wf(c, len as nat),
    {
        let init = if len == 0 { None } else { Some(0usize) };
        Caret { anchor: init, cursor: init, pending_nibble: None, pane: EditPane::Hex }
    }

    /// The inclusive `[start, end]` selection range, if any.
    pub fn selection(&self) -> (r: Option<(usize, usize)>)
        ensures
            r == spec_selection(*self),
    {
        match (self.anchor, self.cursor) {
            (Some(a), Some(c)) => if a <= c { Some((a, c)) } else { Some((c, a)) },
            _ => None,
        }
    }

    /// The number of bytes selected.
    pub fn selection_len(&self) -> (n: usize)
        requires
            spec_selection(*self) matches Some((a, b)) ==> b - a < usize::MAX,
        ensures
            n == (match spec_selection(*self) {
                Some((a, b)) => b - a + 1,
                None => 0,
            }),
    {
        match self.selection() {
            Some((a, b)) => b - a + 1,
            None => 0,
        }
    }

    /// Whether byte `offset` lies in the selection.
    pub fn is_selected(&self, offset: usize) -> (r: bool)
        ensures
            r == (spec_selection(*self) matches Some((a, b)) && a <= offset <= b),
    {
        match self.selection() {
            Some((a, b)) => a <= offset && offset <= b,
            None => false,
        }
    }

    /// The next state after `event` in a buffer of `len` bytes, and the byte
    /// to overwrite (offset and value), if any. Every offset the state holds
    /// stays inside the buffer.
    pub fn step(&self, event: CaretEvent, len: usize) -> (r: (Caret, Option<(usize, u8)>))
        requires
            caret_wf(*self, len as nat),
            event_fits(event, len as nat),
        ensures
            r == spec_step(*self, event, len as nat),
            caret_wf(r.0, len as nat),
            r.1 matches Some((at, _)) ==> at < len,
    {
        proof {
            lemma_step_in_bounds(*self, event, len as nat);
        }
        let s = *self;
        match event {
            CaretEvent::Arrows { right, left, down, up, shift } => {
                if len == 0 {
                    return (s, None);
                }
                let last = len - 1;
                let mut cur = match s.cursor {
                    Some(x) => x,
                    None => 0,
                };
                let mut moved = false;
                if right && cur < last {
                    cur = cur + 1;
                    moved = true;
                }
                if left && cur > 0 {
                    cur = cur - 1;
                    moved = true;
                }
                if down && last >= BYTES_PER_ROW && cur <= last - BYTES_PER_ROW {
                    cur = cur + BYTES_PER_ROW;
                    moved = true;
                }
                if up && cur >= BYTES_PER_ROW {
                    cur = cur - BYTES_PER_ROW;
                    moved = true;
                }
                if !moved {
                    (s, None)
                } else {
                    let anchor = if shift && s.anchor.is_some() { s.anchor } else { Some(cur) };
                    (Caret { anchor, cursor: Some(cur), pending_nibble: None, pane: s.pane }, None)
                }
            },
            CaretEvent::Typed(ch) => match s.cursor {
                None => (s, None),
                Some(c) => match s.pane {
                    EditPane::Hex => match hex_digit_value(ch) {
                        None => (s, None),
                        Some(n) => match s.pending_nibble {
                            None => (Caret { anchor: s.anchor, cursor: s.cursor, pending_nibble: Some(n), pane: s.pane }, None),
                            Some(high) => {
                                assert(((high << 4u8) | n) == high * 16 + n) by (bit_vector)
                                    requires
                                        high < 16,
                                        n < 16,
                                ;
                                Self::commit(s, c, (high << 4u8) | n, len)
                            },
                        },
                    },
                    EditPane::Ascii => match printable_ascii(ch) {
                        None => (s, None),
                        Some(b) => Self::commit(s, c, b, len),
                    },
                },
            },
            CaretEvent::Press { offset, pane, shift } => {
                let anchor = if shift && s.anchor.is_some() { s.anchor } else { Some(offset) };
                (Caret { anchor, cursor: Some(offset), pending_nibble: None, pane }, None)
            },
            CaretEvent::Drag(offset) => {
                if s.anchor.is_some() {
                    (Caret { anchor: s.anchor, cursor: Some(offset), pending_nibble: s.pending_nibble, pane: s.pane }, None)
                } else {
                    (s, None)
                }
            },
            CaretEvent::Jump(offset) => {
                if offset < len {
                    (Caret { anchor: Some(offset), cursor: Some(offset), pending_nibble: s.pending_nibble, pane: s.pane }, None)
                } else {
                    (s, None)
                }
            },
            CaretEvent::Found { offset, len: n } => {
                let end = if offset + n - 1 <= len - 1 { offset + n - 1 } else { len - 1 };
                (Caret { anchor: Some(offset), cursor: Some(end), pending_nibble: s.pending_nibble, pane: s.pane }, None)
            },
        }
    }

    /// Write `value` at the cursor `c`, then select the next byte alone.
    fn commit(s: Caret, c: usize, value: u8, len: usize) -> (r: (Caret, Option<(usize, u8)>))
        requires
            c < len,
        ensures
            r == spec_commit(s, c, value, len as nat),
    {
        let next = if c + 1 < len { c + 1 } else { len - 1 };
        (Caret { anchor: Some(next), cursor: Some(next), pending_nibble: None, pane: s.pane }, Some((c, value)))
    }
}

/// Every step keeps the anchor and the cursor inside the buffer and a pending
/// nibble below 16, and asks to overwrite only a byte inside the buffer.
pub proof fn lemma_step_in_bounds(s: Caret, e: CaretEvent, len: nat)
    requires
        caret_wf(s, len),
        event_fits(e, len),
    ensures
        caret_wf(spec_step(s, e, len).0, len),
        spec_step(s, e, len).1 matches Some((at, _)) ==> at < len,
{
    match e {
        CaretEvent::Typed(ch) => {
            if let Some(n) = hex_value(ch) {
                assert(n < 16);
                assert(n as u8 == n);
            }
        },
        _ => {},
    }
}

/// Typing two hex digits at the cursor writes the byte they spell there
/// (the first digit high), then moves on to the next byte with nothing
/// pending; the first digit alone writes nothing.
pub proof fn lemma_two_hex_digits_write_a_byte(s: Caret, hi: char, lo: char, len: nat)
    requires
        caret_wf(s, len),
        s.cursor is Some,
        s.pane == EditPane::Hex,
        s.pending_nibble is None,
        hex_value(hi) is Some,
        hex_value(lo) is Some,
    ensures
        ({
            let c = s.cursor->0;
            let (s1, w1) = spec_step(s, CaretEvent::Typed(hi), len);
            let (s2, w2) = spec_step(s1, CaretEvent::Typed(lo), len);
            &&& w1 is None
            &&& s1.cursor == s.cursor
            &&& s1.pending_nibble == Some(hex_value(hi)->0 as u8)
            &&& w2 == Some((c, (hex_value(hi)->0 * 16 + hex_value(lo)->0) as u8))
            &&& s2.pending_nibble is None
            &&& s2.cursor == Some(advanced(c as int, len as int) as usize)
            &&& s2.anchor == s2.cursor
        }),
{
}

/// Moving the cursor with the arrow keys, or pressing a byte, abandons a
/// half-typed hex byte; a character that is not a hex digit leaves it.
pub proof fn lemma_moving_drops_pending(s: Caret, e: CaretEvent, len: nat)
    ensures
        (e matches CaretEvent::Press { .. }) ==> spec_step(s, e, len).0.pending_nibble is None,
        (e matches CaretEvent::Arrows { .. }) && spec_step(s, e, len).0.cursor != s.cursor
            ==> spec_step(s, e, len).0.pending_nibble is None,
        (e matches CaretEvent::Typed(ch) && s.pane == EditPane::Hex && hex_value(ch) is None)
            ==> spec_step(s, e, len) == (s, None::<(usize, u8)>),
{
}

} // verus!
