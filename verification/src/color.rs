//! An 8-bit-per-channel RGBA color, independent of any GUI toolkit.

use vstd::prelude::*;
use crate::text::{hex_digits, push_hex};

verus! {

/// An 8-bit-per-channel RGBA color.
#[derive(Clone, Copy, PartialEq, Eq, Debug, Hash, Structural)]
pub struct Rgba {
    pub r: u8,
    pub g: u8,
    pub b: u8,
    pub a: u8,
}

/// Two uppercase hexadecimal digits of a channel value.
pub open spec fn hex2(v: u8) -> Seq<char> {
    hex_digits(v as nat, 2)
}

/// The `#RRGGBB` text of an opaque color, `#RRGGBBAA` otherwise.
pub open spec fn hex_text(c: Rgba) -> Seq<char> {
    if c.a == 255 {
        "#"@ + hex2(c.r) + hex2(c.g) + hex2(c.b)
    } else {
        "#"@ + hex2(c.r) + hex2(c.g) + hex2(c.b) + hex2(c.a)
    }
}

impl Rgba {
    /// An opaque color.
    pub fn rgb(r: u8, g: u8, b: u8) -> (c: Self)
        ensures
            c == (Rgba { r, g, b, a: 255 }),
    {
        Rgba { r, g, b, a: 255 }
    }

    /// A color with an explicit alpha channel.
    pub fn rgba(r: u8, g: u8, b: u8, a: u8) -> (c: Self)
        ensures
            c == (Rgba { r, g, b, a }),
    {
        Rgba { r, g, b, a }
    }

    /// A `#RRGGBB` (or `#RRGGBBAA` when not fully opaque) hex string.
    pub fn to_hex(&self) -> (s: String)
        ensures
            s@ == hex_text(*self),
    {
        let mut s = String::new();
        s.append("#");
        push_hex(&mut s, self.r as u128, 2);
        push_hex(&mut s, self.g as u128, 2);
        push_hex(&mut s, self.b as u128, 2);
        if self.a != 255 {
            push_hex(&mut s, self.a as u128, 2);
        }
        assert(s@ =~= hex_text(*self));
        s
    }
}

} // verus!
