//! The parsed representation of an image file and per-offset decoding.
//!
//! [`ParsedImage`] is what a format parser produces: coarse [`Region`]s for
//! coloring, fine-grained [`Field`]s, a summary, and (when applicable) a
//! palette and a [`PixelInfo`] describing how to interpret the pixel data.
//! Given a byte offset, [`ParsedImage::describe`] assembles a
//! [`SelectionInfo`] for the sidebar: a byte in the pixel data of an indexed
//! image is resolved to its palette color.

use vstd::prelude::*;
use crate::color::{hex_text, Rgba};
use crate::field::{Field, FieldView};
use crate::region::{kind_color, Region, RegionKind};
use crate::text::{dec, push_dec};

verus! {

broadcast use vstd::arithmetic::div_mod::lemma_fundamental_div_mod;

/// How the bytes in the pixel-data region encode samples.
#[derive(Clone, Copy, PartialEq, Eq, Debug, Structural)]
pub enum PixelEncoding {
    /// Each pixel is an index into the palette. `bits` is 1, 4, or 8.
    Indexed { bits: u8 },
    /// Direct color stored as B, G, R (`bytes == 3`) or B, G, R, A (`bytes == 4`).
    BgrDirect { bytes: u8 },
    /// Direct color stored as R, G, B (`bytes == 3`) or R, G, B, A (`bytes == 4`).
    RgbDirect { bytes: u8 },
    /// One byte per pixel holding the gray level.
    Grayscale,
}

/// An encoding whose pixel arithmetic is defined: a non-zero bit depth for
/// indexed data, a non-zero pixel size for direct color.
pub open spec fn encoding_ok(e: PixelEncoding) -> bool {
    match e {
        PixelEncoding::Indexed { bits } => bits > 0,
        PixelEncoding::BgrDirect { bytes } => bytes > 0,
        PixelEncoding::RgbDirect { bytes } => bytes > 0,
        PixelEncoding::Grayscale => true,
    }
}

/// Bytes per pixel of a direct-color or grayscale encoding.
pub open spec fn spec_bytes_per_pixel(e: PixelEncoding) -> Option<nat> {
    match e {
        PixelEncoding::Indexed { .. } => None,
        PixelEncoding::BgrDirect { bytes } => Some(bytes as nat),
        PixelEncoding::RgbDirect { bytes } => Some(bytes as nat),
        PixelEncoding::Grayscale => Some(1),
    }
}

/// The name of channel `idx` within a direct-color or grayscale pixel.
pub open spec fn channel_text(e: PixelEncoding, idx: int) -> Seq<char> {
    match e {
        PixelEncoding::Grayscale => "Gray"@,
        PixelEncoding::BgrDirect { .. } =>
            if idx == 0 { "Blue"@ } else if idx == 1 { "Green"@ } else if idx == 2 { "Red"@ }
            else if idx == 3 { "Alpha"@ } else { "?"@ },
        PixelEncoding::RgbDirect { .. } =>
            if idx == 0 { "Red"@ } else if idx == 1 { "Green"@ } else if idx == 2 { "Blue"@ }
            else if idx == 3 { "Alpha"@ } else { "?"@ },
        PixelEncoding::Indexed { .. } => "?"@,
    }
}

/// The alpha of a four-byte pixel whose alpha byte sits at `at`.
pub open spec fn alpha_at(raw: Seq<u8>, at: int) -> u8 {
    if at < raw.len() { raw[at] } else { 255 }
}

/// The color of the direct-color or grayscale pixel that begins at `ps`.
pub open spec fn spec_read_direct(e: PixelEncoding, ps: int, raw: Seq<u8>) -> Option<Rgba> {
    match e {
        PixelEncoding::Grayscale =>
            if ps < raw.len() { Some(Rgba { r: raw[ps], g: raw[ps], b: raw[ps], a: 255 }) } else { None },
        PixelEncoding::BgrDirect { bytes } =>
            if ps + 2 < raw.len() {
                Some(Rgba { r: raw[ps + 2], g: raw[ps + 1], b: raw[ps], a: if bytes == 4 { alpha_at(raw, ps + 3) } else { 255 } })
            } else {
                None
            },
        PixelEncoding::RgbDirect { bytes } =>
            if ps + 2 < raw.len() {
                Some(Rgba { r: raw[ps], g: raw[ps + 1], b: raw[ps + 2], a: if bytes == 4 { alpha_at(raw, ps + 3) } else { 255 } })
            } else {
                None
            },
        PixelEncoding::Indexed { .. } => None,
    }
}

/// Entry `i` of a palette, if it exists.
pub open spec fn palette_get(palette: Seq<Rgba>, i: int) -> Option<Rgba> {
    if 0 <= i < palette.len() { Some(palette[i]) } else { None }
}

impl PixelEncoding {
    /// Bytes consumed per pixel for direct/gray encodings (`None` for indexed).
    pub fn bytes_per_pixel(&self) -> (r: Option<usize>)
        ensures
            r matches Some(n) ==> spec_bytes_per_pixel(*self) == Some(n as nat),
            r is None ==> spec_bytes_per_pixel(*self) is None,
    {
        match self {
            PixelEncoding::Indexed { .. } => None,
            PixelEncoding::BgrDirect { bytes } => Some(*bytes as usize),
            PixelEncoding::RgbDirect { bytes } => Some(*bytes as usize),
            PixelEncoding::Grayscale => Some(1),
        }
    }

    /// The channel name of byte `idx` within a pixel.
    pub fn channel_name(&self, idx: usize) -> (s: &'static str)
        ensures
            s@ == channel_text(*self, idx as int),
    {
        match self {
            PixelEncoding::Grayscale => "Gray",
            PixelEncoding::BgrDirect { .. } =>
                if idx == 0 { "Blue" } else if idx == 1 { "Green" } else if idx == 2 { "Red" }
                else if idx == 3 { "Alpha" } else { "?" },
            PixelEncoding::RgbDirect { .. } =>
                if idx == 0 { "Red" } else if idx == 1 { "Green" } else if idx == 2 { "Blue" }
                else if idx == 3 { "Alpha" } else { "?" },
            PixelEncoding::Indexed { .. } => "?",
        }
    }

    /// Resolve the color of a direct/gray pixel that begins at `pixel_start`.
    pub fn read_direct(&self, pixel_start: usize, raw: &[u8]) -> (r: Option<Rgba>)
        ensures
            r == spec_read_direct(*self, pixel_start as int, raw@),
    {
        let n = raw.len();
        match self {
            PixelEncoding::Grayscale => {
                if pixel_start < n {
                    let v = raw[pixel_start];
                    Some(Rgba::rgb(v, v, v))
                } else {
                    None
                }
            },
            PixelEncoding::BgrDirect { bytes } => {
                if pixel_start < n && pixel_start + 1 < n && pixel_start + 2 < n {
                    let b = raw[pixel_start];
                    let g = raw[pixel_start + 1];
                    let r = raw[pixel_start + 2];
                    let a = if *bytes == 4 {
                        if pixel_start + 3 < n { raw[pixel_start + 3] } else { 255 }
                    } else {
                        255
                    };
                    Some(Rgba::rgba(r, g, b, a))
                } else {
                    None
                }
            },
            PixelEncoding::RgbDirect { bytes } => {
                if pixel_start < n && pixel_start + 1 < n && pixel_start + 2 < n {
                    let r = raw[pixel_start];
                    let g = raw[pixel_start + 1];
                    let b = raw[pixel_start + 2];
                    let a = if *bytes == 4 {
                        if pixel_start + 3 < n { raw[pixel_start + 3] } else { 255 }
                    } else {
                        255
                    };
                    Some(Rgba::rgba(r, g, b, a))
                } else {
                    None
                }
            },
            PixelEncoding::Indexed { .. } => None,
        }
    }
}

/// Everything needed to map a byte offset within the pixel data to a pixel
/// coordinate and, for indexed images, a palette index.
#[derive(Clone, Copy, Debug, PartialEq, Eq, Structural)]
pub struct PixelInfo {
    /// File offset where pixel data begins.
    pub data_start: usize,
    pub width: u32,
    /// Absolute image height (see `top_down`).
    pub height: u32,
    /// Whether row 0 is the top row.
    pub top_down: bool,
    /// Bytes per row, including padding.
    pub row_stride: usize,
    pub encoding: PixelEncoding,
}

/// A decoded pixel location and its resolved value.
#[derive(Clone, Debug, PartialEq)]
pub struct PixelLocation {
    pub x: u32,
    pub y: u32,
    /// Palette index, for indexed encodings.
    pub palette_index: Option<u32>,
    /// The resolved color, when it can be determined.
    pub color: Option<Rgba>,
    /// Extra per-byte notes (e.g. "channel: Blue", "row padding").
    pub notes: Vec<(String, String)>,
}

/// The text content of key/value lines.
pub open spec fn pairs_view(v: Seq<(String, String)>) -> Seq<(Seq<char>, Seq<char>)> {
    v.map_values(|p: (String, String)| (p.0@, p.1@))
}

/// The mathematical content of a pixel location.
pub struct LocationView {
    pub x: u32,
    pub y: u32,
    pub palette_index: Option<u32>,
    pub color: Option<Rgba>,
    pub notes: Seq<(Seq<char>, Seq<char>)>,
}

impl View for PixelLocation {
    type V = LocationView;

    open spec fn view(&self) -> LocationView {
        LocationView {
            x: self.x,
            y: self.y,
            palette_index: self.palette_index,
            color: self.color,
            notes: pairs_view(self.notes@),
        }
    }
}

/// One pixel encoded within a byte.
#[derive(Clone, Copy, Debug, PartialEq, Eq, Structural)]
pub struct PixelSample {
    pub x: u32,
    pub y: u32,
    pub palette_index: Option<u32>,
    pub color: Option<Rgba>,
}

/// A named color chip for the sidebar.
#[derive(Clone, Debug, PartialEq)]
pub struct Swatch {
    pub label: String,
    pub color: Rgba,
}

/// A fully decoded image in top-down, row-major RGBA order.
#[derive(Clone, Debug, PartialEq)]
pub struct RenderedImage {
    pub width: u32,
    pub height: u32,
    /// `width * height` pixels, row 0 at the top.
    pub pixels: Vec<Rgba>,
}

/// A color channel selectable for bit-plane analysis.
#[derive(Clone, Copy, PartialEq, Eq, Debug, Structural)]
pub enum Channel {
    Red,
    Green,
    Blue,
    /// Rec. 601 luminance.
    Luma,
}

/// The display name of a bit-plane channel.
pub open spec fn channel_label(c: Channel) -> Seq<char> {
    match c {
        Channel::Red => "Red"@,
        Channel::Green => "Green"@,
        Channel::Blue => "Blue"@,
        Channel::Luma => "Luminance"@,
    }
}

/// The display name of a bit-plane channel.
pub fn channel_name(c: Channel) -> (s: &'static str)
    ensures
        s@ == channel_label(c),
{
    match c {
        Channel::Red => "Red",
        Channel::Green => "Green",
        Channel::Blue => "Blue",
        Channel::Luma => "Luminance",
    }
}

/// The value a bit plane reads from a pixel, given its luminance.
pub open spec fn channel_value(channel: Channel, c: Rgba, luma: u8) -> u8 {
    match channel {
        Channel::Red => c.r,
        Channel::Green => c.g,
        Channel::Blue => c.b,
        Channel::Luma => luma,
    }
}

/// Whether bit `bit` of `v` is set.
pub open spec fn bit_set(v: u8, bit: u8) -> bool {
    (v >> bit) & 1u8 == 1u8
}

impl RenderedImage {
    /// The pixel at `(x, y)`, top-left origin.
    pub fn pixel(&self, x: u32, y: u32) -> (r: Option<Rgba>)
        ensures
            r == (if x >= self.width || y >= self.height {
                None
            } else {
                palette_get(self.pixels@, y * self.width + x)
            }),
    {
        if x >= self.width || y >= self.height {
            return None;
        }
        proof { lemma_mul_bounded(y as int, self.width as int, 0xffff_ffff, 0xffff_ffff); }
        let idx: u64 = (y as u64) * (self.width as u64) + (x as u64);
        if idx < self.pixels.len() as u64 {
            Some(self.pixels[idx as usize])
        } else {
            None
        }
    }

    /// Extract one bit plane: `true` where bit `bit` (0 = LSB) of the chosen
    /// channel is set. Row-major, top-down, matching `pixels`. `luma` holds the
    /// Rec. 601 luminance of each pixel and is read for [`Channel::Luma`] only.
    pub fn bit_plane(&self, channel: Channel, bit: u8, luma: &[u8]) -> (plane: Vec<bool>)
        requires
            bit < 8,
            channel == Channel::Luma ==> luma.len() == self.pixels.len(),
        ensures
            plane.len() == self.pixels.len(),
            forall|i: int| 0 <= i < plane.len() ==> #[trigger] plane@[i] == bit_set(
                channel_value(channel, self.pixels@[i], if channel == Channel::Luma { luma@[i] } else { 0 }),
                bit,
            ),
    {
        let n = self.pixels.len();
        let mut plane: Vec<bool> = Vec::new();
        let mut i: usize = 0;
        while i < n
            invariant
                n == self.pixels.len(),
                i <= n,
                bit < 8,
                channel == Channel::Luma ==> luma.len() == n,
                plane.len() == i,
                forall|k: int| 0 <= k < i ==> #[trigger] plane@[k] == bit_set(
                    channel_value(channel, self.pixels@[k], if channel == Channel::Luma { luma@[k] } else { 0 }),
                    bit,
                ),
            decreases n - i,
        {
            let c = self.pixels[i];
            let v = match channel {
                Channel::Red => c.r,
                Channel::Green => c.g,
                Channel::Blue => c.b,
                Channel::Luma => luma[i],
            };
            plane.push((v >> bit) & 1 == 1);
            i = i + 1;
        }
        plane
    }
}

/// A pixel layout whose row and channel arithmetic is defined.
pub open spec fn pixel_info_ok(pi: PixelInfo) -> bool {
    pi.row_stride > 0 && encoding_ok(pi.encoding)
}

/// The image row of storage row `row`.
pub open spec fn image_y(pi: PixelInfo, row: int) -> u32 {
    if pi.top_down { row as u32 } else { (pi.height - 1 - row) as u32 }
}

/// The palette index held by packed pixel `k` (0 = leftmost) of `byte`.
pub open spec fn packed_index(bits: u8, byte: u8, k: int) -> u32 {
    if bits == 1 {
        ((byte >> ((7 - k) as u8)) & 1u8) as u32
    } else if bits == 4 {
        ((byte >> ((4 * (1 - k)) as u8)) & 0xFu8) as u32
    } else {
        byte as u32
    }
}

/// The palette index `locate` reports for the first pixel of `byte`.
pub open spec fn first_index(bits: u8, byte: u8) -> u32 {
    if bits == 8 { byte as u32 } else if bits == 4 { (byte >> 4u8) as u32 } else if bits == 1 { (byte >> 7u8) as u32 } else { byte as u32 }
}

/// The notes `locate` attaches to an indexed pixel byte.
pub open spec fn packing_notes(bits: u8, first_x: int) -> Seq<(Seq<char>, Seq<char>)> {
    if bits == 4 {
        seq![("Packing"@, "2 px/byte — high nibble x="@ + dec(first_x as nat) + ", low nibble x="@ + dec((first_x + 1) as nat))]
    } else if bits == 1 {
        seq![("Packing"@, "8 px/byte — MSB is leftmost pixel"@)]
    } else {
        seq![]
    }
}

/// The note marking a row-padding byte.
pub open spec fn padding_note() -> Seq<(Seq<char>, Seq<char>)> {
    seq![("Region"@, "row padding (beyond image width)"@)]
}

/// What `locate` reports for byte `offset`.
pub open spec fn spec_locate(pi: PixelInfo, offset: int, raw: Seq<u8>, palette: Seq<Rgba>) -> Option<LocationView> {
    if offset < pi.data_start {
        None
    } else {
        let rel = offset - pi.data_start;
        let row = rel / (pi.row_stride as int);
        let col = rel % (pi.row_stride as int);
        let y = image_y(pi, row);
        if row >= pi.height {
            None
        } else {
            match pi.encoding {
                PixelEncoding::Indexed { bits } => {
                    if offset >= raw.len() {
                        None
                    } else {
                        let byte = raw[offset];
                        let ppb = 8int / (bits as int);
                        let first_x = col * ppb;
                        if first_x >= pi.width {
                            Some(LocationView { x: first_x as u32, y, palette_index: None, color: None, notes: padding_note() })
                        } else {
                            let index = first_index(bits, byte);
                            Some(LocationView {
                                x: first_x as u32,
                                y,
                                palette_index: Some(index),
                                color: palette_get(palette, index as int),
                                notes: packing_notes(bits, first_x),
                            })
                        }
                    }
                },
                _ => {
                    let bpp = spec_bytes_per_pixel(pi.encoding).unwrap() as int;
                    let x = col / bpp;
                    if x >= pi.width {
                        Some(LocationView { x: x as u32, y, palette_index: None, color: None, notes: padding_note() })
                    } else {
                        let pixel_start = pi.data_start + row * pi.row_stride + x * bpp;
                        Some(LocationView {
                            x: x as u32,
                            y,
                            palette_index: None,
                            color: spec_read_direct(pi.encoding, pixel_start, raw),
                            notes: seq![("Channel"@, channel_text(pi.encoding, col % bpp))],
                        })
                    }
                },
            }
        }
    }
}

/// The pixels `samples` reports for byte `offset`.
pub open spec fn spec_samples(pi: PixelInfo, offset: int, raw: Seq<u8>, palette: Seq<Rgba>) -> Seq<PixelSample> {
    if offset < pi.data_start || offset >= raw.len() {
        seq![]
    } else {
        let rel = offset - pi.data_start;
        let row = rel / (pi.row_stride as int);
        let col = rel % (pi.row_stride as int);
        let y = image_y(pi, row);
        let byte = raw[offset];
        if row >= pi.height {
            seq![]
        } else {
            match pi.encoding {
                PixelEncoding::Indexed { bits } => {
                    let ppb = 8int / (bits as int);
                    let first_x = col * ppb;
                    let count = if first_x >= pi.width { 0 } else if pi.width - first_x < ppb { pi.width - first_x } else { ppb };
                    Seq::new(count as nat, |k: int| PixelSample {
                        x: (first_x + k) as u32,
                        y,
                        palette_index: Some(packed_index(bits, byte, k)),
                        color: palette_get(palette, packed_index(bits, byte, k) as int),
                    })
                },
                _ => {
                    let bpp = spec_bytes_per_pixel(pi.encoding).unwrap() as int;
                    let x = col / bpp;
                    if x < pi.width {
                        seq![PixelSample {
                            x: x as u32,
                            y,
                            palette_index: None,
                            color: spec_read_direct(pi.encoding, pi.data_start + row * pi.row_stride + x * bpp, raw),
                        }]
                    } else {
                        seq![]
                    }
                },
            }
        }
    }
}

/// The storage row holding image row `y`.
pub open spec fn file_row(pi: PixelInfo, y: int) -> int {
    if pi.top_down { y } else { pi.height - 1 - y }
}

/// The file offset of the byte encoding image pixel `(x, y)`.
pub open spec fn spec_byte_offset(pi: PixelInfo, x: int, y: int) -> int {
    let row_start = pi.data_start + file_row(pi, y) * pi.row_stride;
    match pi.encoding {
        PixelEncoding::Indexed { bits } => row_start + (x * bits) / 8,
        _ => row_start + x * spec_bytes_per_pixel(pi.encoding).unwrap(),
    }
}

/// The palette index of image pixel `x` in `byte` at a given depth.
pub open spec fn index_in_byte(bits: int, byte: u8, x: int) -> int {
    if bits == 8 {
        byte as int
    } else if bits == 4 {
        if x % 2 == 0 { (byte >> 4u8) as int } else { (byte & 0x0Fu8) as int }
    } else if bits == 1 {
        ((byte >> ((7 - x % 8) as u8)) & 1u8) as int
    } else {
        byte as int
    }
}

/// The color of image pixel `(x, y)`.
pub open spec fn spec_color_at(pi: PixelInfo, x: int, y: int, raw: Seq<u8>, palette: Seq<Rgba>) -> Option<Rgba> {
    if x >= pi.width || y >= pi.height {
        None
    } else {
        let at = spec_byte_offset(pi, x, y);
        match pi.encoding {
            PixelEncoding::Indexed { bits } =>
                if at < raw.len() { palette_get(palette, index_in_byte(bits as int, raw[at], x)) } else { None },
            _ => spec_read_direct(pi.encoding, at, raw),
        }
    }
}

/// Whether every row of `pi` holds its `width` pixels, and packed pixels
/// divide their bytes evenly (1, 4 or 8 bits each).
pub open spec fn rows_hold_pixels(pi: PixelInfo) -> bool {
    match pi.encoding {
        PixelEncoding::Indexed { bits } => (bits == 1 || bits == 4 || bits == 8) && pi.width * bits <= 8 * pi.row_stride,
        _ => pi.width * spec_bytes_per_pixel(pi.encoding).unwrap() <= pi.row_stride,
    }
}

/// Jumping to a pixel's first byte and locating that byte comes back to the
/// pixel: the byte lies in row `y`, and at column `x` for direct color; for
/// packed indexed pixels it is the byte holding `x`, whose first pixel is
/// reported.
pub proof fn lemma_locate_byte_offset(pi: PixelInfo, x: int, y: int, raw: Seq<u8>, palette: Seq<Rgba>)
    requires
        pixel_info_ok(pi),
        rows_hold_pixels(pi),
        0 <= x < pi.width,
        0 <= y < pi.height,
        spec_byte_offset(pi, x, y) < raw.len(),
    ensures
        spec_locate(pi, spec_byte_offset(pi, x, y), raw, palette) matches Some(loc) && loc.y == y && match pi.encoding {
            PixelEncoding::Indexed { bits } => loc.x <= x < loc.x + 8int / (bits as int),
            _ => loc.x == x,
        },
{
    let stride = pi.row_stride as int;
    let fr = file_row(pi, y);
    assert(0 <= fr < pi.height);
    assert(0 <= fr * stride) by (nonlinear_arith)
        requires 0 <= fr, stride > 0;
    match pi.encoding {
        PixelEncoding::Indexed { bits } => {
            let b = bits as int;
            let within = (x * b) / 8;
            assert(0 <= (x * b) / 8 < stride) by (nonlinear_arith)
                requires 0 <= x < pi.width, pi.width * b <= 8 * stride, b > 0;
            vstd::arithmetic::div_mod::lemma_fundamental_div_mod_converse(fr * stride + within, stride, fr, within);
            let off = spec_byte_offset(pi, x, y);
            assert(off - pi.data_start == fr * stride + within);
            assert((off - pi.data_start) / stride == fr);
            assert((off - pi.data_start) % stride == within);
            assert(image_y(pi, fr) == y);
            if b == 8 {
                assert((x * 8) / 8 == x) by (nonlinear_arith);
                assert(8int / b == 1) by (nonlinear_arith) requires b == 8;
            } else if b == 4 {
                assert((x * 4) / 8 == x / 2) by (nonlinear_arith) requires x >= 0;
                assert((x / 2) * 2 <= x < (x / 2) * 2 + 2) by (nonlinear_arith) requires x >= 0;
                assert(8int / b == 2) by (nonlinear_arith) requires b == 4;
            } else {
                assert((x * 1) / 8 == x / 8);
                assert((x / 8) * 8 <= x < (x / 8) * 8 + 8) by (nonlinear_arith) requires x >= 0;
                assert(8int / b == 8) by (nonlinear_arith) requires b == 1;
            }
        },
        _ => {
            let bpp = spec_bytes_per_pixel(pi.encoding).unwrap() as int;
            assert(bpp > 0);
            let within = x * bpp;
            assert(0 <= x * bpp && x * bpp + bpp <= stride) by (nonlinear_arith)
                requires 0 <= x < pi.width, pi.width * bpp <= stride, bpp > 0;
            vstd::arithmetic::div_mod::lemma_fundamental_div_mod_converse(fr * stride + within, stride, fr, within);
            vstd::arithmetic::div_mod::lemma_fundamental_div_mod_converse(within, bpp, x, 0);
        },
    }
}

/// The samples the inspector lists for the byte holding a pixel include that
/// pixel, with the color `color_at` gives it.
#[verifier::rlimit(30)]
pub proof fn lemma_samples_include_pixel(pi: PixelInfo, x: int, y: int, raw: Seq<u8>, palette: Seq<Rgba>)
    requires
        pixel_info_ok(pi),
        rows_hold_pixels(pi),
        0 <= x < pi.width,
        0 <= y < pi.height,
        spec_byte_offset(pi, x, y) < raw.len(),
    ensures
        ({
            let ss = spec_samples(pi, spec_byte_offset(pi, x, y), raw, palette);
            exists|k: int| 0 <= k < ss.len() && #[trigger] ss[k].x == x && ss[k].y == y
                && ss[k].color == spec_color_at(pi, x, y, raw, palette)
        }),
{
    let stride = pi.row_stride as int;
    let fr = file_row(pi, y);
    let off = spec_byte_offset(pi, x, y);
    let ss = spec_samples(pi, off, raw, palette);
    assert(0 <= fr < pi.height);
    assert(0 <= fr * stride) by (nonlinear_arith)
        requires 0 <= fr, stride > 0;
    match pi.encoding {
        PixelEncoding::Indexed { bits } => {
            let b = bits as int;
            let within = (x * b) / 8;
            assert(0 <= (x * b) / 8 < stride) by (nonlinear_arith)
                requires 0 <= x < pi.width, pi.width * b <= 8 * stride, b > 0;
            vstd::arithmetic::div_mod::lemma_fundamental_div_mod_converse(fr * stride + within, stride, fr, within);
            assert((off - pi.data_start) / stride == fr);
            assert((off - pi.data_start) % stride == within);
            assert(image_y(pi, fr) == y);
            let byte = raw[off];
            if b == 8 {
                assert((x * 8) / 8 == x) by (nonlinear_arith);
                assert(8int / b == 1) by (nonlinear_arith) requires b == 8;
                assert(ss[0].x == x);
            } else if b == 4 {
                assert((x * 4) / 8 == x / 2) by (nonlinear_arith) requires x >= 0;
                assert((x / 2) * 2 <= x < (x / 2) * 2 + 2) by (nonlinear_arith) requires x >= 0;
                assert(8int / b == 2) by (nonlinear_arith) requires b == 4;
                let k = x - (x / 2) * 2;
                assert(k == x % 2);
                assert(ss[k].x == x);
                if k == 0 {
                    assert(((byte >> 4u8) & 0xFu8) == byte >> 4u8) by (bit_vector);
                    assert(packed_index(bits, byte, 0) as int == index_in_byte(4, byte, x));
                } else {
                    assert(((byte >> 0u8) & 0xFu8) == byte & 0x0Fu8) by (bit_vector);
                    assert(packed_index(bits, byte, 1) as int == index_in_byte(4, byte, x));
                }
            } else {
                assert(b == 1);
                assert((x * 1) / 8 == x / 8);
                assert((x / 8) * 8 <= x < (x / 8) * 8 + 8) by (nonlinear_arith) requires x >= 0;
                assert(8int / b == 8) by (nonlinear_arith) requires b == 1;
                let k = x - (x / 8) * 8;
                assert(k == x % 8);
                assert(ss[k].x == x);
                assert(packed_index(bits, byte, k) as int == index_in_byte(1, byte, x));
            }
        },
        _ => {
            let bpp = spec_bytes_per_pixel(pi.encoding).unwrap() as int;
            assert(bpp > 0);
            let within = x * bpp;
            assert(0 <= x * bpp && x * bpp + bpp <= stride) by (nonlinear_arith)
                requires 0 <= x < pi.width, pi.width * bpp <= stride, bpp > 0;
            vstd::arithmetic::div_mod::lemma_fundamental_div_mod_converse(fr * stride + within, stride, fr, within);
            vstd::arithmetic::div_mod::lemma_fundamental_div_mod_converse(within, bpp, x, 0);
            assert(image_y(pi, fr) == y);
            assert(ss[0].x == x);
        },
    }
}

/// Every sample the inspector lists for a byte is a pixel of the image that
/// the byte encodes: inside the image, with the color `color_at` gives it,
/// and jumping to it lands on that byte (for direct color, on the first byte
/// of the pixel holding it). Packed pixels run consecutively from the first
/// one, at most `8 / bits` of them; direct color gives at most one.
#[verifier::rlimit(40)]
pub proof fn lemma_samples_are_pixels(pi: PixelInfo, offset: int, raw: Seq<u8>, palette: Seq<Rgba>)
    requires
        pixel_info_ok(pi),
        rows_hold_pixels(pi),
    ensures
        ({
            let ss = spec_samples(pi, offset, raw, palette);
            &&& forall|k: int| 0 <= k < ss.len() ==> {
                let smp = #[trigger] ss[k];
                let o = spec_byte_offset(pi, smp.x as int, smp.y as int);
                &&& smp.x < pi.width
                &&& smp.y < pi.height
                &&& smp.color == spec_color_at(pi, smp.x as int, smp.y as int, raw, palette)
                &&& match pi.encoding {
                    PixelEncoding::Indexed { .. } => o == offset && smp.x == ss[0].x + k,
                    _ => o <= offset < o + spec_bytes_per_pixel(pi.encoding).unwrap(),
                }
            }
            &&& match pi.encoding {
                PixelEncoding::Indexed { bits } => ss.len() <= 8int / (bits as int),
                _ => ss.len() <= 1,
            }
        }),
{
    let ss = spec_samples(pi, offset, raw, palette);
    if offset < pi.data_start || offset >= raw.len() {
        return;
    }
    let stride = pi.row_stride as int;
    let rel = offset - pi.data_start;
    let row = rel / stride;
    let col = rel % stride;
    lemma_div_mod_recombine(rel, stride);
    if row >= pi.height {
        return;
    }
    let y = image_y(pi, row);
    assert(y < pi.height && file_row(pi, y as int) == row);
    let byte = raw[offset];
    match pi.encoding {
        PixelEncoding::Indexed { bits } => {
            let b = bits as int;
            let ppb = 8int / b;
            let first_x = col * ppb;
            assert(0 <= first_x) by (nonlinear_arith) requires col >= 0, ppb >= 0, first_x == col * ppb;
            assert forall|k: int| 0 <= k < ss.len() implies {
                let smp = #[trigger] ss[k];
                let o = spec_byte_offset(pi, smp.x as int, smp.y as int);
                &&& smp.x < pi.width
                &&& smp.y < pi.height
                &&& smp.color == spec_color_at(pi, smp.x as int, smp.y as int, raw, palette)
                &&& o == offset && smp.x == ss[0].x + k
            } by {
                let x = first_x + k;
                assert(ss[k].x == x && ss[0].x == first_x);
                if b == 8 {
                    assert(ppb == 1) by (nonlinear_arith) requires b == 8, ppb == 8int / b;
                    assert(k == 0);
                    assert((x * 8) / 8 == col) by (nonlinear_arith) requires x == col * 1 + k, k == 0;
                } else if b == 4 {
                    assert(ppb == 2) by (nonlinear_arith) requires b == 4, ppb == 8int / b;
                    assert((x * 4) / 8 == col) by (nonlinear_arith) requires x == col * 2 + k, 0 <= k < 2, col >= 0;
                    assert(x % 2 == k) by (nonlinear_arith) requires x == col * 2 + k, 0 <= k < 2, col >= 0;
                    if k == 0 {
                        assert(((byte >> 4u8) & 0xFu8) == byte >> 4u8) by (bit_vector);
                    } else {
                        assert(((byte >> 0u8) & 0xFu8) == byte & 0x0Fu8) by (bit_vector);
                    }
                    assert(packed_index(bits, byte, k) as int == index_in_byte(4, byte, x));
                } else {
                    assert(b == 1);
                    assert(ppb == 8) by (nonlinear_arith) requires b == 1, ppb == 8int / b;
                    assert((x * 1) / 8 == col) by (nonlinear_arith) requires x == col * 8 + k, 0 <= k < 8, col >= 0;
                    assert(x % 8 == k) by (nonlinear_arith) requires x == col * 8 + k, 0 <= k < 8, col >= 0;
                    assert(packed_index(bits, byte, k) as int == index_in_byte(1, byte, x));
                }
                assert(spec_byte_offset(pi, x, y as int) == pi.data_start + row * stride + col);
            }
        },
        _ => {
            let bpp = spec_bytes_per_pixel(pi.encoding).unwrap() as int;
            assert(bpp > 0);
            let x = col / bpp;
            lemma_div_mod_recombine(col, bpp);
            if x < pi.width {
                assert(ss[0].x == x);
                assert((x as u32) as int == x);
                assert(spec_byte_offset(pi, x, y as int) == pi.data_start + row * stride + x * bpp);
            }
        },
    }
}

/// What `locate` reports for a byte of pixel data (rather than row padding)
/// agrees with the pixel decoding: the pixel it names (for a packed byte, the
/// leftmost one it holds) lies in the image and has the color `color_at`
/// gives it, and for indexed images the palette index and color are those of
/// the byte's first sample.
#[verifier::rlimit(30)]
pub proof fn lemma_locate_agrees_with_pixels(pi: PixelInfo, offset: int, raw: Seq<u8>, palette: Seq<Rgba>)
    requires
        pixel_info_ok(pi),
        rows_hold_pixels(pi),
    ensures
        spec_locate(pi, offset, raw, palette) matches Some(loc) ==> (loc.palette_index is Some || loc.color is Some) ==> {
            &&& loc.x < pi.width
            &&& loc.y < pi.height
            &&& loc.color == spec_color_at(pi, loc.x as int, loc.y as int, raw, palette)
            &&& (pi.encoding is Indexed ==> {
                let ss = spec_samples(pi, offset, raw, palette);
                &&& ss.len() > 0
                &&& ss[0].x == loc.x && ss[0].y == loc.y
                &&& ss[0].palette_index == loc.palette_index
                &&& ss[0].color == loc.color
            })
        },
{
    if offset < pi.data_start {
        return;
    }
    let stride = pi.row_stride as int;
    let rel = offset - pi.data_start;
    let row = rel / stride;
    let col = rel % stride;
    lemma_div_mod_recombine(rel, stride);
    if row >= pi.height {
        return;
    }
    let y = image_y(pi, row);
    assert(y < pi.height && file_row(pi, y as int) == row);
    match pi.encoding {
        PixelEncoding::Indexed { bits } => {
            if offset >= raw.len() {
                return;
            }
            let byte = raw[offset];
            let b = bits as int;
            let ppb = 8int / b;
            let x = col * ppb;
            if x < pi.width {
                if b == 8 {
                    assert(ppb == 1) by (nonlinear_arith) requires b == 8, ppb == 8int / b;
                    assert(x == col) by (nonlinear_arith) requires x == col * ppb, ppb == 1;
                    assert((x * 8) / 8 == col);
                } else if b == 4 {
                    assert(ppb == 2) by (nonlinear_arith) requires b == 4, ppb == 8int / b;
                    assert(x == col * 2) by (nonlinear_arith) requires x == col * ppb, ppb == 2;
                    assert((x * 4) / 8 == col) by (nonlinear_arith) requires x == col * 2, col >= 0;
                    assert(x % 2 == 0) by (nonlinear_arith) requires x == col * 2, col >= 0;
                    assert(((byte >> 4u8) & 0xFu8) == byte >> 4u8) by (bit_vector);
                } else {
                    assert(b == 1);
                    assert(ppb == 8) by (nonlinear_arith) requires b == 1, ppb == 8int / b;
                    assert(x == col * 8) by (nonlinear_arith) requires x == col * ppb, ppb == 8;
                    assert((x * 1) / 8 == col) by (nonlinear_arith) requires x == col * 8, col >= 0;
                    assert(x % 8 == 0) by (nonlinear_arith) requires x == col * 8, col >= 0;
                    assert(((byte >> 7u8) & 1u8) == byte >> 7u8) by (bit_vector);
                }
                assert(spec_byte_offset(pi, x, y as int) == offset);
                assert(first_index(bits, byte) as int == index_in_byte(b, byte, x));
                assert(packed_index(bits, byte, 0) == first_index(bits, byte));
                let loc = spec_locate(pi, offset, raw, palette)->0;
                assert(loc.x as int == x && loc.y == y);
                assert(spec_color_at(pi, x, y as int, raw, palette) == palette_get(palette, index_in_byte(b, byte, x)));
                let ss = spec_samples(pi, offset, raw, palette);
                assert(ss.len() >= 1);
                assert(ss[0].x == loc.x && ss[0].palette_index == Some(packed_index(bits, byte, 0)));
            }
        },
        _ => {
            let bpp = spec_bytes_per_pixel(pi.encoding).unwrap() as int;
            let x = col / bpp;
            lemma_div_mod_recombine(col, bpp);
            if x < pi.width {
                assert(spec_byte_offset(pi, x, y as int) == pi.data_start + row * stride + x * bpp);
            }
        },
    }
}

/// Quotient and remainder recombine to the dividend.
proof fn lemma_div_mod_recombine(a: int, d: int)
    requires
        a >= 0,
        d > 0,
    ensures
        (a / d) * d + a % d == a,
        0 <= a % d < d,
        0 <= a / d <= a,
{
    assert(a == d * (a / d) + a % d);
    assert((a / d) * d == d * (a / d)) by (nonlinear_arith);
    assert(a / d <= a) by (nonlinear_arith)
        requires a >= 0, d > 0, a == d * (a / d) + a % d, 0 <= a % d;
}

/// A product of bounded non-negative numbers is bounded.
proof fn lemma_mul_bounded(a: int, b: int, amax: int, bmax: int)
    requires
        0 <= a <= amax,
        0 <= b <= bmax,
    ensures
        0 <= a * b <= amax * bmax,
{
    assert(0 <= a * b <= amax * bmax) by (nonlinear_arith)
        requires 0 <= a <= amax, 0 <= b <= bmax;
}

/// A fresh pair of strings.
fn text_pair(k: &str, v: &str) -> (p: (String, String))
    ensures
        p.0@ == k@,
        p.1@ == v@,
{
    (String::from_str(k), String::from_str(v))
}

impl PixelInfo {
    /// Resolve a pixel-data byte offset to a location. Returns `None` if the
    /// offset is not inside the pixel data.
    ///
    /// `palette` is consulted for indexed encodings; `raw` is the full file so
    /// direct-color pixels can read their neighboring channel bytes.
    pub fn locate(&self, offset: usize, raw: &[u8], palette: &[Rgba]) -> (r: Option<PixelLocation>)
        requires
            offset >= self.data_start ==> pixel_info_ok(*self),
        ensures
            r matches Some(loc) ==> spec_locate(*self, offset as int, raw@, palette@) == Some(loc@),
            r is None ==> spec_locate(*self, offset as int, raw@, palette@) is None,
    {
        if offset < self.data_start {
            return None;
        }
        let rel = offset - self.data_start;
        let row = rel / self.row_stride;
        if row >= self.height as usize {
            return None;
        }
        let col_byte = rel % self.row_stride;
        let y = if self.top_down { row as u32 } else { self.height - 1 - row as u32 };
        let mut notes: Vec<(String, String)> = Vec::new();
        match self.encoding {
            PixelEncoding::Indexed { bits } => {
                if offset >= raw.len() {
                    return None;
                }
                let byte = raw[offset];
                let ppb = (8 / bits) as u128;
                proof { lemma_mul_bounded(col_byte as int, ppb as int, 0xffff_ffff_ffff_ffff, 8); }
                let first_x: u128 = (col_byte as u128) * ppb;
                if first_x >= self.width as u128 {
                    notes.push(text_pair("Region", "row padding (beyond image width)"));
                    assert(pairs_view(notes@) =~= padding_note());
                    return Some(PixelLocation { x: first_x as u32, y, palette_index: None, color: None, notes });
                }
                let index: u32 = if bits == 8 {
                    byte as u32
                } else if bits == 4 {
                    let mut label = String::new();
                    label.append("2 px/byte — high nibble x=");
                    push_dec(&mut label, first_x);
                    label.append(", low nibble x=");
                    push_dec(&mut label, first_x + 1);
                    notes.push((String::from_str("Packing"), label));
                    (byte >> 4) as u32
                } else if bits == 1 {
                    notes.push(text_pair("Packing", "8 px/byte — MSB is leftmost pixel"));
                    (byte >> 7) as u32
                } else {
                    byte as u32
                };
                assert(pairs_view(notes@) =~= packing_notes(bits, first_x as int));
                let color = if (index as usize) < palette.len() { Some(palette[index as usize]) } else { None };
                Some(PixelLocation { x: first_x as u32, y, palette_index: Some(index), color, notes })
            },
            _ => {
                let bpp = match self.encoding.bytes_per_pixel() {
                    Some(b) => b,
                    None => { return None; },
                };
                let x = col_byte / bpp;
                if x >= self.width as usize {
                    notes.push(text_pair("Region", "row padding (beyond image width)"));
                    assert(pairs_view(notes@) =~= padding_note());
                    return Some(PixelLocation { x: x as u32, y, palette_index: None, color: None, notes });
                }
                let channel_idx = col_byte % bpp;
                notes.push(text_pair("Channel", self.encoding.channel_name(channel_idx)));
                proof {
                    lemma_div_mod_recombine(rel as int, self.row_stride as int);
                    lemma_div_mod_recombine(col_byte as int, bpp as int);
                }
                let pixel_start = offset - channel_idx;
                let color = self.encoding.read_direct(pixel_start, raw);
                assert(pairs_view(notes@) =~= seq![("Channel"@, channel_text(self.encoding, channel_idx as int))]);
                Some(PixelLocation { x: x as u32, y, palette_index: None, color, notes })
            },
        }
    }

    /// The color of image pixel `(x, y)` (top-left origin), or `None` if out of
    /// bounds or undecodable.
    #[verifier::spinoff_prover]
    pub fn color_at(&self, x: u32, y: u32, raw: &[u8], palette: &[Rgba]) -> (r: Option<Rgba>)
        ensures
            r == spec_color_at(*self, x as int, y as int, raw@, palette@),
    {
        if x >= self.width || y >= self.height {
            return None;
        }
        let frow: u128 = if self.top_down { y as u128 } else { (self.height - 1 - y) as u128 };
        proof {
            lemma_mul_bounded(frow as int, self.row_stride as int, 0xffff_ffff, 0xffff_ffff_ffff_ffff);
            lemma_mul_bounded(x as int, 0xff, 0xffff_ffff, 0xff);
        }
        let row_start: u128 = (self.data_start as u128) + frow * (self.row_stride as u128);
        let at: u128 = match self.encoding {
            PixelEncoding::Indexed { bits } => {
                proof { lemma_mul_bounded(x as int, bits as int, 0xffff_ffff, 0xff); }
                row_start + ((x as u128) * (bits as u128)) / 8
            },
            PixelEncoding::BgrDirect { bytes } => {
                proof { lemma_mul_bounded(x as int, bytes as int, 0xffff_ffff, 0xff); }
                row_start + (x as u128) * (bytes as u128)
            },
            PixelEncoding::RgbDirect { bytes } => {
                proof { lemma_mul_bounded(x as int, bytes as int, 0xffff_ffff, 0xff); }
                row_start + (x as u128) * (bytes as u128)
            },
            PixelEncoding::Grayscale => row_start + (x as u128),
        };
        assert(at == spec_byte_offset(*self, x as int, y as int));
        if at >= raw.len() as u128 {
            match self.encoding {
                PixelEncoding::Indexed { .. } => { return None; },
                _ => {
                    assert(spec_read_direct(self.encoding, at as int, raw@) is None);
                    return None;
                },
            }
        }
        let at = at as usize;
        match self.encoding {
            PixelEncoding::Indexed { bits } => {
                let byte = raw[at];
                let index: usize = if bits == 8 {
                    byte as usize
                } else if bits == 4 {
                    if x % 2 == 0 { (byte >> 4) as usize } else { (byte & 0x0F) as usize }
                } else if bits == 1 {
                    ((byte >> ((7 - x % 8) as u8)) & 1) as usize
                } else {
                    byte as usize
                };
                if index < palette.len() { Some(palette[index]) } else { None }
            },
            _ => self.encoding.read_direct(at, raw),
        }
    }

    /// The file offset of the byte that encodes image pixel `(x, y)` (top-left
    /// origin). For sub-byte indexed depths this is the byte holding the pixel.
    pub fn byte_offset_of(&self, x: u32, y: u32) -> (r: Option<usize>)
        requires
            x < self.width && y < self.height ==> spec_byte_offset(*self, x as int, y as int) <= usize::MAX,
        ensures
            r == (if x >= self.width || y >= self.height {
                None
            } else {
                Some(spec_byte_offset(*self, x as int, y as int) as usize)
            }),
    {
        if x >= self.width || y >= self.height {
            return None;
        }
        let frow: u128 = if self.top_down { y as u128 } else { (self.height - 1 - y) as u128 };
        proof {
            lemma_mul_bounded(frow as int, self.row_stride as int, 0xffff_ffff, 0xffff_ffff_ffff_ffff);
            lemma_mul_bounded(x as int, 0xff, 0xffff_ffff, 0xff);
        }
        let row_start: u128 = (self.data_start as u128) + frow * (self.row_stride as u128);
        let at: u128 = match self.encoding {
            PixelEncoding::Indexed { bits } => {
                proof { lemma_mul_bounded(x as int, bits as int, 0xffff_ffff, 0xff); }
                row_start + ((x as u128) * (bits as u128)) / 8
            },
            PixelEncoding::BgrDirect { bytes } => {
                proof { lemma_mul_bounded(x as int, bytes as int, 0xffff_ffff, 0xff); }
                row_start + (x as u128) * (bytes as u128)
            },
            PixelEncoding::RgbDirect { bytes } => {
                proof { lemma_mul_bounded(x as int, bytes as int, 0xffff_ffff, 0xff); }
                row_start + (x as u128) * (bytes as u128)
            },
            PixelEncoding::Grayscale => row_start + (x as u128),
        };
        assert(at == spec_byte_offset(*self, x as int, y as int));
        Some(at as usize)
    }

    /// Every pixel encoded by the byte at `offset`: all packed pixels for
    /// sub-byte indexed depths, a single sample otherwise. Empty if `offset`
    /// is outside the data or falls in row padding.
    pub fn samples(&self, offset: usize, raw: &[u8], palette: &[Rgba]) -> (out: Vec<PixelSample>)
        requires
            offset >= self.data_start ==> pixel_info_ok(*self),
        ensures
            out@ == spec_samples(*self, offset as int, raw@, palette@),
    {
        if offset < self.data_start || offset >= raw.len() {
            return Vec::new();
        }
        let rel = offset - self.data_start;
        let row = rel / self.row_stride;
        if row >= self.height as usize {
            return Vec::new();
        }
        let col_byte = rel % self.row_stride;
        let y = if self.top_down { row as u32 } else { self.height - 1 - row as u32 };
        let byte = raw[offset];
        let mut out: Vec<PixelSample> = Vec::new();
        match self.encoding {
            PixelEncoding::Indexed { bits } => {
                let ppb = (8 / bits) as u128;
                proof { lemma_mul_bounded(col_byte as int, ppb as int, 0xffff_ffff_ffff_ffff, 8); }
                let first_x: u128 = (col_byte as u128) * ppb;
                let ghost whole = spec_samples(*self, offset as int, raw@, palette@);
                let ghost count: int = if first_x >= self.width { 0 } else if self.width - first_x < ppb { self.width - first_x } else { ppb as int };
                let ghost expected = Seq::new(count as nat, |j: int| PixelSample {
                    x: (first_x + j) as u32,
                    y,
                    palette_index: Some(packed_index(bits, byte, j)),
                    color: palette_get(palette@, packed_index(bits, byte, j) as int),
                });
                assert(whole == expected);
                let mut k: u128 = 0;
                while k < ppb
                    invariant_except_break
                        ppb == 8int / (bits as int),
                        bits > 0,
                        first_x == col_byte * ppb,
                        k <= ppb,
                        k <= count,
                        count == (if first_x >= self.width { 0 } else if self.width - first_x < ppb { self.width - first_x } else { ppb as int }),
                        whole == expected,
                        expected.len() == count,
                        forall|j: int| 0 <= j < count ==> #[trigger] expected[j] == (PixelSample {
                            x: (first_x + j) as u32,
                            y,
                            palette_index: Some(packed_index(bits, byte, j)),
                            color: palette_get(palette@, packed_index(bits, byte, j) as int),
                        }),
                        first_x + k < 0xffff_ffff_ffff_ffff_ffff,
                        out@ =~= whole.subrange(0, k as int),
                    ensures
                        out@ =~= whole,
                    decreases ppb - k,
                {
                    let x = first_x + k;
                    if x >= self.width as u128 {
                        break;
                    }
                    let index: u32 = if bits == 1 {
                        ((byte >> ((7 - k) as u8)) & 1) as u32
                    } else if bits == 4 {
                        ((byte >> ((4 * (1 - k)) as u8)) & 0xF) as u32
                    } else {
                        byte as u32
                    };
                    assert(index == packed_index(bits, byte, k as int));
                    let color = if (index as usize) < palette.len() { Some(palette[index as usize]) } else { None };
                    out.push(PixelSample { x: x as u32, y, palette_index: Some(index), color });
                    assert(color == palette_get(palette@, index as int));
                    assert(expected[k as int] == PixelSample { x: x as u32, y, palette_index: Some(index), color });
                    k = k + 1;
                }
            },
            _ => {
                let bpp = match self.encoding.bytes_per_pixel() {
                    Some(b) => b,
                    None => { return out; },
                };
                let x = col_byte / bpp;
                if x < self.width as usize {
                    proof {
                        lemma_div_mod_recombine(rel as int, self.row_stride as int);
                        lemma_div_mod_recombine(col_byte as int, bpp as int);
                    }
                    let pixel_start = offset - col_byte % bpp;
                    out.push(PixelSample { x: x as u32, y, palette_index: None, color: self.encoding.read_direct(pixel_start, raw) });
                }
                assert(out@ =~= spec_samples(*self, offset as int, raw@, palette@));
            },
        }
        out
    }
}


/// How a palette is laid out on disk.
#[derive(Clone, Copy, Debug, PartialEq, Eq, Structural)]
pub struct PaletteInfo {
    pub start: usize,
    /// Bytes per palette entry (4 for `RGBQUAD`, 3 for `RGBTRIPLE`).
    pub entry_size: usize,
    pub count: usize,
}

/// The complete parsed model of an image file.
#[derive(Clone, Debug)]
pub struct ParsedImage {
    pub format_name: String,
    /// Non-overlapping coarse regions, sorted by `start`.
    pub regions: Vec<Region>,
    /// Fine-grained leaf fields (headers), sorted by `start`.
    pub fields: Vec<Field>,
    /// Key/value facts for the summary panel.
    pub summary: Vec<(String, String)>,
    /// Resolved palette colors (empty for non-indexed images).
    pub palette: Vec<Rgba>,
    /// On-disk palette layout, if present.
    pub palette_info: Option<PaletteInfo>,
    /// Pixel-data interpretation, if the parser could determine it.
    pub pixel_info: Option<PixelInfo>,
}

/// The mathematical content of a parsed image.
#[verifier::ext_equal]
pub struct ParsedView {
    pub format_name: Seq<char>,
    pub regions: Seq<crate::region::RegionView>,
    pub fields: Seq<FieldView>,
    pub summary: Seq<(Seq<char>, Seq<char>)>,
    pub palette: Seq<Rgba>,
    pub palette_info: Option<PaletteInfo>,
    pub pixel_info: Option<PixelInfo>,
}

impl View for ParsedImage {
    type V = ParsedView;

    open spec fn view(&self) -> ParsedView {
        ParsedView {
            format_name: self.format_name@,
            regions: crate::region::regions_view(self.regions@),
            fields: crate::field::fields_view(self.fields@),
            summary: pairs_view(self.summary@),
            palette: self.palette@,
            palette_info: self.palette_info,
            pixel_info: self.pixel_info,
        }
    }
}

/// The decoded description of a single selected byte.
#[derive(Clone, Debug, PartialEq)]
pub struct SelectionInfo {
    pub offset: usize,
    pub byte: u8,
    pub region_kind: Option<RegionKind>,
    pub region_name: Option<String>,
    pub field: Option<Field>,
    /// Additional decoded key/value lines specific to this byte.
    pub details: Vec<(String, String)>,
    /// Color chips for this byte: a palette entry, or every pixel packed into it.
    pub swatches: Vec<Swatch>,
}

/// The mathematical content of a selection description.
pub struct SelectionView {
    pub offset: usize,
    pub byte: u8,
    pub region_kind: Option<RegionKind>,
    pub region_name: Option<Seq<char>>,
    pub field: Option<FieldView>,
    pub details: Seq<(Seq<char>, Seq<char>)>,
    pub swatches: Seq<(Seq<char>, Rgba)>,
}

/// The label and color of each swatch.
pub open spec fn swatches_view(v: Seq<Swatch>) -> Seq<(Seq<char>, Rgba)> {
    v.map_values(|w: Swatch| (w.label@, w.color))
}

impl View for SelectionInfo {
    type V = SelectionView;

    open spec fn view(&self) -> SelectionView {
        SelectionView {
            offset: self.offset,
            byte: self.byte,
            region_kind: self.region_kind,
            region_name: match self.region_name { Some(n) => Some(n@), None => None },
            field: match self.field { Some(f) => Some(f@), None => None },
            details: pairs_view(self.details@),
            swatches: swatches_view(self.swatches@),
        }
    }
}

/// The first region at index `i` or later that contains `offset`.
pub open spec fn first_region_from(rs: Seq<Region>, offset: int, i: int) -> Option<int>
    decreases rs.len() - i,
{
    if i < 0 || i >= rs.len() {
        None
    } else if rs[i].start <= offset < rs[i].end {
        Some(i)
    } else {
        first_region_from(rs, offset, i + 1)
    }
}

proof fn lemma_first_region_from(rs: Seq<Region>, offset: int, i: int)
    ensures
        first_region_from(rs, offset, i) matches Some(j) ==> i <= j < rs.len() && rs[j].start <= offset < rs[j].end,
    decreases rs.len() - i,
{
    if 0 <= i < rs.len() {
        lemma_first_region_from(rs, offset, i + 1);
    }
}

proof fn lemma_best_field_upto(fs: Seq<Field>, offset: int, n: int)
    ensures
        best_field_upto(fs, offset, n) matches Some(b) ==> 0 <= b < n && b < fs.len() && fs[b].start <= offset < fs[b].end,
    decreases n,
{
    if 0 < n <= fs.len() {
        lemma_best_field_upto(fs, offset, n - 1);
    }
}

/// The index of the first region containing `offset`.
pub open spec fn region_index(rs: Seq<Region>, offset: int) -> Option<int> {
    first_region_from(rs, offset, 0)
}

/// Among the first `n` fields, the first shortest one containing `offset`.
pub open spec fn best_field_upto(fs: Seq<Field>, offset: int, n: int) -> Option<int>
    decreases n,
{
    if n <= 0 || n > fs.len() {
        None
    } else {
        let prev = best_field_upto(fs, offset, n - 1);
        let f = fs[n - 1];
        if f.start <= offset < f.end {
            match prev {
                None => Some(n - 1),
                Some(b) => if f.end - f.start < fs[b].end - fs[b].start { Some(n - 1) } else { Some(b) },
            }
        } else {
            prev
        }
    }
}

/// The index of the innermost (shortest, first among equals) field containing `offset`.
pub open spec fn field_index(fs: Seq<Field>, offset: int) -> Option<int> {
    best_field_upto(fs, offset, fs.len() as int)
}

/// The channel a palette byte holds, by its position within the entry.
pub open spec fn palette_channel(entry_size: int, within: int) -> Seq<char> {
    if within == 0 { "Blue"@ }
    else if within == 1 { "Green"@ }
    else if within == 2 { "Red"@ }
    else if entry_size == 4 && within == 3 { "Reserved (0)"@ }
    else { "?"@ }
}

/// The text `(x, y)`.
pub open spec fn coord_text(x: u32, y: u32) -> Seq<char> {
    "("@ + dec(x as nat) + ", "@ + dec(y as nat) + ")"@
}

/// The label of a pixel swatch.
pub open spec fn sample_label(s: PixelSample) -> Seq<char> {
    match s.palette_index {
        Some(idx) => coord_text(s.x, s.y) + " · idx "@ + dec(idx as nat),
        None => coord_text(s.x, s.y),
    }
}

/// A swatch for every sample with a resolved color.
pub open spec fn sample_swatches(ss: Seq<PixelSample>) -> Seq<(Seq<char>, Rgba)>
    decreases ss.len(),
{
    if ss.len() == 0 {
        seq![]
    } else {
        let last = ss.last();
        match last.color {
            Some(c) => sample_swatches(ss.drop_last()).push((sample_label(last), c)),
            None => sample_swatches(ss.drop_last()),
        }
    }
}

/// An image whose palette and pixel arithmetic is defined: palette entries
/// have a size, palette regions lie after the palette start, and the pixel
/// layout has a row stride and pixel size.
pub open spec fn image_ok(img: ParsedImage) -> bool {
    &&& img.palette_info matches Some(pal) ==> {
        &&& pal.entry_size > 0
        &&& forall|i: int| 0 <= i < img.regions.len() && (#[trigger] img.regions@[i]).kind == RegionKind::Palette
                ==> pal.start <= img.regions@[i].start
    }
    &&& img.pixel_info matches Some(pi) ==> pixel_info_ok(pi)
}

/// The palette lines of a selection: the entry and channel of a palette
/// byte that belongs to no named field.
pub open spec fn palette_details(img: ParsedImage, offset: int, has_field: bool) -> Seq<(Seq<char>, Seq<char>)> {
    match (region_index(img.regions@, offset), img.palette_info) {
        (Some(i), Some(pal)) =>
            if img.regions@[i].kind == RegionKind::Palette && !has_field {
                let rel = offset - pal.start;
                let entry = rel / (pal.entry_size as int);
                let base = seq![
                    ("Palette index"@, dec(entry as nat)),
                    ("Channel"@, palette_channel(pal.entry_size as int, rel % (pal.entry_size as int))),
                ];
                match palette_get(img.palette@, entry) {
                    Some(c) => base.push(("Entry color"@, hex_text(c))),
                    None => base,
                }
            } else {
                seq![]
            },
        _ => seq![],
    }
}

/// The palette swatch of a selection.
pub open spec fn palette_swatches(img: ParsedImage, offset: int, has_field: bool) -> Seq<(Seq<char>, Rgba)> {
    match (region_index(img.regions@, offset), img.palette_info) {
        (Some(i), Some(pal)) =>
            if img.regions@[i].kind == RegionKind::Palette && !has_field {
                let entry = (offset - pal.start) / (pal.entry_size as int);
                match palette_get(img.palette@, entry) {
                    Some(c) => seq![("Entry "@ + dec(entry as nat), c)],
                    None => seq![],
                }
            } else {
                seq![]
            },
        _ => seq![],
    }
}

/// Whether `offset` lies in a pixel-data region of an image with a pixel layout.
pub open spec fn in_pixel_data(img: ParsedImage, offset: int) -> bool {
    &&& region_index(img.regions@, offset) matches Some(i)
    &&& img.regions@[i].kind == RegionKind::PixelData
    &&& img.pixel_info is Some
}

/// The pixel lines of a selection: coordinate, palette index and notes.
pub open spec fn pixel_details(img: ParsedImage, offset: int, raw: Seq<u8>) -> Seq<(Seq<char>, Seq<char>)> {
    if in_pixel_data(img, offset) {
        match spec_locate(img.pixel_info.unwrap(), offset, raw, img.palette@) {
            Some(loc) => {
                let head = seq![("Pixel (x, y)"@, coord_text(loc.x, loc.y))];
                let with_index = match loc.palette_index {
                    Some(idx) => head.push(("Palette index"@, dec(idx as nat))),
                    None => head,
                };
                with_index + loc.notes
            },
            None => seq![],
        }
    } else {
        seq![]
    }
}

/// The pixel swatches of a selection: one per resolved pixel of the byte.
pub open spec fn pixel_swatches(img: ParsedImage, offset: int, raw: Seq<u8>) -> Seq<(Seq<char>, Rgba)> {
    if in_pixel_data(img, offset) {
        sample_swatches(spec_samples(img.pixel_info.unwrap(), offset, raw, img.palette@))
    } else {
        seq![]
    }
}

/// What `describe` reports for the byte at `offset`.
pub open spec fn spec_describe(img: ParsedImage, offset: int, raw: Seq<u8>) -> Option<SelectionView> {
    if offset < 0 || offset >= raw.len() {
        None
    } else {
        let ri = region_index(img.regions@, offset);
        let fi = field_index(img.fields@, offset);
        Some(SelectionView {
            offset: offset as usize,
            byte: raw[offset],
            region_kind: match ri { Some(i) => Some(img.regions@[i].kind), None => None },
            region_name: match ri { Some(i) => Some(img.regions@[i].name@), None => None },
            field: match fi { Some(i) => Some(img.fields@[i]@), None => None },
            details: palette_details(img, offset, fi is Some) + pixel_details(img, offset, raw),
            swatches: palette_swatches(img, offset, fi is Some) + pixel_swatches(img, offset, raw),
        })
    }
}

/// What `byte_color` reports for the byte at `offset`.
/// The kinds of a run of regions, each once, in the order they first appear.
pub open spec fn kinds_in_order(rs: Seq<Region>) -> Seq<RegionKind>
    decreases rs.len(),
{
    if rs.len() == 0 {
        seq![]
    } else {
        let before = kinds_in_order(rs.drop_last());
        if before.contains(rs.last().kind) { before } else { before.push(rs.last().kind) }
    }
}

/// The legend lists each kind of the regions exactly once: no kind twice,
/// and a kind appears exactly when some region has it.
pub proof fn lemma_kinds_in_order(rs: Seq<Region>)
    ensures
        kinds_in_order(rs).no_duplicates(),
        forall|k: RegionKind| kinds_in_order(rs).contains(k) <==> exists|i: int| 0 <= i < rs.len() && #[trigger] rs[i].kind == k,
    decreases rs.len(),
{
    if rs.len() > 0 {
        let d = rs.drop_last();
        lemma_kinds_in_order(d);
        let before = kinds_in_order(d);
        assert forall|k: RegionKind| kinds_in_order(rs).contains(k) <==> exists|i: int| 0 <= i < rs.len() && #[trigger] rs[i].kind == k by {
            if kinds_in_order(rs).contains(k) {
                if before.contains(k) {
                    let i = choose|i: int| 0 <= i < d.len() && #[trigger] d[i].kind == k;
                    assert(rs[i] == d[i]);
                } else {
                    assert(rs[rs.len() - 1].kind == k);
                }
            }
            if exists|i: int| 0 <= i < rs.len() && #[trigger] rs[i].kind == k {
                let i = choose|i: int| 0 <= i < rs.len() && #[trigger] rs[i].kind == k;
                if i < rs.len() - 1 {
                    assert(d[i] == rs[i]);
                    assert(before.contains(k));
                    let t = choose|t: int| 0 <= t < before.len() && before[t] == k;
                    assert(before.push(rs.last().kind)[t] == k);
                } else {
                    assert(rs.last().kind == k);
                    assert(before.push(rs.last().kind)[before.len() as int] == k);
                }
            }
        }
    }
}

/// The backdrop of byte `offset` in the hex view: by region (its kind's
/// color, else gray `0x30`) or by pixels (its decoded color, else gray `0x28`).
pub open spec fn spec_byte_backdrop(img: Option<&ParsedImage>, offset: int, raw: Seq<u8>, by_pixels: bool) -> Rgba {
    if !by_pixels {
        match img {
            Some(i) => match region_index(i.regions@, offset) {
                Some(k) => kind_color(i.regions@[k].kind),
                None => Rgba { r: 0x30, g: 0x30, b: 0x30, a: 255 },
            },
            None => Rgba { r: 0x30, g: 0x30, b: 0x30, a: 255 },
        }
    } else {
        match img {
            Some(i) => match spec_byte_color(*i, offset, raw) {
                Some(c) => c,
                None => Rgba { r: 0x28, g: 0x28, b: 0x28, a: 255 },
            },
            None => Rgba { r: 0x28, g: 0x28, b: 0x28, a: 255 },
        }
    }
}

pub open spec fn spec_byte_color(img: ParsedImage, offset: int, raw: Seq<u8>) -> Option<Rgba> {
    match region_index(img.regions@, offset) {
        None => None,
        Some(i) => {
            if img.regions@[i].kind == RegionKind::Palette {
                match img.palette_info {
                    None => None,
                    Some(pal) =>
                        if offset < pal.start { None } else { palette_get(img.palette@, (offset - pal.start) / (pal.entry_size as int)) },
                }
            } else if img.regions@[i].kind == RegionKind::PixelData {
                match img.pixel_info {
                    None => None,
                    Some(pi) => {
                        let ss = spec_samples(pi, offset, raw, img.palette@);
                        if ss.len() > 0 { ss[0].color } else { None }
                    },
                }
            } else {
                None
            }
        },
    }
}

/// The rendered pixels of a layout: `width * height` colors in top-down
/// row-major order, opaque black where a pixel cannot be decoded.
pub open spec fn rendered_pixels(pi: PixelInfo, raw: Seq<u8>, palette: Seq<Rgba>) -> Seq<Rgba> {
    Seq::new((pi.width * pi.height) as nat, |i: int|
        match spec_color_at(pi, i % (pi.width as int), i / (pi.width as int), raw, palette) {
            Some(c) => c,
            None => Rgba { r: 0, g: 0, b: 0, a: 255 },
        })
}

/// A copy of a key/value line.
fn copy_pair(p: &(String, String)) -> (r: (String, String))
    ensures
        r.0@ == p.0@,
        r.1@ == p.1@,
{
    (p.0.clone(), p.1.clone())
}

/// The text `(x, y)`.
fn push_coord(s: &mut String, x: u32, y: u32)
    ensures
        final(s)@ == old(s)@ + coord_text(x, y),
{
    s.append("(");
    push_dec(s, x as u128);
    s.append(", ");
    push_dec(s, y as u128);
    s.append(")");
    assert(final(s)@ =~= old(s)@ + coord_text(x, y));
}

impl ParsedImage {
    /// The region containing `offset`, if any.
    pub fn region_at(&self, offset: usize) -> (r: Option<&Region>)
        ensures
            r is Some <==> region_index(self.regions@, offset as int) is Some,
            r matches Some(reg) ==> *reg == self.regions@[region_index(self.regions@, offset as int).unwrap()],
    {
        match self.region_index_at(offset) {
            Some(i) => Some(&self.regions[i]),
            None => None,
        }
    }

    /// The index of the region containing `offset`, if any.
    fn region_index_at(&self, offset: usize) -> (r: Option<usize>)
        ensures
            r matches Some(i) ==> region_index(self.regions@, offset as int) == Some(i as int) && i < self.regions.len()
                && self.regions@[i as int].start <= offset < self.regions@[i as int].end,
            r is None ==> region_index(self.regions@, offset as int) is None,
    {
        proof { lemma_first_region_from(self.regions@, offset as int, 0); }
        let n = self.regions.len();
        let mut i: usize = 0;
        while i < n
            invariant
                n == self.regions.len(),
                i <= n,
                region_index(self.regions@, offset as int) == first_region_from(self.regions@, offset as int, i as int),
            decreases n - i,
        {
            if self.regions[i].contains(offset) {
                return Some(i);
            }
            i = i + 1;
        }
        None
    }

    /// The innermost field containing `offset`, if any.
    pub fn field_at(&self, offset: usize) -> (r: Option<&Field>)
        ensures
            r is Some <==> field_index(self.fields@, offset as int) is Some,
            r matches Some(f) ==> *f == self.fields@[field_index(self.fields@, offset as int).unwrap()],
    {
        match self.field_index_at(offset) {
            Some(i) => Some(&self.fields[i]),
            None => None,
        }
    }

    /// The index of the innermost field containing `offset`, if any.
    fn field_index_at(&self, offset: usize) -> (r: Option<usize>)
        ensures
            r matches Some(i) ==> field_index(self.fields@, offset as int) == Some(i as int) && i < self.fields.len(),
            r is None ==> field_index(self.fields@, offset as int) is None,
    {
        let n = self.fields.len();
        let mut best: Option<usize> = None;
        let mut i: usize = 0;
        while i < n
            invariant
                n == self.fields.len(),
                i <= n,
                best matches Some(b) ==> best_field_upto(self.fields@, offset as int, i as int) == Some(b as int) && b < i
                    && self.fields@[b as int].start <= offset < self.fields@[b as int].end,
                best is None ==> best_field_upto(self.fields@, offset as int, i as int) is None,
            decreases n - i,
        {
            let f = &self.fields[i];
            if f.contains(offset) {
                match best {
                    None => { best = Some(i); },
                    Some(b) => {
                        let bf = &self.fields[b];
                        if f.end - f.start < bf.end - bf.start {
                            best = Some(i);
                        }
                    },
                }
            }
            i = i + 1;
        }
        best
    }

    /// Assemble a full description of the byte at `offset`.
    ///
    /// `raw` is the complete file. Returns `None` if `offset` is out of bounds.
    pub fn describe(&self, offset: usize, raw: &[u8]) -> (r: Option<SelectionInfo>)
        requires
            image_ok(*self),
        ensures
            r matches Some(info) ==> spec_describe(*self, offset as int, raw@) == Some(info@),
            r is None ==> spec_describe(*self, offset as int, raw@) is None,
    {
        if offset >= raw.len() {
            return None;
        }
        let byte = raw[offset];
        let ri = self.region_index_at(offset);
        let fi = self.field_index_at(offset);
        let field = match fi {
            Some(i) => Some(self.fields[i].duplicate()),
            None => None,
        };
        let mut details: Vec<(String, String)> = Vec::new();
        let mut swatches: Vec<Swatch> = Vec::new();

        // Palette-region decoding: which entry and channel this byte belongs to.
        match (ri, self.palette_info) {
            (Some(i), Some(pal)) => {
                if self.regions[i].kind == RegionKind::Palette && fi.is_none() {
                    assert(pal.start <= self.regions@[i as int].start);
                    let rel = offset - pal.start;
                    let entry = rel / pal.entry_size;
                    let within = rel % pal.entry_size;
                    let channel = if within == 0 {
                        "Blue"
                    } else if within == 1 {
                        "Green"
                    } else if within == 2 {
                        "Red"
                    } else if pal.entry_size == 4 && within == 3 {
                        "Reserved (0)"
                    } else {
                        "?"
                    };
                    let mut idx_text = String::new();
                    push_dec(&mut idx_text, entry as u128);
                    details.push((String::from_str("Palette index"), idx_text));
                    details.push(text_pair("Channel", channel));
                    if entry < self.palette.len() {
                        let c = self.palette[entry];
                        details.push((String::from_str("Entry color"), c.to_hex()));
                        let mut label = String::new();
                        label.append("Entry ");
                        push_dec(&mut label, entry as u128);
                        swatches.push(Swatch { label, color: c });
                    }
                }
            },
            _ => {},
        }
        assert(pairs_view(details@) =~= palette_details(*self, offset as int, fi is Some));
        assert(swatches_view(swatches@) =~= palette_swatches(*self, offset as int, fi is Some));
        let ghost pal_details = pairs_view(details@);
        let ghost pal_swatches = swatches_view(swatches@);

        // Pixel-data decoding: coordinate, packed pixels, resolved colors.
        match (ri, self.pixel_info) {
            (Some(i), Some(pi)) => {
                if self.regions[i].kind == RegionKind::PixelData {
                    match pi.locate(offset, raw, self.palette.as_slice()) {
                        Some(loc) => {
                            let mut coord = String::new();
                            push_coord(&mut coord, loc.x, loc.y);
                            details.push((String::from_str("Pixel (x, y)"), coord));
                            match loc.palette_index {
                                Some(idx) => {
                                    let mut t = String::new();
                                    push_dec(&mut t, idx as u128);
                                    details.push((String::from_str("Palette index"), t));
                                },
                                None => {},
                            }
                            let ghost before = pairs_view(details@);
                            let mut k: usize = 0;
                            while k < loc.notes.len()
                                invariant
                                    k <= loc.notes.len(),
                                    pairs_view(details@) =~= before + pairs_view(loc.notes@).subrange(0, k as int),
                                decreases loc.notes.len() - k,
                            {
                                let p = copy_pair(&loc.notes[k]);
                                let ghost prev = details@;
                                details.push(p);
                                proof {
                                    assert(pairs_view(details@) =~= pairs_view(prev).push((p.0@, p.1@)));
                                    assert(pairs_view(loc.notes@).subrange(0, k + 1) =~= pairs_view(loc.notes@).subrange(0, k as int).push((p.0@, p.1@)));
                                }
                                k = k + 1;
                            }
                            assert(pairs_view(details@) =~= pal_details + pixel_details(*self, offset as int, raw@));
                        },
                        None => {
                            assert(pairs_view(details@) =~= pal_details + pixel_details(*self, offset as int, raw@));
                        },
                    }
                    let ss = pi.samples(offset, raw, self.palette.as_slice());
                    let ghost before = swatches_view(swatches@);
                    let mut k: usize = 0;
                    while k < ss.len()
                        invariant
                            k <= ss.len(),
                            swatches_view(swatches@) =~= before + sample_swatches(ss@.subrange(0, k as int)),
                        decreases ss.len() - k,
                    {
                        let s = ss[k];
                        let ghost prev = swatches@;
                        proof {
                            assert(ss@.subrange(0, k + 1).drop_last() =~= ss@.subrange(0, k as int));
                            assert(ss@.subrange(0, k + 1).last() == s);
                        }
                        match s.color {
                            Some(c) => {
                                let mut label = String::new();
                                push_coord(&mut label, s.x, s.y);
                                match s.palette_index {
                                    Some(idx) => {
                                        label.append(" · idx ");
                                        push_dec(&mut label, idx as u128);
                                    },
                                    None => {},
                                }
                                swatches.push(Swatch { label, color: c });
                                assert(swatches_view(swatches@) =~= swatches_view(prev).push((sample_label(s), c)));
                            },
                            None => {},
                        }
                        k = k + 1;
                    }
                    assert(ss@.subrange(0, ss.len() as int) =~= ss@);
                } else {
                    assert(pairs_view(details@) =~= pal_details + pixel_details(*self, offset as int, raw@));
                }
            },
            _ => {
                assert(pairs_view(details@) =~= pal_details + pixel_details(*self, offset as int, raw@));
            },
        }
        assert(swatches_view(swatches@) =~= pal_swatches + pixel_swatches(*self, offset as int, raw@));

        let (region_kind, region_name) = match ri {
            Some(i) => (Some(self.regions[i].kind), Some(self.regions[i].name.clone())),
            None => (None, None),
        };
        Some(SelectionInfo { offset, byte, region_kind, region_name, field, details, swatches })
    }

    /// A single representative color for the byte at `offset`, used to paint
    /// the hex view in "pixel color" mode.
    pub fn byte_color(&self, offset: usize, raw: &[u8]) -> (r: Option<Rgba>)
        requires
            image_ok(*self),
        ensures
            r == spec_byte_color(*self, offset as int, raw@),
    {
        let i = match self.region_index_at(offset) {
            Some(i) => i,
            None => { return None; },
        };
        if self.regions[i].kind == RegionKind::Palette {
            match self.palette_info {
                None => None,
                Some(pal) => {
                    if offset < pal.start {
                        return None;
                    }
                    let entry = (offset - pal.start) / pal.entry_size;
                    if entry < self.palette.len() { Some(self.palette[entry]) } else { None }
                },
            }
        } else if self.regions[i].kind == RegionKind::PixelData {
            match self.pixel_info {
                None => None,
                Some(pi) => {
                    let ss = pi.samples(offset, raw, self.palette.as_slice());
                    if ss.len() > 0 { ss[0].color } else { None }
                },
            }
        } else {
            None
        }
    }

    /// The region kinds present, each once, in the order they first appear:
    /// the entries of the hex view's legend.
    pub fn legend_kinds(&self) -> (kinds: Vec<RegionKind>)
        ensures
            kinds@ == kinds_in_order(self.regions@),
    {
        let mut kinds: Vec<RegionKind> = Vec::new();
        let n = self.regions.len();
        let mut i: usize = 0;
        while i < n
            invariant
                n == self.regions.len(),
                i <= n,
                kinds@ == kinds_in_order(self.regions@.subrange(0, i as int)),
            decreases n - i,
        {
            let kind = self.regions[i].kind;
            let mut seen = false;
            let mut j: usize = 0;
            while j < kinds.len()
                invariant
                    j <= kinds.len(),
                    seen <==> kinds@.subrange(0, j as int).contains(kind),
                decreases kinds.len() - j,
            {
                proof {
                    let pre = kinds@.subrange(0, j as int);
                    let post = kinds@.subrange(0, j + 1);
                    assert(post =~= pre.push(kinds@[j as int]));
                    assert(post.contains(kind) <==> pre.contains(kind) || kinds@[j as int] == kind) by {
                        if post.contains(kind) {
                            let t = choose|t: int| 0 <= t < post.len() && post[t] == kind;
                            if t < j {
                                assert(pre[t] == kind);
                            }
                        }
                        if pre.contains(kind) {
                            let t = choose|t: int| 0 <= t < pre.len() && pre[t] == kind;
                            assert(post[t] == kind);
                        }
                        if kinds@[j as int] == kind {
                            assert(post[j as int] == kind);
                        }
                    }
                }
                if kinds[j] == kind {
                    seen = true;
                }
                j = j + 1;
            }
            proof {
                assert(kinds@.subrange(0, kinds.len() as int) =~= kinds@);
                let sub = self.regions@.subrange(0, i + 1);
                assert(sub.drop_last() =~= self.regions@.subrange(0, i as int));
                assert(sub.last() == self.regions@[i as int]);
            }
            if !seen {
                kinds.push(kind);
            }
            i = i + 1;
        }
        assert(self.regions@.subrange(0, n as int) =~= self.regions@);
        kinds
    }

    /// The backdrop of the byte at `offset` in the hex view: its region's
    /// color, or with `by_pixels` the color the byte decodes to; a neutral
    /// gray for bytes that have none.
    pub fn byte_backdrop(img: Option<&ParsedImage>, offset: usize, raw: &[u8], by_pixels: bool) -> (c: Rgba)
        requires
            img matches Some(i) ==> image_ok(*i),
        ensures
            c == spec_byte_backdrop(img, offset as int, raw@, by_pixels),
    {
        if !by_pixels {
            match img {
                Some(i) => match i.region_at(offset) {
                    Some(r) => r.kind.color(),
                    None => Rgba::rgb(0x30, 0x30, 0x30),
                },
                None => Rgba::rgb(0x30, 0x30, 0x30),
            }
        } else {
            match img {
                Some(i) => match i.byte_color(offset, raw) {
                    Some(c) => c,
                    None => Rgba::rgb(0x28, 0x28, 0x28),
                },
                None => Rgba::rgb(0x28, 0x28, 0x28),
            }
        }
    }

    /// Decode the whole image into a top-down RGBA buffer for preview and
    /// bit-plane analysis. Returns `None` when the pixel data cannot be
    /// decoded. Unresolved pixels fall back to opaque black.
    pub fn render(&self, raw: &[u8]) -> (r: Option<RenderedImage>)
        ensures
            r matches Some(img) ==> {
                &&& self.pixel_info matches Some(pi)
                &&& pi.width > 0 && pi.height > 0
                &&& img.width == pi.width
                &&& img.height == pi.height
                &&& img.pixels@ == rendered_pixels(pi, raw@, self.palette@)
            },
            r is None ==> (self.pixel_info matches Some(pi) ==> pi.width == 0 || pi.height == 0),
    {
        let pi = match self.pixel_info {
            Some(pi) => pi,
            None => { return None; },
        };
        if pi.width == 0 || pi.height == 0 {
            return None;
        }
        let ghost expected = rendered_pixels(pi, raw@, self.palette@);
        let mut pixels: Vec<Rgba> = Vec::new();
        let mut y: u32 = 0;
        while y < pi.height
            invariant
                pi == self.pixel_info.unwrap(),
                pi.width > 0,
                y <= pi.height,
                expected == rendered_pixels(pi, raw@, self.palette@),
                pixels@ =~= expected.subrange(0, y * pi.width),
            decreases pi.height - y,
        {
            let mut x: u32 = 0;
            while x < pi.width
                invariant
                    pi == self.pixel_info.unwrap(),
                    pi.width > 0,
                    x <= pi.width,
                    y < pi.height,
                    expected == rendered_pixels(pi, raw@, self.palette@),
                    pixels@ =~= expected.subrange(0, y * pi.width + x),
                decreases pi.width - x,
            {
                let c = match pi.color_at(x, y, raw, self.palette.as_slice()) {
                    Some(c) => c,
                    None => Rgba::rgb(0, 0, 0),
                };
                proof {
                    let i = y * pi.width + x;
                    lemma_mul_bounded(y as int, pi.width as int, (pi.height - 1) as int, pi.width as int);
                    assert((pi.height - 1) * pi.width + pi.width == pi.width * pi.height) by (nonlinear_arith);
                    assert(i / (pi.width as int) == y && i % (pi.width as int) == x) by (nonlinear_arith)
                        requires i == y * pi.width + x, 0 <= x < pi.width, y >= 0;
                }
                pixels.push(c);
                x = x + 1;
            }
            assert(y * pi.width + pi.width == (y + 1) * pi.width) by (nonlinear_arith);
            y = y + 1;
        }
        assert(pi.height * pi.width == pi.width * pi.height) by (nonlinear_arith);
        Some(RenderedImage { width: pi.width, height: pi.height, pixels })
    }
}
} // verus!
