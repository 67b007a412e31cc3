//! BMP (Windows Bitmap) parser.
//!
//! Supports `BITMAPCOREHEADER` (12-byte) and `BITMAPINFOHEADER`-family
//! headers (40 bytes and the V4/V5 extensions). Indexed (1/4/8-bpp) and
//! direct-color (24/32-bpp) uncompressed images get full pixel decoding;
//! other variants are still mapped into regions and header fields.
//!
//! The on-disk layout is `BITMAPFILEHEADER` (14 bytes), the DIB header,
//! optional bit-field masks, an optional color table, and the pixel array at
//! `bfOffBits`.

use vstd::prelude::*;
use crate::color::Rgba;
use crate::field::{fields_disjoint, fields_view, fv, Field, FieldView};
use crate::format::{ParseError, ParseErrorView};
use crate::formats::netpbm::{make_field, make_line, make_region};
use crate::model::{image_ok, pairs_view, PaletteInfo, ParsedImage, ParsedView, PixelEncoding, PixelInfo};
use crate::region::{regions_view, rv, sorted_by_start, sorted_disjoint, Region, RegionKind, RegionView};
use crate::text::{dec, dec_string, hex_digits, push_dec, push_hex, push_signed, signed_dec};

verus! {

/// Length of `BITMAPFILEHEADER`.
pub const FILE_HEADER_LEN: usize = 14;

/// The BMP format parser.
pub struct BmpFormat;

// --- Little-endian values ---------------------------------------------------

/// The little-endian `u16` at offset `o`.
pub open spec fn u16_at(b: Seq<u8>, o: int) -> u16 {
    (b[o] as int + 256 * b[o + 1] as int) as u16
}

/// The little-endian `u32` at offset `o`.
pub open spec fn u32_at(b: Seq<u8>, o: int) -> u32 {
    (b[o] as int + 256 * b[o + 1] as int + 65536 * b[o + 2] as int + 16777216 * b[o + 3] as int) as u32
}

/// The little-endian two's-complement `i32` at offset `o`, as an integer.
pub open spec fn i32_at(b: Seq<u8>, o: int) -> int {
    let u = u32_at(b, o) as int;
    if u >= 0x8000_0000 { u - 0x1_0000_0000 } else { u }
}

fn u16le(b: &[u8], o: usize) -> (v: u16)
    requires
        o + 2 <= b.len(),
    ensures
        v == u16_at(b@, o as int),
{
    (b[o] as u16) + 256 * (b[o + 1] as u16)
}

fn u32le(b: &[u8], o: usize) -> (v: u32)
    requires
        o + 4 <= b.len(),
    ensures
        v == u32_at(b@, o as int),
{
    (b[o] as u32) + 256 * (b[o + 1] as u32) + 65536 * (b[o + 2] as u32) + 16777216 * (b[o + 3] as u32)
}

fn i32le(b: &[u8], o: usize) -> (v: i64)
    requires
        o + 4 <= b.len(),
    ensures
        v == i32_at(b@, o as int),
{
    let u = u32le(b, o) as i64;
    if u >= 0x8000_0000 { u - 0x1_0000_0000 } else { u }
}

// --- Names -------------------------------------------------------------------

/// The name of a BMP compression method.
pub open spec fn compression_text(c: u32) -> Seq<char> {
    if c == 0 { "BI_RGB (uncompressed)"@ }
    else if c == 1 { "BI_RLE8"@ }
    else if c == 2 { "BI_RLE4"@ }
    else if c == 3 { "BI_BITFIELDS"@ }
    else if c == 4 { "BI_JPEG"@ }
    else if c == 5 { "BI_PNG"@ }
    else if c == 6 { "BI_ALPHABITFIELDS"@ }
    else if c == 11 { "BI_CMYK"@ }
    else if c == 12 { "BI_CMYKRLE8"@ }
    else if c == 13 { "BI_CMYKRLE4"@ }
    else { "unknown"@ }
}

fn compression_name(c: u32) -> (s: &'static str)
    ensures
        s@ == compression_text(c),
{
    if c == 0 { "BI_RGB (uncompressed)" }
    else if c == 1 { "BI_RLE8" }
    else if c == 2 { "BI_RLE4" }
    else if c == 3 { "BI_BITFIELDS" }
    else if c == 4 { "BI_JPEG" }
    else if c == 5 { "BI_PNG" }
    else if c == 6 { "BI_ALPHABITFIELDS" }
    else if c == 11 { "BI_CMYK" }
    else if c == 12 { "BI_CMYKRLE8" }
    else if c == 13 { "BI_CMYKRLE4" }
    else { "unknown" }
}

/// The name of a DIB header, by its size.
pub open spec fn dib_text(size: u32) -> Seq<char> {
    if size == 12 { "BITMAPCOREHEADER"@ }
    else if size == 40 { "BITMAPINFOHEADER"@ }
    else if size == 52 { "BITMAPV2INFOHEADER"@ }
    else if size == 56 { "BITMAPV3INFOHEADER"@ }
    else if size == 64 { "OS22XBITMAPHEADER"@ }
    else if size == 108 { "BITMAPV4HEADER"@ }
    else if size == 124 { "BITMAPV5HEADER"@ }
    else { "DIB header"@ }
}

fn dib_name(size: u32) -> (s: &'static str)
    ensures
        s@ == dib_text(size),
{
    if size == 12 { "BITMAPCOREHEADER" }
    else if size == 40 { "BITMAPINFOHEADER" }
    else if size == 52 { "BITMAPV2INFOHEADER" }
    else if size == 56 { "BITMAPV3INFOHEADER" }
    else if size == 64 { "OS22XBITMAPHEADER" }
    else if size == 108 { "BITMAPV4HEADER" }
    else if size == 124 { "BITMAPV5HEADER" }
    else { "DIB header" }
}

// --- Layout --------------------------------------------------------------------

/// Whether bytes open with the BMP magic number `BM`.
pub open spec fn bmp_detects(b: Seq<u8>) -> bool {
    b.len() >= 2 && b[0] == 0x42 && b[1] == 0x4D
}

/// The facts a BMP header determines.
pub struct BmpLayout {
    pub bf_size: u32,
    pub off_bits: int,
    pub dib_size: u32,
    pub dib_end: int,
    pub is_core: bool,
    pub width: int,
    pub height_raw: int,
    pub bit_count: u16,
    pub compression: u32,
    pub clr_used: u32,
    pub top_down: bool,
    pub height: int,
    pub width_u: int,
    pub has_masks: bool,
    pub mask_end: int,
    pub palette_start: int,
    pub entry_size: int,
    pub entry_count: int,
    pub fitting: int,
    pub palette_end: int,
    pub cursor: int,
    pub row_stride: int,
    pub data_start: int,
    pub data_len: int,
    pub data_end: int,
    pub encoding: Option<PixelEncoding>,
}

/// The pixel encoding BMP decodes, by bit depth and compression.
pub open spec fn bmp_encoding(bit_count: u16, compression: u32) -> Option<PixelEncoding> {
    if compression == 0 && bit_count == 1 { Some(PixelEncoding::Indexed { bits: 1 }) }
    else if compression == 0 && bit_count == 4 { Some(PixelEncoding::Indexed { bits: 4 }) }
    else if compression == 0 && bit_count == 8 { Some(PixelEncoding::Indexed { bits: 8 }) }
    else if compression == 0 && bit_count == 24 { Some(PixelEncoding::BgrDirect { bytes: 3 }) }
    else if bit_count == 32 && (compression == 0 || compression == 3) { Some(PixelEncoding::BgrDirect { bytes: 4 }) }
    else { None }
}

/// Two to the power `k`.
pub open spec fn two_pow(k: nat) -> nat
    decreases k,
{
    if k == 0 { 1 } else { 2 * two_pow((k - 1) as nat) }
}

/// `a / b` rounded up.
pub open spec fn ceil_div(a: int, b: int) -> int {
    (a + b - 1) / b
}

/// The layout of a BMP file whose headers are present.
pub open spec fn bmp_layout(b: Seq<u8>) -> BmpLayout {
    let len = b.len() as int;
    let bf_size = u32_at(b, 2);
    let off_bits = u32_at(b, 10) as int;
    let dib_size = u32_at(b, 14);
    let dib_end = 14 + dib_size;
    let is_core = dib_size == 12;
    let width = if is_core { u16_at(b, 18) as int } else { i32_at(b, 18) };
    let height_raw = if is_core { u16_at(b, 20) as int } else { i32_at(b, 22) };
    let bit_count = if is_core { u16_at(b, 24) } else { u16_at(b, 28) };
    let compression = if is_core { 0 } else { u32_at(b, 30) };
    let clr_used = if is_core { 0 } else { u32_at(b, 46) };
    let top_down = height_raw < 0;
    let height = if height_raw < 0 { -height_raw } else { height_raw };
    let width_u = if width > 0 { width } else { 0 };
    let has_masks = !is_core && dib_size == 40 && (compression == 3 || compression == 6);
    let mask_len = if compression == 6 { 16int } else { 12int };
    let mask_end = if dib_end + mask_len < len { dib_end + mask_len } else { len };
    let palette_start = if has_masks { mask_end } else { dib_end };
    let entry_size = if is_core { 3int } else { 4int };
    let max_entries = if bit_count <= 8 { two_pow(bit_count as nat) as int } else { 0 };
    let entry_count = if clr_used > 0 { clr_used as int } else { max_entries };
    let upper = if off_bits > palette_start { off_bits } else { palette_start };
    let bound = if upper < len { upper } else { len };
    let available = if bound > palette_start { bound - palette_start } else { 0 };
    let fitting = if entry_count > 0 {
        if available / entry_size < entry_count { available / entry_size } else { entry_count }
    } else {
        0
    };
    let palette_end = palette_start + fitting * entry_size;
    let row_stride = if width_u > 0 { ceil_div(bit_count * width_u, 32) * 4 } else { 0 };
    let data_start = if off_bits < len { off_bits } else { len };
    let computed = row_stride * height;
    let uncompressed = compression == 0 || compression == 3 || compression == 6;
    let rest = len - data_start;
    let data_len = if uncompressed && computed > 0 { if computed < rest { computed } else { rest } } else { rest };
    BmpLayout {
        bf_size,
        off_bits,
        dib_size,
        dib_end,
        is_core,
        width,
        height_raw,
        bit_count,
        compression,
        clr_used,
        top_down,
        height,
        width_u,
        has_masks,
        mask_end,
        palette_start,
        entry_size,
        entry_count,
        fitting,
        palette_end,
        cursor: palette_end,
        row_stride,
        data_start,
        data_len,
        data_end: data_start + data_len,
        encoding: bmp_encoding(bit_count, compression),
    }
}

/// Whether a BMP file's headers are all present.
pub open spec fn bmp_headers_present(b: Seq<u8>) -> bool {
    b.len() >= 18 && (if u32_at(b, 14) == 12 { b.len() >= 26 } else { b.len() >= 54 })
}

/// Whether the layout arithmetic of a BMP file fits in `usize`: the pixel
/// array size (row stride times height) and the DIB header end.
pub open spec fn bmp_fits(b: Seq<u8>) -> bool {
    (bmp_detects(b) && bmp_headers_present(b)) ==> {
        let l = bmp_layout(b);
        &&& l.dib_end <= usize::MAX
        &&& l.bit_count * l.width_u <= usize::MAX
        &&& l.row_stride * l.height <= usize::MAX
    }
}

// --- Regions, fields, summary ---------------------------------------------------

/// Regions of a BMP file in the order the parser finds them. The pixel data
/// and any trailing bytes are shown only from the end of the headers, masks
/// and color table on, so no region overlaps another even when `bfOffBits`
/// points back into the headers.
pub open spec fn bmp_found_regions(b: Seq<u8>) -> Seq<RegionView> {
    let l = bmp_layout(b);
    let len = b.len() as int;
    let s0 = seq![
        rv(0, 14, RegionKind::FileHeader, "BITMAPFILEHEADER"@),
        rv(14, l.dib_end, RegionKind::InfoHeader, dib_text(l.dib_size)),
    ];
    let s1 = if l.has_masks { s0.push(rv(l.dib_end, l.mask_end, RegionKind::ColorMasks, "Bit-field masks"@)) } else { s0 };
    let s2 = if l.fitting > 0 { s1.push(rv(l.palette_start, l.palette_end, RegionKind::Palette, "Color table"@)) } else { s1 };
    let s3 = if l.off_bits > l.cursor && l.off_bits <= len { s2.push(rv(l.cursor, l.off_bits, RegionKind::Gap, "Padding before pixel data"@)) } else { s2 };
    let pixels_from = if l.data_start > l.cursor { l.data_start } else { l.cursor };
    let s4 = if l.data_end > pixels_from { s3.push(rv(pixels_from, l.data_end, RegionKind::PixelData, "Pixel data"@)) } else { s3 };
    let trailing_from = if l.data_end > l.cursor { l.data_end } else { l.cursor };
    if trailing_from < len { s4.push(rv(trailing_from, len, RegionKind::Unknown, "Trailing data"@)) } else { s4 }
}

/// `s` (sorted by start) with `r` inserted after every region starting no later.
pub open spec fn insert_by_start(s: Seq<RegionView>, r: RegionView) -> Seq<RegionView>
    decreases s.len(),
{
    if s.len() == 0 || s.last().start <= r.start {
        s.push(r)
    } else {
        insert_by_start(s.drop_last(), r).push(s.last())
    }
}

/// A stable sort of regions by start.
pub open spec fn sort_by_start(s: Seq<RegionView>) -> Seq<RegionView>
    decreases s.len(),
{
    if s.len() == 0 { s } else { insert_by_start(sort_by_start(s.drop_last()), s.last()) }
}

proof fn lemma_insert_members(s: Seq<RegionView>, r: RegionView)
    ensures
        insert_by_start(s, r).len() == s.len() + 1,
        forall|i: int| 0 <= i < insert_by_start(s, r).len() ==>
            (#[trigger] insert_by_start(s, r)[i] == r || s.contains(insert_by_start(s, r)[i])),
    decreases s.len(),
{
    if !(s.len() == 0 || s.last().start <= r.start) {
        lemma_insert_members(s.drop_last(), r);
        let t = insert_by_start(s.drop_last(), r);
        assert forall|i: int| 0 <= i < insert_by_start(s, r).len() implies
            (#[trigger] insert_by_start(s, r)[i] == r || s.contains(insert_by_start(s, r)[i])) by {
            if i < t.len() {
                assert(insert_by_start(s, r)[i] == t[i]);
                if t[i] != r {
                    let k = choose|k: int| 0 <= k < s.drop_last().len() && s.drop_last()[k] == t[i];
                    assert(s[k] == t[i]);
                }
            } else {
                assert(s[s.len() - 1] == s.last());
            }
        }
    } else {
        assert forall|i: int| 0 <= i < insert_by_start(s, r).len() implies
            (#[trigger] insert_by_start(s, r)[i] == r || s.contains(insert_by_start(s, r)[i])) by {
            if i < s.len() {
                assert(insert_by_start(s, r)[i] == s[i]);
            }
        }
    }
}

/// Sorting keeps the regions: the sort has as many regions, each one of the input.
proof fn lemma_sort_members(s: Seq<RegionView>)
    ensures
        sort_by_start(s).len() == s.len(),
        forall|i: int| 0 <= i < sort_by_start(s).len() ==> s.contains(#[trigger] sort_by_start(s)[i]),
    decreases s.len(),
{
    if s.len() > 0 {
        lemma_sort_members(s.drop_last());
        lemma_insert_members(sort_by_start(s.drop_last()), s.last());
        assert forall|i: int| 0 <= i < sort_by_start(s).len() implies s.contains(#[trigger] sort_by_start(s)[i]) by {
            let x = sort_by_start(s)[i];
            if x == s.last() {
                assert(s[s.len() - 1] == x);
            } else {
                let t = sort_by_start(s.drop_last());
                assert(t.contains(x));
                let k = choose|k: int| 0 <= k < t.len() && t[k] == x;
                let m = choose|m: int| 0 <= m < s.drop_last().len() && s.drop_last()[m] == t[k];
                assert(s[m] == x);
            }
        }
    }
}

proof fn lemma_insert_sorted(s: Seq<RegionView>, r: RegionView)
    requires
        crate::region::sorted_by_start(s),
    ensures
        crate::region::sorted_by_start(insert_by_start(s, r)),
    decreases s.len(),
{
    let out = insert_by_start(s, r);
    if s.len() == 0 || s.last().start <= r.start {
        assert forall|i: int, j: int| 0 <= i < j < out.len() implies out[i].start <= out[j].start by {
            if j == s.len() {
                assert(s[i].start <= s[s.len() - 1].start || i == s.len() - 1);
            }
        }
    } else {
        let d = s.drop_last();
        assert(crate::region::sorted_by_start(d)) by {
            assert forall|i: int, j: int| 0 <= i < j < d.len() implies d[i].start <= d[j].start by {
                assert(d[i] == s[i] && d[j] == s[j]);
            }
        }
        lemma_insert_sorted(d, r);
        lemma_insert_members(d, r);
        let t = insert_by_start(d, r);
        assert forall|i: int, j: int| 0 <= i < j < out.len() implies out[i].start <= out[j].start by {
            if j == t.len() {
                assert(out[i] == t[i]);
                if t[i] != r {
                    assert(d.contains(t[i]));
                    let k = choose|k: int| 0 <= k < d.len() && d[k] == t[i];
                    assert(s[k] == d[k]);
                    assert(s[k].start <= s[s.len() - 1].start);
                }
            } else {
                assert(out[i] == t[i] && out[j] == t[j]);
            }
        }
    }
}

/// Sorting regions by start yields regions sorted by start.
proof fn lemma_sort_is_sorted(s: Seq<RegionView>)
    ensures
        crate::region::sorted_by_start(sort_by_start(s)),
    decreases s.len(),
{
    if s.len() > 0 {
        lemma_sort_is_sorted(s.drop_last());
        lemma_insert_sorted(sort_by_start(s.drop_last()), s.last());
    }
}

/// Sorting regions already sorted by start leaves them as they are.
pub(crate) proof fn lemma_sort_sorted(s: Seq<RegionView>)
    requires
        crate::region::sorted_by_start(s),
    ensures
        sort_by_start(s) == s,
    decreases s.len(),
{
    if s.len() > 0 {
        let d = s.drop_last();
        assert(crate::region::sorted_by_start(d)) by {
            assert forall|i: int, j: int| 0 <= i < j < d.len() implies d[i].start <= d[j].start by {
                assert(d[i] == s[i] && d[j] == s[j]);
            }
        }
        lemma_sort_sorted(d);
        if d.len() > 0 {
            assert(d.last() == s[s.len() - 2]);
            assert(s.last() == s[s.len() - 1]);
        }
        assert(d.push(s.last()) =~= s);
    }
}

/// The fields of `BITMAPFILEHEADER`.
pub open spec fn file_header_fields(b: Seq<u8>) -> Seq<FieldView> {
    seq![
        fv(0, 2, "bfType"@, "\"BM\""@, "Magic number identifying a BMP file."@),
        fv(2, 6, "bfSize"@, dec(u32_at(b, 2) as nat) + " bytes"@, "Total size of the file in bytes."@),
        fv(6, 8, "bfReserved1"@, dec(u16_at(b, 6) as nat), "Reserved; typically 0."@),
        fv(8, 10, "bfReserved2"@, dec(u16_at(b, 8) as nat), "Reserved; typically 0."@),
        fv(10, 14, "bfOffBits"@, dec(u32_at(b, 10) as nat), "Byte offset from the start of the file to the pixel data."@),
    ]
}

/// The fields of the DIB header.
pub open spec fn dib_fields(b: Seq<u8>) -> Seq<FieldView> {
    let dib_size = u32_at(b, 14);
    let size_field = fv(14, 18, "biSize"@, dec(dib_size as nat) + " ("@ + dib_text(dib_size) + ")"@,
        "Size of this DIB header; identifies the header version."@);
    if dib_size == 12 {
        seq![
            size_field,
            fv(18, 20, "bcWidth"@, dec(u16_at(b, 18) as nat), "Image width in pixels."@),
            fv(20, 22, "bcHeight"@, dec(u16_at(b, 20) as nat), "Image height in pixels."@),
            fv(22, 24, "bcPlanes"@, dec(u16_at(b, 22) as nat), "Number of color planes; must be 1."@),
            fv(24, 26, "bcBitCount"@, dec(u16_at(b, 24) as nat), "Bits per pixel."@),
        ]
    } else {
        seq![
            size_field,
            fv(18, 22, "biWidth"@, signed_dec(i32_at(b, 18)), "Image width in pixels."@),
            fv(22, 26, "biHeight"@, signed_dec(i32_at(b, 22)), "Image height. Negative means the image is stored top-down."@),
            fv(26, 28, "biPlanes"@, dec(u16_at(b, 26) as nat), "Number of color planes; must be 1."@),
            fv(28, 30, "biBitCount"@, dec(u16_at(b, 28) as nat), "Bits per pixel (color depth)."@),
            fv(30, 34, "biCompression"@, dec(u32_at(b, 30) as nat) + " — "@ + compression_text(u32_at(b, 30)),
                "Compression method used on the pixel data."@),
            fv(34, 38, "biSizeImage"@, dec(u32_at(b, 34) as nat), "Size of the raw pixel data; may be 0 for BI_RGB."@),
            fv(38, 42, "biXPelsPerMeter"@, signed_dec(i32_at(b, 38)), "Horizontal resolution in pixels per meter."@),
            fv(42, 46, "biYPelsPerMeter"@, signed_dec(i32_at(b, 42)), "Vertical resolution in pixels per meter."@),
            fv(46, 50, "biClrUsed"@, dec(u32_at(b, 46) as nat), "Number of palette entries actually used (0 = maximum)."@),
            fv(50, 54, "biClrImportant"@, dec(u32_at(b, 50) as nat), "Number of important colors (0 = all)."@),
        ]
    }
}

/// `0x` followed by eight uppercase hex digits.
pub open spec fn hex8(v: u32) -> Seq<char> {
    "0x"@ + hex_digits(v as nat, 8)
}

/// The fields of the bit-field masks, when present and complete.
pub open spec fn mask_fields(b: Seq<u8>) -> Seq<FieldView> {
    let l = bmp_layout(b);
    let c = l.dib_end;
    if l.has_masks && b.len() >= c + 12 {
        seq![
            fv(c, c + 4, "RedMask"@, hex8(u32_at(b, c)), "Bit mask for the red channel."@),
            fv(c + 4, c + 8, "GreenMask"@, hex8(u32_at(b, c + 4)), "Bit mask for the green channel."@),
            fv(c + 8, c + 12, "BlueMask"@, hex8(u32_at(b, c + 8)), "Bit mask for the blue channel."@),
        ]
    } else {
        seq![]
    }
}

/// The palette colors: entry `i` is read as blue, green, red.
pub open spec fn bmp_palette(b: Seq<u8>) -> Seq<Rgba> {
    let l = bmp_layout(b);
    Seq::new(l.fitting as nat, |i: int| {
        let o = l.palette_start + i * l.entry_size;
        Rgba { r: b[o + 2], g: b[o + 1], b: b[o], a: 255 }
    })
}

/// The summary lines of a BMP file.
pub open spec fn bmp_summary(b: Seq<u8>) -> Seq<(Seq<char>, Seq<char>)> {
    let l = bmp_layout(b);
    let s0 = seq![
        ("Format"@, "BMP ("@ + dib_text(l.dib_size) + ")"@),
        ("Dimensions"@, dec(l.width_u as nat) + " × "@ + dec(l.height as nat) + " px"@),
        ("Bit depth"@, dec(l.bit_count as nat) + " bpp"@),
    ];
    let s1 = if !l.is_core { s0.push(("Compression"@, compression_text(l.compression))) } else { s0 };
    let s2 = s1.push(("Row order"@, if l.top_down { "top-down"@ } else { "bottom-up"@ }))
        .push(("Row stride"@, dec(l.row_stride as nat) + " bytes"@));
    let s3 = if l.fitting > 0 { s2.push(("Palette entries"@, dec(l.fitting as nat))) } else { s2 };
    s3.push(("Pixel data offset"@, dec(l.off_bits as nat)))
        .push(("File size (bfSize)"@, dec(l.bf_size as nat) + " bytes"@))
        .push(("Actual file size"@, dec(b.len()) + " bytes"@))
}

/// The pixel layout of a BMP file, when its encoding is decodable.
pub open spec fn bmp_pixel_info(b: Seq<u8>) -> Option<PixelInfo> {
    let l = bmp_layout(b);
    match l.encoding {
        Some(e) =>
            if l.row_stride == 0 || l.height == 0 {
                None
            } else {
                Some(PixelInfo {
                    data_start: l.data_start as usize,
                    width: l.width_u as u32,
                    height: l.height as u32,
                    top_down: l.top_down,
                    row_stride: l.row_stride as usize,
                    encoding: e,
                })
            },
        None => None,
    }
}

/// What parsing a BMP file yields.
pub open spec fn spec_parse_bmp(b: Seq<u8>) -> Result<ParsedView, ParseErrorView> {
    let len = b.len() as nat;
    if !bmp_detects(b) {
        Err(ParseErrorView::NotRecognized)
    } else if b.len() < 18 {
        Err(ParseErrorView::Truncated { needed: 18, got: len })
    } else if u32_at(b, 14) == 12 && b.len() < 26 {
        Err(ParseErrorView::Truncated { needed: 26, got: len })
    } else if u32_at(b, 14) != 12 && b.len() < 54 {
        Err(ParseErrorView::Truncated { needed: 54, got: len })
    } else {
        let l = bmp_layout(b);
        Ok(ParsedView {
            format_name: "BMP"@,
            regions: sort_by_start(bmp_found_regions(b)),
            fields: file_header_fields(b) + dib_fields(b) + mask_fields(b),
            summary: bmp_summary(b),
            palette: bmp_palette(b),
            palette_info: if l.fitting > 0 {
                Some(PaletteInfo { start: l.palette_start as usize, entry_size: l.entry_size as usize, count: l.fitting as usize })
            } else {
                None
            },
            pixel_info: bmp_pixel_info(b),
        })
    }
}


// --- Parsing ---------------------------------------------------------------------

fn small_two_pow(k: u16) -> (r: usize)
    requires
        k <= 8,
    ensures
        r == two_pow(k as nat),
        r <= 256,
{
    let mut r: usize = 1;
    let mut i: u16 = 0;
    while i < k
        invariant
            i <= k <= 8,
            r == two_pow(i as nat),
            r <= 256,
        decreases k - i,
    {
        proof {
            reveal_with_fuel(two_pow, 9);
            assert(two_pow(8) == 256);
            lemma_two_pow_monotone(i as nat + 1, 8);
        }
        r = r * 2;
        i = i + 1;
    }
    r
}

proof fn lemma_two_pow_monotone(a: nat, b: nat)
    requires
        a <= b,
    ensures
        two_pow(a) <= two_pow(b),
    decreases b,
{
    if a < b {
        lemma_two_pow_monotone(a, (b - 1) as nat);
    }
}

/// `text` followed by the decimal rendering of `n` and `suffix`.
fn dec_with(n: u128, suffix: &str) -> (s: String)
    ensures
        s@ == dec(n as nat) + suffix@,
{
    let mut s = String::new();
    push_dec(&mut s, n);
    s.append(suffix);
    assert(s@ =~= dec(n as nat) + suffix@);
    s
}

/// The signed decimal rendering of `v`.
fn signed_string(v: i64) -> (s: String)
    ensures
        s@ == signed_dec(v as int),
{
    let mut s = String::new();
    push_signed(&mut s, v);
    assert(s@ =~= signed_dec(v as int));
    s
}

/// `0x` followed by eight uppercase hex digits of `v`.
fn hex8_string(v: u32) -> (s: String)
    ensures
        s@ == hex8(v),
{
    let mut s = String::new();
    s.append("0x");
    push_hex(&mut s, v as u128, 8);
    assert(s@ =~= hex8(v));
    s
}

fn file_fields(bytes: &[u8]) -> (fields: Vec<Field>)
    requires
        bytes.len() >= 18,
    ensures
        fields_view(fields@) == file_header_fields(bytes@),
{
    let mut fields: Vec<Field> = Vec::new();
    fields.push(make_field(0, 2, "bfType", String::from_str("\"BM\""), "Magic number identifying a BMP file."));
    fields.push(make_field(2, 6, "bfSize", dec_with(u32le(bytes, 2) as u128, " bytes"), "Total size of the file in bytes."));
    fields.push(make_field(6, 8, "bfReserved1", dec_string(u16le(bytes, 6) as u128), "Reserved; typically 0."));
    fields.push(make_field(8, 10, "bfReserved2", dec_string(u16le(bytes, 8) as u128), "Reserved; typically 0."));
    fields.push(make_field(10, 14, "bfOffBits", dec_string(u32le(bytes, 10) as u128),
        "Byte offset from the start of the file to the pixel data."));
    assert(fields_view(fields@) =~= file_header_fields(bytes@));
    fields
}

fn add_dib_fields(bytes: &[u8], fields: &mut Vec<Field>)
    requires
        bmp_headers_present(bytes@),
    ensures
        fields_view(final(fields)@) == fields_view(old(fields)@) + dib_fields(bytes@),
{
    let ghost start = fields@;
    let dib_size = u32le(bytes, 14);
    let mut size_text = String::new();
    push_dec(&mut size_text, dib_size as u128);
    size_text.append(" (");
    size_text.append(dib_name(dib_size));
    size_text.append(")");
    fields.push(make_field(14, 18, "biSize", size_text, "Size of this DIB header; identifies the header version."));
    if dib_size == 12 {
        fields.push(make_field(18, 20, "bcWidth", dec_string(u16le(bytes, 18) as u128), "Image width in pixels."));
        fields.push(make_field(20, 22, "bcHeight", dec_string(u16le(bytes, 20) as u128), "Image height in pixels."));
        fields.push(make_field(22, 24, "bcPlanes", dec_string(u16le(bytes, 22) as u128), "Number of color planes; must be 1."));
        fields.push(make_field(24, 26, "bcBitCount", dec_string(u16le(bytes, 24) as u128), "Bits per pixel."));
    } else {
        let compression = u32le(bytes, 30);
        let mut comp_text = String::new();
        push_dec(&mut comp_text, compression as u128);
        comp_text.append(" — ");
        comp_text.append(compression_name(compression));
        fields.push(make_field(18, 22, "biWidth", signed_string(i32le(bytes, 18)), "Image width in pixels."));
        fields.push(make_field(22, 26, "biHeight", signed_string(i32le(bytes, 22)),
            "Image height. Negative means the image is stored top-down."));
        fields.push(make_field(26, 28, "biPlanes", dec_string(u16le(bytes, 26) as u128), "Number of color planes; must be 1."));
        fields.push(make_field(28, 30, "biBitCount", dec_string(u16le(bytes, 28) as u128), "Bits per pixel (color depth)."));
        fields.push(make_field(30, 34, "biCompression", comp_text, "Compression method used on the pixel data."));
        fields.push(make_field(34, 38, "biSizeImage", dec_string(u32le(bytes, 34) as u128),
            "Size of the raw pixel data; may be 0 for BI_RGB."));
        fields.push(make_field(38, 42, "biXPelsPerMeter", signed_string(i32le(bytes, 38)),
            "Horizontal resolution in pixels per meter."));
        fields.push(make_field(42, 46, "biYPelsPerMeter", signed_string(i32le(bytes, 42)),
            "Vertical resolution in pixels per meter."));
        fields.push(make_field(46, 50, "biClrUsed", dec_string(u32le(bytes, 46) as u128),
            "Number of palette entries actually used (0 = maximum)."));
        fields.push(make_field(50, 54, "biClrImportant", dec_string(u32le(bytes, 50) as u128),
            "Number of important colors (0 = all)."));
    }
    assert(fields_view(fields@) =~= fields_view(start) + dib_fields(bytes@));
}

fn read_palette(bytes: &[u8], start: usize, entry_size: usize, count: usize) -> (palette: Vec<Rgba>)
    requires
        entry_size >= 3,
        start + count * entry_size <= bytes.len(),
    ensures
        palette@ == Seq::new(count as nat, |i: int| {
            let o = start + i * entry_size;
            Rgba { r: bytes@[o + 2], g: bytes@[o + 1], b: bytes@[o], a: 255 }
        }),
{
    let mut palette: Vec<Rgba> = Vec::new();
    let mut i: usize = 0;
    let mut o: usize = start;
    while i < count
        invariant
            entry_size >= 3,
            start + count * entry_size <= bytes.len(),
            i <= count,
            o == start + i * entry_size,
            palette@ =~= Seq::new(i as nat, |k: int| {
                let o = start + k * entry_size;
                Rgba { r: bytes@[o + 2], g: bytes@[o + 1], b: bytes@[o], a: 255 }
            }),
        decreases count - i,
    {
        proof {
            assert((i + 1) * entry_size <= count * entry_size) by (nonlinear_arith)
                requires i + 1 <= count, entry_size >= 0;
            assert((i + 1) * entry_size == i * entry_size + entry_size) by (nonlinear_arith);
        }
        palette.push(Rgba::rgb(bytes[o + 2], bytes[o + 1], bytes[o]));
        o = o + entry_size;
        i = i + 1;
    }
    palette
}

/// Insert `r` into regions sorted by start, after every region starting no later.
pub(crate) fn insert_region(regions: &mut Vec<Region>, r: Region)
    ensures
        regions_view(final(regions)@) == insert_by_start(regions_view(old(regions)@), r@),
    decreases old(regions).len(),
{
    let n = regions.len();
    if n == 0 || regions[n - 1].start <= r.start {
        let ghost before = regions@;
        regions.push(r);
        assert(regions_view(regions@) =~= regions_view(before).push(r@));
    } else {
        let ghost before = regions@;
        let last = regions.pop().unwrap();
        assert(regions_view(regions@) =~= regions_view(before).drop_last());
        insert_region(regions, r);
        let ghost mid = regions@;
        regions.push(last);
        assert(regions_view(regions@) =~= regions_view(mid).push(last@));
    }
}


/// The summary lines, built from the layout values the parser computed.
fn summary_lines(
    bytes: &[u8],
    dib_size: u32,
    width_u: u32,
    height: u32,
    bit_count: u16,
    is_core: bool,
    compression: u32,
    top_down: bool,
    row_stride: usize,
    palette_len: usize,
    off_bits: usize,
    bf_size: u32,
) -> (summary: Vec<(String, String)>)
    requires
        bmp_headers_present(bytes@),
        dib_size == bmp_layout(bytes@).dib_size,
        width_u == bmp_layout(bytes@).width_u,
        height == bmp_layout(bytes@).height,
        bit_count == bmp_layout(bytes@).bit_count,
        is_core == bmp_layout(bytes@).is_core,
        compression == bmp_layout(bytes@).compression,
        top_down == bmp_layout(bytes@).top_down,
        row_stride == bmp_layout(bytes@).row_stride,
        palette_len == bmp_layout(bytes@).fitting,
        off_bits == bmp_layout(bytes@).off_bits,
        bf_size == bmp_layout(bytes@).bf_size,
    ensures
        pairs_view(summary@) == bmp_summary(bytes@),
{
    let mut summary: Vec<(String, String)> = Vec::new();
    let mut format = String::new();
    format.append("BMP (");
    format.append(dib_name(dib_size));
    format.append(")");
    summary.push(make_line("Format", format));
    let mut dims = String::new();
    push_dec(&mut dims, width_u as u128);
    dims.append(" × ");
    push_dec(&mut dims, height as u128);
    dims.append(" px");
    summary.push(make_line("Dimensions", dims));
    summary.push(make_line("Bit depth", dec_with(bit_count as u128, " bpp")));
    if !is_core {
        summary.push(make_line("Compression", String::from_str(compression_name(compression))));
    }
    if top_down {
        summary.push(make_line("Row order", String::from_str("top-down")));
    } else {
        summary.push(make_line("Row order", String::from_str("bottom-up")));
    }
    summary.push(make_line("Row stride", dec_with(row_stride as u128, " bytes")));
    if palette_len > 0 {
        summary.push(make_line("Palette entries", dec_string(palette_len as u128)));
    }
    summary.push(make_line("Pixel data offset", dec_string(off_bits as u128)));
    summary.push(make_line("File size (bfSize)", dec_with(bf_size as u128, " bytes")));
    summary.push(make_line("Actual file size", dec_with(bytes.len() as u128, " bytes")));
    assert(pairs_view(summary@) =~= bmp_summary(bytes@));
    summary
}

/// The layout values the parser computes.
struct Layout {
    bf_size: u32,
    off_bits: usize,
    dib_size: u32,
    dib_end: usize,
    is_core: bool,
    bit_count: u16,
    compression: u32,
    top_down: bool,
    height: u32,
    width_u: u32,
    has_masks: bool,
    mask_end: usize,
    palette_start: usize,
    entry_size: usize,
    fitting: usize,
    palette_end: usize,
    row_stride: usize,
    data_start: usize,
    data_len: usize,
    data_end: usize,
}

/// Whether computed values agree with the layout of `b`.
spec fn layout_agrees(v: Layout, b: Seq<u8>) -> bool {
    let l = bmp_layout(b);
    &&& v.bf_size == l.bf_size
    &&& v.off_bits == l.off_bits
    &&& v.dib_size == l.dib_size
    &&& v.dib_end == l.dib_end
    &&& v.is_core == l.is_core
    &&& v.bit_count == l.bit_count
    &&& v.compression == l.compression
    &&& v.top_down == l.top_down
    &&& v.height == l.height
    &&& v.width_u == l.width_u
    &&& v.has_masks == l.has_masks
    &&& v.mask_end == l.mask_end
    &&& v.palette_start == l.palette_start
    &&& v.entry_size == l.entry_size
    &&& v.fitting == l.fitting
    &&& v.palette_end == l.palette_end
    &&& v.row_stride == l.row_stride
    &&& v.data_start == l.data_start
    &&& v.data_len == l.data_len
    &&& v.data_end == l.data_end
    &&& (l.fitting > 0 ==> l.palette_end <= b.len())
    &&& l.data_end <= b.len()
    &&& l.palette_start <= l.palette_end
    &&& l.fitting * l.entry_size == l.palette_end - l.palette_start
}

/// Compute the layout of a BMP file whose headers are present.
#[verifier::spinoff_prover]
#[verifier::rlimit(30)]
fn compute_layout(bytes: &[u8]) -> (v: Layout)
    requires
        bmp_detects(bytes@),
        bmp_headers_present(bytes@),
        bmp_fits(bytes@),
    ensures
        layout_agrees(v, bytes@),
{
    let ghost l = bmp_layout(bytes@);
    let n = bytes.len();
    let bf_size = u32le(bytes, 2);
    let off_bits = u32le(bytes, 10) as usize;
    let dib_size = u32le(bytes, 14);
    let is_core = dib_size == 12;
    let dib_end = FILE_HEADER_LEN + dib_size as usize;
    let (width, height_raw, bit_count, compression, clr_used): (i64, i64, u16, u32, u32) = if is_core {
        (u16le(bytes, 18) as i64, u16le(bytes, 20) as i64, u16le(bytes, 24), 0, 0)
    } else {
        (i32le(bytes, 18), i32le(bytes, 22), u16le(bytes, 28), u32le(bytes, 30), u32le(bytes, 46))
    };
    let top_down = height_raw < 0;
    let height: u32 = if height_raw < 0 { (-height_raw) as u32 } else { height_raw as u32 };
    let width_u: u32 = if width > 0 { width as u32 } else { 0 };

    let has_masks = !is_core && dib_size == 40 && (compression == 3 || compression == 6);
    let mask_len: usize = if compression == 6 { 16 } else { 12 };
    let mask_end = if dib_end < n && mask_len < n - dib_end { dib_end + mask_len } else { n };
    let palette_start = if has_masks { mask_end } else { dib_end };

    let entry_size: usize = if is_core { 3 } else { 4 };
    let max_entries: usize = if bit_count <= 8 { small_two_pow(bit_count) } else { 0 };
    let entry_count: u64 = if clr_used > 0 { clr_used as u64 } else { max_entries as u64 };
    let upper = if off_bits > palette_start { off_bits } else { palette_start };
    let bound = if upper < n { upper } else { n };
    let available = if bound > palette_start { bound - palette_start } else { 0 };
    let per = available / entry_size;
    let fitting: usize = if entry_count > 0 {
        if (per as u64) < entry_count { per } else { entry_count as usize }
    } else {
        0
    };
    proof {
        assert(fitting * entry_size <= available) by (nonlinear_arith)
            requires fitting <= per, per == available / entry_size, entry_size > 0;
    }
    let palette_end = palette_start + fitting * entry_size;

    let row_stride: usize = if width_u > 0 {
        proof {
            assert((bit_count as u64) * (width_u as u64) <= 0xffff * 0xffff_ffffu64) by (nonlinear_arith)
                requires bit_count <= 0xffff, width_u <= 0xffff_ffff;
        }
        let bits_total: u64 = (bit_count as u64) * (width_u as u64);
        proof {
            assert(((bits_total + 31) / 32) * 4 <= bits_total / 8 + 4) by (nonlinear_arith)
                requires bits_total >= 0;
            assert(bits_total <= usize::MAX);
            assert(bits_total / 8 + 4 <= usize::MAX);
        }
        let q = (bits_total + 31) / 32;
        let rs = q * 4;
        assert(rs <= usize::MAX);
        rs as usize
    } else {
        0
    };
    let data_start = if off_bits < n { off_bits } else { n };
    let computed = row_stride * height as usize;
    let uncompressed = compression == 0 || compression == 3 || compression == 6;
    let rest = n - data_start;
    let data_len = if uncompressed && computed > 0 { if computed < rest { computed } else { rest } } else { rest };
    let data_end = data_start + data_len;
    assert(bf_size == l.bf_size);
    assert(off_bits == l.off_bits);
    assert(dib_end == l.dib_end);
    assert(bit_count == l.bit_count);
    assert(compression == l.compression);
    assert(height == l.height);
    assert(width_u == l.width_u);
    assert(has_masks == l.has_masks);
    assert(mask_end == l.mask_end);
    assert(palette_start == l.palette_start);
    assert(fitting == l.fitting);
    assert(palette_end == l.palette_end);
    assert(row_stride == l.row_stride);
    assert(data_len == l.data_len);
    Layout {
        bf_size, off_bits, dib_size, dib_end, is_core, bit_count, compression, top_down, height, width_u,
        has_masks, mask_end, palette_start, entry_size, fitting, palette_end, row_stride, data_start, data_len, data_end,
    }
}

/// The regions of a BMP file, sorted by start.
fn layout_regions(bytes: &[u8], v: &Layout) -> (regions: Vec<Region>)
    requires
        bmp_headers_present(bytes@),
        layout_agrees(*v, bytes@),
    ensures
        regions_view(regions@) == sort_by_start(bmp_found_regions(bytes@)),
{
    let ghost l = bmp_layout(bytes@);
    let n = bytes.len();
    let mut regions: Vec<Region> = Vec::new();
    insert_region(&mut regions, make_region(0, FILE_HEADER_LEN, RegionKind::FileHeader, "BITMAPFILEHEADER"));
    insert_region(&mut regions, make_region(FILE_HEADER_LEN, v.dib_end, RegionKind::InfoHeader, dib_name(v.dib_size)));
    let ghost mut found = seq![
        rv(0, 14, RegionKind::FileHeader, "BITMAPFILEHEADER"@),
        rv(14, l.dib_end, RegionKind::InfoHeader, dib_text(l.dib_size)),
    ];
    proof {
        reveal_with_fuel(sort_by_start, 3);
        assert(found.drop_last() =~= seq![rv(0, 14, RegionKind::FileHeader, "BITMAPFILEHEADER"@)]);
        assert(found.drop_last().drop_last() =~= Seq::<RegionView>::empty());
    }
    assert(regions_view(regions@) == sort_by_start(found));
    if v.has_masks {
        insert_region(&mut regions, make_region(v.dib_end, v.mask_end, RegionKind::ColorMasks, "Bit-field masks"));
        proof {
            let r = rv(l.dib_end, l.mask_end, RegionKind::ColorMasks, "Bit-field masks"@);
            assert(found.push(r).drop_last() =~= found);
            found = found.push(r);
        }
        assert(regions_view(regions@) == sort_by_start(found));
    }
    if v.fitting > 0 {
        insert_region(&mut regions, make_region(v.palette_start, v.palette_end, RegionKind::Palette, "Color table"));
        proof {
            let r = rv(l.palette_start, l.palette_end, RegionKind::Palette, "Color table"@);
            assert(found.push(r).drop_last() =~= found);
            found = found.push(r);
        }
        assert(regions_view(regions@) == sort_by_start(found));
    }
    if v.off_bits > v.palette_end && v.off_bits <= n {
        insert_region(&mut regions, make_region(v.palette_end, v.off_bits, RegionKind::Gap, "Padding before pixel data"));
        proof {
            let r = rv(l.cursor, l.off_bits, RegionKind::Gap, "Padding before pixel data"@);
            assert(found.push(r).drop_last() =~= found);
            found = found.push(r);
        }
        assert(regions_view(regions@) == sort_by_start(found));
    }
    let pixels_from = if v.data_start > v.palette_end { v.data_start } else { v.palette_end };
    if v.data_end > pixels_from {
        insert_region(&mut regions, make_region(pixels_from, v.data_end, RegionKind::PixelData, "Pixel data"));
        proof {
            let r = rv(pixels_from as int, l.data_end, RegionKind::PixelData, "Pixel data"@);
            assert(found.push(r).drop_last() =~= found);
            found = found.push(r);
        }
        assert(regions_view(regions@) == sort_by_start(found));
    }
    let trailing_from = if v.data_end > v.palette_end { v.data_end } else { v.palette_end };
    if trailing_from < n {
        insert_region(&mut regions, make_region(trailing_from, n, RegionKind::Unknown, "Trailing data"));
        proof {
            let r = rv(trailing_from as int, n as int, RegionKind::Unknown, "Trailing data"@);
            assert(found.push(r).drop_last() =~= found);
            found = found.push(r);
        }
        assert(regions_view(regions@) == sort_by_start(found));
    }
    assert(found =~= bmp_found_regions(bytes@));
    regions
}

/// All header fields of a BMP file.
fn layout_fields(bytes: &[u8], v: &Layout) -> (fields: Vec<Field>)
    requires
        bmp_headers_present(bytes@),
        layout_agrees(*v, bytes@),
    ensures
        fields_view(fields@) == file_header_fields(bytes@) + dib_fields(bytes@) + mask_fields(bytes@),
{
    let n = bytes.len();
    let mut fields = file_fields(bytes);
    add_dib_fields(bytes, &mut fields);
    let ghost before = fields@;
    let c = v.dib_end;
    if v.has_masks && n >= c + 12 {
        fields.push(make_field(c, c + 4, "RedMask", hex8_string(u32le(bytes, c)), "Bit mask for the red channel."));
        fields.push(make_field(c + 4, c + 8, "GreenMask", hex8_string(u32le(bytes, c + 4)), "Bit mask for the green channel."));
        fields.push(make_field(c + 8, c + 12, "BlueMask", hex8_string(u32le(bytes, c + 8)), "Bit mask for the blue channel."));
    }
    assert(fields_view(fields@) =~= fields_view(before) + mask_fields(bytes@));
    fields
}

/// The pixel layout of a BMP file, when decodable.
fn layout_pixel_info(v: &Layout, ghost_bytes: Ghost<Seq<u8>>) -> (pi: Option<PixelInfo>)
    requires
        bmp_headers_present(ghost_bytes@),
        layout_agrees(*v, ghost_bytes@),
    ensures
        pi == bmp_pixel_info(ghost_bytes@),
{
    let bit_count = v.bit_count;
    let compression = v.compression;
    let encoding = if compression == 0 && bit_count == 1 {
        Some(PixelEncoding::Indexed { bits: 1 })
    } else if compression == 0 && bit_count == 4 {
        Some(PixelEncoding::Indexed { bits: 4 })
    } else if compression == 0 && bit_count == 8 {
        Some(PixelEncoding::Indexed { bits: 8 })
    } else if compression == 0 && bit_count == 24 {
        Some(PixelEncoding::BgrDirect { bytes: 3 })
    } else if bit_count == 32 && (compression == 0 || compression == 3) {
        Some(PixelEncoding::BgrDirect { bytes: 4 })
    } else {
        None
    };
    match encoding {
        Some(e) => {
            if v.row_stride == 0 || v.height == 0 {
                None
            } else {
                Some(PixelInfo {
                    data_start: v.data_start,
                    width: v.width_u,
                    height: v.height,
                    top_down: v.top_down,
                    row_stride: v.row_stride,
                    encoding: e,
                })
            }
        },
        None => None,
    }
}

/// Whether the layout arithmetic of a BMP file fits in `usize`.
pub(crate) fn bmp_fits_check(bytes: &[u8]) -> (r: bool)
    ensures
        r == bmp_fits(bytes@),
{
    let n = bytes.len();
    if !(n >= 2 && bytes[0] == 0x42 && bytes[1] == 0x4D) || n < 18 {
        return true;
    }
    let dib_size = u32le(bytes, 14);
    if (dib_size == 12 && n < 26) || (dib_size != 12 && n < 54) {
        return true;
    }
    let is_core = dib_size == 12;
    let width: i64 = if is_core { u16le(bytes, 18) as i64 } else { i32le(bytes, 18) };
    let height_raw: i64 = if is_core { u16le(bytes, 20) as i64 } else { i32le(bytes, 22) };
    let bit_count: u16 = if is_core { u16le(bytes, 24) } else { u16le(bytes, 28) };
    let height: u128 = if height_raw < 0 { (-height_raw) as u128 } else { height_raw as u128 };
    let width_u: u128 = if width > 0 { width as u128 } else { 0 };
    let dib_end: u128 = 14 + dib_size as u128;
    assert(bit_count * width_u <= 0xFFFF * 0x1_0000_0000) by (nonlinear_arith)
        requires bit_count <= 0xFFFF, width_u <= 0x1_0000_0000;
    let bits: u128 = (bit_count as u128) * width_u;
    let row_stride: u128 = if width_u > 0 { ((bits + 32 - 1) / 32) * 4 } else { 0 };
    assert(row_stride * height <= 0x1_0000_0000_0000 * 0x1_0000_0000) by (nonlinear_arith)
        requires row_stride <= 0x1_0000_0000_0000, height <= 0x1_0000_0000;
    let l = Ghost(bmp_layout(bytes@));
    assert(l@.row_stride == row_stride && l@.height == height && l@.width_u == width_u && l@.bit_count == bit_count);
    dib_end <= usize::MAX as u128 && bits <= usize::MAX as u128 && row_stride * height <= usize::MAX as u128
}

/// Parse a BMP file.
pub(crate) fn parse_bmp(bytes: &[u8]) -> (r: Result<ParsedImage, ParseError>)
    requires
        bmp_fits(bytes@),
    ensures
        r matches Ok(img) ==> spec_parse_bmp(bytes@) == Ok::<ParsedView, ParseErrorView>(img@) && image_ok(img),
        r matches Err(e) ==> spec_parse_bmp(bytes@) == Err::<ParsedView, ParseErrorView>(e@),
{
    let ghost b = bytes@;
    let n = bytes.len();
    if !(n >= 2 && bytes[0] == 0x42 && bytes[1] == 0x4D) {
        return Err(ParseError::NotRecognized);
    }
    if n < FILE_HEADER_LEN + 4 {
        return Err(ParseError::Truncated { needed: FILE_HEADER_LEN + 4, got: n });
    }
    let dib_size = u32le(bytes, 14);
    if dib_size == 12 && n < 26 {
        return Err(ParseError::Truncated { needed: 26, got: n });
    }
    if dib_size != 12 && n < 54 {
        return Err(ParseError::Truncated { needed: 54, got: n });
    }
    let v = compute_layout(bytes);
    let regions = layout_regions(bytes, &v);
    let fields = layout_fields(bytes, &v);
    let mut palette: Vec<Rgba> = Vec::new();
    let mut palette_info: Option<PaletteInfo> = None;
    if v.fitting > 0 {
        palette = read_palette(bytes, v.palette_start, v.entry_size, v.fitting);
        palette_info = Some(PaletteInfo { start: v.palette_start, entry_size: v.entry_size, count: v.fitting });
    }
    assert(palette@ =~= bmp_palette(b));
    let pixel_info = layout_pixel_info(&v, Ghost(b));
    let summary = summary_lines(bytes, v.dib_size, v.width_u, v.height, v.bit_count, v.is_core, v.compression,
        v.top_down, v.row_stride, v.fitting, v.off_bits, v.bf_size);
    let img = ParsedImage {
        format_name: String::from_str("BMP"),
        regions,
        fields,
        summary,
        palette,
        palette_info,
        pixel_info,
    };
    proof {
        let found = bmp_found_regions(b);
        lemma_sort_members(found);
        if palette_info is Some {
            assert forall|i: int| 0 <= i < img.regions.len() && (#[trigger] img.regions@[i]).kind == RegionKind::Palette
                implies v.palette_start <= img.regions@[i].start by {
                let x = regions_view(img.regions@)[i];
                assert(x == img.regions@[i]@);
                let j = choose|j: int| 0 <= j < found.len() && found[j] == x;
                assert(found[j].kind == RegionKind::Palette);
            }
        }
    }
    assert(spec_parse_bmp(b) matches Ok(w) && img@ =~= w);
    Ok(img)
}

impl crate::format::ImageFormat for BmpFormat {
    open spec fn format_name(&self) -> Seq<char> {
        "BMP"@
    }

    open spec fn recognizes(&self, bytes: Seq<u8>) -> bool {
        bmp_detects(bytes)
    }

    open spec fn fits(&self, bytes: Seq<u8>) -> bool {
        bmp_fits(bytes)
    }

    open spec fn parses_to(&self, bytes: Seq<u8>) -> Result<ParsedView, ParseErrorView> {
        spec_parse_bmp(bytes)
    }

    fn name(&self) -> (s: &'static str) {
        "BMP"
    }

    fn detect(&self, bytes: &[u8]) -> (b: bool) {
        bytes.len() >= 2 && bytes[0] == 0x42 && bytes[1] == 0x4D
    }

    fn parse(&self, bytes: &[u8]) -> (r: Result<ParsedImage, ParseError>) {
        parse_bmp(bytes)
    }
}

// --- Region laws --------------------------------------------------------------------

proof fn lemma_fit(fitting: int, available: int, entry_size: int, entry_count: int)
    requires
        available >= 0,
        entry_size > 0,
        fitting == (if entry_count > 0 {
            if available / entry_size < entry_count { available / entry_size } else { entry_count }
        } else {
            0
        }),
    ensures
        0 <= fitting * entry_size <= available,
{
    if entry_count > 0 {
        assert(0 <= (available / entry_size) * entry_size <= available) by (nonlinear_arith)
            requires available >= 0, entry_size > 0;
        assert(0 <= fitting * entry_size <= (available / entry_size) * entry_size) by (nonlinear_arith)
            requires 0 <= fitting <= available / entry_size, entry_size > 0, available >= 0;
    }
}

/// The regions of a parsed BMP file are sorted by start.
pub proof fn lemma_bmp_regions_sorted(b: Seq<u8>)
    requires
        spec_parse_bmp(b) is Ok,
    ensures
        spec_parse_bmp(b) matches Ok(v) && sorted_by_start(v.regions),
{
    lemma_sort_is_sorted(bmp_found_regions(b));
}

/// The regions of a parsed BMP file are pairwise disjoint.
pub proof fn lemma_bmp_regions_disjoint(b: Seq<u8>)
    requires
        spec_parse_bmp(b) is Ok,
    ensures
        spec_parse_bmp(b) matches Ok(v) && sorted_disjoint(v.regions),
{
    let l = bmp_layout(b);
    let len = b.len() as int;
    let found = bmp_found_regions(b);
    let upper = if l.off_bits > l.palette_start { l.off_bits } else { l.palette_start };
    let bound = if upper < len { upper } else { len };
    let available = if bound > l.palette_start { bound - l.palette_start } else { 0 };
    lemma_fit(l.fitting, available, l.entry_size, l.entry_count);
    assert(l.palette_end <= l.palette_start + available);
    assert(l.has_masks ==> l.dib_end == 54 && l.dib_end <= l.mask_end);
    assert(sorted_disjoint(found));
    assert(sorted_by_start(found)) by {
        assert forall|i: int, j: int| 0 <= i < j < found.len() implies found[i].start <= found[j].start by {
            assert(found[i].start <= found[i].end);
        }
    }
    lemma_sort_sorted(found);
}

/// The fields of a parsed BMP file are sorted by start and pairwise disjoint.
pub proof fn lemma_bmp_fields_disjoint(b: Seq<u8>)
    requires
        spec_parse_bmp(b) is Ok,
    ensures
        spec_parse_bmp(b) matches Ok(v) && fields_disjoint(v.fields),
{
    let fs = file_header_fields(b) + dib_fields(b) + mask_fields(b);
    assert(bmp_layout(b).has_masks ==> bmp_layout(b).dib_end == 54);
    assert(fields_disjoint(fs));
}

/// The color table of a BITMAPCOREHEADER file (DIB size 12) holds
/// RGBTRIPLEs: entry `i` is the three bytes at `26 + 3i` (blue, green, red),
/// opaque. It holds the `2^bpp` entries the depth declares (none above 8
/// bpp), as far as whole entries fit between byte 26 and `bfOffBits` or the
/// end of the file.
pub proof fn lemma_bmp_core_palette(b: Seq<u8>)
    requires
        spec_parse_bmp(b) is Ok,
        u32_at(b, 14) == 12,
    ensures
        spec_parse_bmp(b) matches Ok(v) && {
            let bits = u16_at(b, 24) as int;
            let len = b.len() as int;
            let off = u32_at(b, 10) as int;
            let end = if off > 26 { if off < len { off } else { len } } else { 26 };
            let declared: int = if bits <= 8 { two_pow(bits as nat) as int } else { 0 };
            let fit = (end - 26) / 3;
            &&& v.palette.len() == (if declared < fit { declared } else { fit })
            &&& forall|i: int| 0 <= i < v.palette.len() ==>
                #[trigger] v.palette[i] == (Rgba { r: b[26 + 3 * i + 2], g: b[26 + 3 * i + 1], b: b[26 + 3 * i], a: 255 })
        },
{
    let l = bmp_layout(b);
    assert(l.is_core && l.palette_start == 26 && l.entry_size == 3 && !l.has_masks);
    let v = spec_parse_bmp(b)->Ok_0;
    assert forall|i: int| 0 <= i < v.palette.len() implies
        #[trigger] v.palette[i] == (Rgba { r: b[26 + 3 * i + 2], g: b[26 + 3 * i + 1], b: b[26 + 3 * i], a: 255 }) by {
        assert(l.palette_start + i * l.entry_size == 26 + 3 * i);
    }
}

/// The color table of a file with a larger header and no bit-field masks
/// holds RGBQUADs: entry `i` is the bytes at `14 + dib_size + 4i` (blue,
/// green, red; the fourth is reserved), opaque. It holds `biClrUsed` entries,
/// or `2^bpp` when that is 0 (none above 8 bpp), as far as whole entries fit
/// before `bfOffBits` or the end of the file.
pub proof fn lemma_bmp_info_palette(b: Seq<u8>)
    requires
        spec_parse_bmp(b) is Ok,
        u32_at(b, 14) != 12,
        !(u32_at(b, 14) == 40 && (u32_at(b, 30) == 3 || u32_at(b, 30) == 6)),
    ensures
        spec_parse_bmp(b) matches Ok(v) && {
            let ps = 14 + u32_at(b, 14) as int;
            let bits = u16_at(b, 28) as int;
            let clr = u32_at(b, 46) as int;
            let len = b.len() as int;
            let off = u32_at(b, 10) as int;
            let upper = if off > ps { off } else { ps };
            let end = if upper < len { upper } else { len };
            let room = if end > ps { end - ps } else { 0 };
            let declared: int = if clr > 0 { clr } else if bits <= 8 { two_pow(bits as nat) as int } else { 0 };
            let fit = room / 4;
            &&& v.palette.len() == (if declared < fit { declared } else { fit })
            &&& forall|i: int| 0 <= i < v.palette.len() ==>
                #[trigger] v.palette[i] == (Rgba { r: b[ps + 4 * i + 2], g: b[ps + 4 * i + 1], b: b[ps + 4 * i], a: 255 })
        },
{
    let l = bmp_layout(b);
    assert(!l.is_core && l.palette_start == 14 + u32_at(b, 14) && l.entry_size == 4 && !l.has_masks);
    let v = spec_parse_bmp(b)->Ok_0;
    assert forall|i: int| 0 <= i < v.palette.len() implies
        #[trigger] v.palette[i] == (Rgba { r: b[l.palette_start + 4 * i + 2], g: b[l.palette_start + 4 * i + 1], b: b[l.palette_start + 4 * i], a: 255 }) by {
        assert(l.palette_start + i * l.entry_size == l.palette_start + 4 * i);
    }
}

/// BMP stores direct-color pixels blue first: in a 24-bpp (uncompressed) or
/// 32-bpp (uncompressed or bit-field) file with a BITMAPINFOHEADER or
/// larger, the pixel whose bytes start at `o` has blue `b[o]`, green
/// `b[o + 1]`, red `b[o + 2]`, and alpha `b[o + 3]` at 32 bpp (opaque at 24);
/// the inspector names the bytes Blue, Green, Red (and Alpha) in that order.
/// Rows are stored bottom-up unless the height is negative.
pub proof fn lemma_bmp_direct_colors(b: Seq<u8>)
    requires
        spec_parse_bmp(b) is Ok,
        u32_at(b, 14) != 12,
        (u16_at(b, 28) == 24 && u32_at(b, 30) == 0)
            || (u16_at(b, 28) == 32 && (u32_at(b, 30) == 0 || u32_at(b, 30) == 3)),
    ensures
        spec_parse_bmp(b) matches Ok(v) && (v.pixel_info matches Some(pi) ==> {
            let bpp: int = if u16_at(b, 28) == 32 { 4 } else { 3 };
            &&& crate::model::channel_text(pi.encoding, 0) == "Blue"@
            &&& crate::model::channel_text(pi.encoding, 1) == "Green"@
            &&& crate::model::channel_text(pi.encoding, 2) == "Red"@
            &&& forall|x: int, y: int| 0 <= x < pi.width && 0 <= y < pi.height ==> {
                let o = pi.data_start + (if pi.top_down { y } else { pi.height - 1 - y }) * pi.row_stride + bpp * x;
                o + bpp <= b.len() ==>
                    #[trigger] crate::model::spec_color_at(pi, x, y, b, v.palette)
                        == Some(Rgba { r: b[o + 2], g: b[o + 1], b: b[o], a: if bpp == 4 { b[o + 3] } else { 255 } })
            }
        }),
{
    let l = bmp_layout(b);
    let v = spec_parse_bmp(b)->Ok_0;
    if let Some(pi) = v.pixel_info {
        let bpp: int = if u16_at(b, 28) == 32 { 4 } else { 3 };
        assert(pi.encoding == PixelEncoding::BgrDirect { bytes: bpp as u8 });
        assert forall|x: int, y: int| 0 <= x < pi.width && 0 <= y < pi.height implies {
            let o = pi.data_start + (if pi.top_down { y } else { pi.height - 1 - y }) * pi.row_stride + bpp * x;
            o + bpp <= b.len() ==>
                #[trigger] crate::model::spec_color_at(pi, x, y, b, v.palette)
                    == Some(Rgba { r: b[o + 2], g: b[o + 1], b: b[o], a: if bpp == 4 { b[o + 3] } else { 255 } })
        } by {
            assert(x * bpp == bpp * x);
        }
    }
}

/// The pixel layout of a BMP file comes from its headers: the width and
/// height (a negative height in a BITMAPINFOHEADER or larger meaning rows
/// stored top-down; a BITMAPCOREHEADER's are unsigned and bottom-up), rows
/// padded to a multiple of four bytes, and pixel data from `bfOffBits`
/// (clamped to the end of the file).
pub proof fn lemma_bmp_pixel_layout(b: Seq<u8>)
    requires
        spec_parse_bmp(b) is Ok,
        bmp_fits(b),
        b.len() <= usize::MAX,
    ensures
        spec_parse_bmp(b) matches Ok(v) && (v.pixel_info matches Some(pi) ==> {
            let core = u32_at(b, 14) == 12;
            let w: int = if core { u16_at(b, 18) as int } else { i32_at(b, 18) };
            let h: int = if core { u16_at(b, 20) as int } else { i32_at(b, 22) };
            let bits: int = if core { u16_at(b, 24) as int } else { u16_at(b, 28) as int };
            let off = u32_at(b, 10) as int;
            &&& pi.width == w
            &&& pi.height == (if h < 0 { -h } else { h })
            &&& pi.top_down == (h < 0)
            &&& pi.row_stride == (bits * w + 31) / 32 * 4
            &&& pi.data_start == (if off < b.len() { off } else { b.len() as int })
        }),
{
    let l = bmp_layout(b);
    if l.row_stride > 0 && l.height > 0 {
        assert(l.row_stride <= l.row_stride * l.height) by (nonlinear_arith)
            requires l.row_stride > 0, l.height > 0;
    }
}

} // verus!
