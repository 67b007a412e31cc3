//! Builders for well-formed image byte streams: BMP, Netpbm and JPEG.
//!
//! They feed the crate's tests and can generate demo files. Every BMP here
//! carries a standard 40-byte `BITMAPINFOHEADER`.

use vstd::prelude::*;
use crate::color::Rgba;
use crate::formats::bmp::{spec_parse_bmp, u16_at, u32_at};
use crate::formats::netpbm::{
    all_digit_seq, digits_value, is_ascii_ws, is_digit, netpbm_data_start, netpbm_detects, netpbm_header,
    next_token_span, parse_u32, skip_filler, spec_parse_netpbm, token_end, unsigned_digits,
};
use crate::model::{palette_get, spec_color_at, PixelEncoding, PixelInfo};

verus! {

// --- Byte encodings ----------------------------------------------------------

/// Byte `k` (0 = least significant) of a number.
#[verifier::opaque]
pub open spec fn byte_of(x: nat, k: nat) -> u8 {
    let shift: nat = if k == 0 { 1 } else if k == 1 { 256 } else if k == 2 { 65536 } else { 16777216 };
    ((x / shift) % 256) as u8
}

/// The little-endian bytes of a 16-bit value.
pub open spec fn le16(x: nat) -> Seq<u8> {
    seq![byte_of(x, 0), byte_of(x, 1)]
}

/// The little-endian bytes of a 32-bit value.
pub open spec fn le32(x: nat) -> Seq<u8> {
    seq![byte_of(x, 0), byte_of(x, 1), byte_of(x, 2), byte_of(x, 3)]
}

/// The big-endian bytes of a 16-bit value.
pub open spec fn be16(x: nat) -> Seq<u8> {
    seq![byte_of(x, 1), byte_of(x, 0)]
}

/// The big-endian bytes of a 32-bit value.
pub open spec fn be32(x: nat) -> Seq<u8> {
    seq![byte_of(x, 3), byte_of(x, 2), byte_of(x, 1), byte_of(x, 0)]
}

fn push_u16(v: &mut Vec<u8>, x: u16)
    ensures
        final(v)@ == old(v)@ + le16(x as nat),
{
    reveal(byte_of);
    v.push((x % 256) as u8);
    v.push((x / 256) as u8);
    assert(final(v)@ =~= old(v)@ + le16(x as nat));
}

fn push_u32(v: &mut Vec<u8>, x: u32)
    ensures
        final(v)@ == old(v)@ + le32(x as nat),
{
    reveal(byte_of);
    v.push((x % 256) as u8);
    v.push(((x / 256) % 256) as u8);
    v.push(((x / 65536) % 256) as u8);
    v.push((x / 16777216) as u8);
    assert(final(v)@ =~= old(v)@ + le32(x as nat));
}

fn push_be16(v: &mut Vec<u8>, x: u16)
    ensures
        final(v)@ == old(v)@ + be16(x as nat),
{
    reveal(byte_of);
    v.push((x / 256) as u8);
    v.push((x % 256) as u8);
    assert(final(v)@ =~= old(v)@ + be16(x as nat));
}

fn push_be32(v: &mut Vec<u8>, x: u32)
    ensures
        final(v)@ == old(v)@ + be32(x as nat),
{
    reveal(byte_of);
    v.push((x / 16777216) as u8);
    v.push(((x / 65536) % 256) as u8);
    v.push(((x / 256) % 256) as u8);
    v.push((x % 256) as u8);
    assert(final(v)@ =~= old(v)@ + be32(x as nat));
}

fn push_all(v: &mut Vec<u8>, bytes: &[u8])
    ensures
        final(v)@ == old(v)@ + bytes@,
{
    let mut i: usize = 0;
    while i < bytes.len()
        invariant
            i <= bytes.len(),
            v@ == old(v)@ + bytes@.subrange(0, i as int),
        decreases bytes.len() - i,
    {
        v.push(bytes[i]);
        i = i + 1;
        assert(v@ =~= old(v)@ + bytes@.subrange(0, i as int));
    }
    assert(bytes@.subrange(0, bytes.len() as int) =~= bytes@);
}

// --- BMP ---------------------------------------------------------------------

/// Bytes per row of pixel data: `bit_count * width` bits, padded to 4 bytes.
pub open spec fn stride_of(bit_count: nat, width: nat) -> nat {
    ((bit_count * width + 31) / 32) * 4
}

/// The color table: blue, green, red and a zero byte per entry.
pub open spec fn palette_bytes(palette: Seq<Rgba>) -> Seq<u8>
    decreases palette.len(),
{
    if palette.len() == 0 {
        seq![]
    } else {
        palette_bytes(palette.drop_last()) + seq![palette.last().b, palette.last().g, palette.last().r, 0]
    }
}

/// `BITMAPFILEHEADER`: the magic number, the file size, two reserved words
/// and the offset of the pixel data.
pub open spec fn file_header(file_size: nat, off_bits: nat) -> Seq<u8> {
    seq![0x42u8, 0x4Du8] + le32(file_size % 0x1_0000_0000) + le16(0) + le16(0) + le32(off_bits % 0x1_0000_0000)
}

/// `BITMAPINFOHEADER` of an uncompressed image with `palette_len` color-table
/// entries and `data_len` pixel bytes, at 72 DPI.
pub open spec fn info_header(width: u32, height: u32, bit_count: u16, palette_len: nat, data_len: nat) -> Seq<u8> {
    le32(40) + le32(width as nat) + le32(height as nat) + le16(1) + le16(bit_count as nat) + le32(0)
        + le32(data_len % 0x1_0000_0000) + le32(2835) + le32(2835) + le32(palette_len % 0x1_0000_0000) + le32(0)
}

/// The file header and `BITMAPINFOHEADER` of a BMP with `palette_len`
/// color-table entries and `data_len` pixel bytes.
pub open spec fn bmp_headers(width: u32, height: u32, bit_count: u16, palette_len: nat, data_len: nat) -> Seq<u8> {
    let off_bits = 54 + 4 * palette_len;
    file_header(off_bits + data_len, off_bits) + info_header(width, height, bit_count, palette_len, data_len)
}

/// A BMP file: file header, `BITMAPINFOHEADER`, color table and pixel array.
pub open spec fn bmp_file(width: u32, height: u32, bit_count: u16, palette: Seq<Rgba>, pixels: Seq<u8>) -> Seq<u8> {
    bmp_headers(width, height, bit_count, palette.len(), pixels.len()) + palette_bytes(palette) + pixels
}

/// Whether a BMP of these dimensions can be built within `usize`.
pub open spec fn bmp_buildable(bit_count: nat, width: nat, height: nat, palette_len: nat) -> bool {
    &&& width * height <= u32::MAX
    &&& bit_count * width + 31 <= usize::MAX
    &&& 54 + 4 * palette_len + stride_of(bit_count, width) * height <= usize::MAX
}

/// The low 32 bits of a size.
fn low32(x: usize) -> (r: u32)
    ensures
        r == (x as nat) % 0x1_0000_0000,
{
    ((x as u64) % 0x1_0000_0000u64) as u32
}

fn row_stride(bit_count: u16, width: u32) -> (s: usize)
    requires
        bit_count * width + 31 <= usize::MAX,
    ensures
        s == stride_of(bit_count as nat, width as nat),
{
    let bits: usize = (bit_count as usize) * (width as usize);
    ((bits + 31) / 32) * 4
}

/// The file header and `BITMAPINFOHEADER`.
fn headers(width: u32, height: u32, bit_count: u16, palette_len: usize, data_len: usize) -> (out: Vec<u8>)
    requires
        54 + 4 * palette_len + data_len <= usize::MAX,
    ensures
        out@ == bmp_headers(width, height, bit_count, palette_len as nat, data_len as nat),
{
    let off_bits = 14 + 40 + palette_len * 4;
    let file_size = off_bits + data_len;
    let mut out: Vec<u8> = Vec::new();
    out.push(0x42);
    out.push(0x4D);
    push_u32(&mut out, low32(file_size));
    push_u16(&mut out, 0);
    push_u16(&mut out, 0);
    push_u32(&mut out, low32(off_bits));
    push_u32(&mut out, 40);
    push_u32(&mut out, width);
    push_u32(&mut out, height);
    push_u16(&mut out, 1);
    push_u16(&mut out, bit_count);
    push_u32(&mut out, 0);
    push_u32(&mut out, low32(data_len));
    push_u32(&mut out, 2835);
    push_u32(&mut out, 2835);
    push_u32(&mut out, low32(palette_len));
    push_u32(&mut out, 0);
    assert(out@ =~= bmp_headers(width, height, bit_count, palette_len as nat, data_len as nat));
    out
}

/// Assemble a BMP from a color table and bottom-up pixel rows.
fn assemble(width: u32, height: u32, bit_count: u16, palette: &[Rgba], pixel_bytes: &[u8]) -> (out: Vec<u8>)
    requires
        54 + 4 * palette.len() + pixel_bytes.len() <= usize::MAX,
    ensures
        out@ == bmp_file(width, height, bit_count, palette@, pixel_bytes@),
{
    let palette_len = palette.len();
    let mut out = headers(width, height, bit_count, palette_len, pixel_bytes.len());
    let ghost head = out@;
    let mut i: usize = 0;
    while i < palette_len
        invariant
            i <= palette_len,
            palette_len == palette.len(),
            out@ == head + palette_bytes(palette@.subrange(0, i as int)),
        decreases palette_len - i,
    {
        let c = palette[i];
        out.push(c.b);
        out.push(c.g);
        out.push(c.r);
        out.push(0);
        proof {
            let sub = palette@.subrange(0, i + 1);
            assert(sub.drop_last() =~= palette@.subrange(0, i as int));
            assert(sub.last() == c);
        }
        i = i + 1;
        assert(out@ =~= head + palette_bytes(palette@.subrange(0, i as int)));
    }
    assert(palette@.subrange(0, palette_len as int) =~= palette@);
    push_all(&mut out, pixel_bytes);
    assert(out@ =~= bmp_file(width, height, bit_count, palette@, pixel_bytes@));
    out
}

/// Destination rows `lo..hi` of a bottom-up pixel array built by `row`:
/// the last source row comes first.
pub open spec fn bottom_up(rows: Seq<Seq<u8>>, lo: int) -> Seq<u8>
    decreases rows.len() - lo,
{
    if lo < 0 || lo >= rows.len() { seq![] } else { bottom_up(rows, lo + 1) + rows[lo] }
}

/// Source row `y` of an 8-bpp image: one index byte per pixel, zero padded.
pub open spec fn row8(width: nat, stride: nat, indices: Seq<u8>, y: int) -> Seq<u8> {
    Seq::new(stride, |c: int| if c < width { indices[y * width + c] } else { 0u8 })
}

/// Bits packed most significant first.
pub open spec fn pack_bits(bits: Seq<bool>) -> nat
    decreases bits.len(),
{
    if bits.len() == 0 { 0 } else { pack_bits(bits.drop_last()) * 2 + if bits.last() { 1nat } else { 0nat } }
}

/// The pixel bits held by byte `c` of source row `y` of a 1-bpp image.
pub open spec fn bits1(width: nat, indices: Seq<u8>, y: int, c: int) -> Seq<bool> {
    Seq::new(8, |k: int| 8 * c + k < width && indices[y * width + 8 * c + k] != 0)
}

/// Source row `y` of a 1-bpp image: eight pixels per byte, first pixel in
/// the most significant bit, zero padded.
pub open spec fn row1(width: nat, stride: nat, indices: Seq<u8>, y: int) -> Seq<u8> {
    Seq::new(stride, |c: int| pack_bits(bits1(width, indices, y, c)) as u8)
}

/// The nibble of pixel `x` of source row `y` of a 4-bpp image (0 past the row).
pub open spec fn nibble_at(width: nat, indices: Seq<u8>, y: int, x: int) -> nat {
    if x < width { (indices[y * width + x] & 0x0Fu8) as nat } else { 0 }
}

/// Source row `y` of a 4-bpp image: two pixels per byte, the left one in the
/// high nibble, zero padded.
pub open spec fn row4(width: nat, stride: nat, indices: Seq<u8>, y: int) -> Seq<u8> {
    Seq::new(stride, |c: int| (nibble_at(width, indices, y, 2 * c) * 16 + nibble_at(width, indices, y, 2 * c + 1)) as u8)
}

/// Source row `y` of a 24-bpp image: blue, green, red per pixel, zero padded.
pub open spec fn row24(width: nat, stride: nat, pixels: Seq<Rgba>, y: int) -> Seq<u8> {
    Seq::new(stride, |c: int| if c < 3 * width {
        let p = pixels[y * width + c / 3];
        if c % 3 == 0 { p.b } else if c % 3 == 1 { p.g } else { p.r }
    } else {
        0u8
    })
}

/// The rows of an image of `height` rows, each made by `f`.
pub open spec fn rows_of(height: nat, f: spec_fn(int) -> Seq<u8>) -> Seq<Seq<u8>> {
    Seq::new(height, f)
}

/// An 8-bpp indexed BMP.
pub open spec fn spec_indexed_8bpp(width: u32, height: u32, palette: Seq<Rgba>, indices: Seq<u8>) -> Seq<u8> {
    let stride = stride_of(8, width as nat);
    bmp_file(width, height, 8, palette,
        bottom_up(rows_of(height as nat, |y: int| row8(width as nat, stride, indices, y)), 0))
}

/// A 1-bpp indexed BMP.
pub open spec fn spec_indexed_1bpp(width: u32, height: u32, palette: Seq<Rgba>, indices: Seq<u8>) -> Seq<u8> {
    let stride = stride_of(1, width as nat);
    bmp_file(width, height, 1, palette,
        bottom_up(rows_of(height as nat, |y: int| row1(width as nat, stride, indices, y)), 0))
}

/// A 4-bpp indexed BMP.
pub open spec fn spec_indexed_4bpp(width: u32, height: u32, palette: Seq<Rgba>, indices: Seq<u8>) -> Seq<u8> {
    let stride = stride_of(4, width as nat);
    bmp_file(width, height, 4, palette,
        bottom_up(rows_of(height as nat, |y: int| row4(width as nat, stride, indices, y)), 0))
}

/// A 24-bpp BMP.
pub open spec fn spec_bgr_24bpp(width: u32, height: u32, pixels: Seq<Rgba>) -> Seq<u8> {
    let stride = stride_of(24, width as nat);
    bmp_file(width, height, 24, seq![],
        bottom_up(rows_of(height as nat, |y: int| row24(width as nat, stride, pixels, y)), 0))
}

proof fn lemma_index_in_image(y: int, x: int, width: int, height: int)
    requires
        0 <= y < height,
        0 <= x < width,
    ensures
        y * width + x < width * height,
        0 <= y * width,
{
    assert(y * width + x < width * height) by (nonlinear_arith)
        requires 0 <= y < height, 0 <= x < width;
    assert(0 <= y * width) by (nonlinear_arith)
        requires 0 <= y, 0 <= x < width;
}

proof fn lemma_bottom_up_len(rows: Seq<Seq<u8>>, lo: int, stride: nat)
    requires
        0 <= lo <= rows.len(),
        forall|y: int| 0 <= y < rows.len() ==> #[trigger] rows[y].len() == stride,
    ensures
        bottom_up(rows, lo).len() == stride * (rows.len() - lo),
    decreases rows.len() - lo,
{
    if lo < rows.len() {
        lemma_bottom_up_len(rows, lo + 1, stride);
        assert(rows[lo].len() == stride);
        assert(stride * (rows.len() - lo) == stride * (rows.len() - (lo + 1)) + stride) by (nonlinear_arith);
    } else {
        assert(stride * (rows.len() - lo) == 0) by (nonlinear_arith)
            requires lo == rows.len();
    }
}


/// Two to the power `k`, for `k` up to 8.
spec fn bit_bound(k: nat) -> nat {
    if k == 0 { 1 } else if k == 1 { 2 } else if k == 2 { 4 } else if k == 3 { 8 } else if k == 4 { 16 }
    else if k == 5 { 32 } else if k == 6 { 64 } else if k == 7 { 128 } else { 256 }
}

/// Byte `c` of source row `y` of a 1-bpp image.
fn pack_byte(width: u32, height: u32, indices: &[u8], y: u32, c: usize) -> (b: u8)
    requires
        indices.len() == width * height,
        y < height,
        8 * c + 8 <= usize::MAX,
    ensures
        b as nat == pack_bits(bits1(width as nat, indices@, y as int, c as int)),
{
    let ghost bits = bits1(width as nat, indices@, y as int, c as int);
    let mut acc: u32 = 0;
    let mut k: usize = 0;
    while k < 8
        invariant
            k <= 8,
            indices.len() == width * height,
            y < height,
            8 * c + 8 <= usize::MAX,
            bits == bits1(width as nat, indices@, y as int, c as int),
            acc == pack_bits(bits.subrange(0, k as int)),
            acc < bit_bound(k as nat),
        decreases 8 - k,
    {
        let x = 8 * c + k;
        let set: bool = if x < width as usize {
            proof { lemma_index_in_image(y as int, x as int, width as int, height as int); }
            indices[(y as usize) * (width as usize) + x] != 0
        } else {
            false
        };
        proof {
            let sub = bits.subrange(0, k + 1);
            assert(sub.drop_last() =~= bits.subrange(0, k as int));
            assert(sub.last() == set);
        }
        acc = acc * 2 + if set { 1 } else { 0 };
        k = k + 1;
    }
    assert(bits.subrange(0, 8) =~= bits);
    acc as u8
}

/// The nibble of pixel `x` of source row `y` of a 4-bpp image.
fn nibble_of(width: u32, height: u32, indices: &[u8], y: u32, x: usize) -> (n: u8)
    requires
        indices.len() == width * height,
        y < height,
    ensures
        n as nat == nibble_at(width as nat, indices@, y as int, x as int),
        n < 16,
{
    if x < width as usize {
        proof { lemma_index_in_image(y as int, x as int, width as int, height as int); }
        let v = indices[(y as usize) * (width as usize) + x];
        assert(v & 0x0F < 16) by (bit_vector);
        v & 0x0F
    } else {
        0
    }
}

/// Build a 8-bpp indexed BMP. `indices` is row-major, top to bottom,
/// `width * height` entries; the rows are stored bottom-up with 4-byte padding.
pub fn indexed_8bpp(width: u32, height: u32, palette: &[Rgba], indices: &[u8]) -> (out: Vec<u8>)
    requires
        indices.len() == width * height,
        bmp_buildable(8, width as nat, height as nat, palette.len() as nat),
    ensures
        out@ == spec_indexed_8bpp(width, height, palette@, indices@),
{
    let stride = row_stride(8, width);
    let ghost rows = Seq::new(height as nat, |y: int| row8(width as nat, stride as nat, indices@, y));
    let mut pixels: Vec<u8> = Vec::new();
    let mut y: u32 = height;
    while y > 0
        invariant
            y <= height,
            stride == stride_of(8, width as nat),
            indices.len() == width * height,
            bmp_buildable(8, width as nat, height as nat, palette.len() as nat),
            rows.len() == height,
            forall|yy: int| 0 <= yy < height ==> #[trigger] rows[yy] == row8(width as nat, stride as nat, indices@, yy),
            pixels@ == bottom_up(rows, y as int),
        decreases y,
    {
        y = y - 1;
        let ghost before = pixels@;
        let ghost row = row8(width as nat, stride as nat, indices@, y as int);
        let mut c: usize = 0;
        while c < stride
            invariant
                c <= stride,
                y < height,
                stride == stride_of(8, width as nat),
                indices.len() == width * height,
                bmp_buildable(8, width as nat, height as nat, palette.len() as nat),
                row == row8(width as nat, stride as nat, indices@, y as int),
                pixels@ == before + row.subrange(0, c as int),
            decreases stride - c,
        {
            let b: u8 = if c < width as usize {
                proof { lemma_index_in_image(y as int, c as int, width as int, height as int); }
                indices[(y as usize) * (width as usize) + c]
            } else {
                0
            };
            pixels.push(b);
            c = c + 1;
            assert(pixels@ =~= before + row.subrange(0, c as int));
        }
        assert(row.subrange(0, stride as int) =~= row);
        assert(rows[y as int] == row);
    }
    proof {
        lemma_bottom_up_len(rows, 0, stride as nat);
        assert(rows =~= rows_of(height as nat, |yy: int| row8(width as nat, stride as nat, indices@, yy)));
    }
    assemble(width, height, 8, palette, pixels.as_slice())
}

/// Build a 1-bpp indexed BMP. `indices` is row-major, top to bottom, each 0 or
/// not; pixels are packed most significant bit first.
pub fn indexed_1bpp(width: u32, height: u32, palette: &[Rgba], indices: &[u8]) -> (out: Vec<u8>)
    requires
        indices.len() == width * height,
        bmp_buildable(1, width as nat, height as nat, palette.len() as nat),
    ensures
        out@ == spec_indexed_1bpp(width, height, palette@, indices@),
{
    let stride = row_stride(1, width);
    let ghost rows = Seq::new(height as nat, |y: int| row1(width as nat, stride as nat, indices@, y));
    let mut pixels: Vec<u8> = Vec::new();
    let mut y: u32 = height;
    while y > 0
        invariant
            y <= height,
            stride == stride_of(1, width as nat),
            indices.len() == width * height,
            bmp_buildable(1, width as nat, height as nat, palette.len() as nat),
            rows.len() == height,
            forall|yy: int| 0 <= yy < height ==> #[trigger] rows[yy] == row1(width as nat, stride as nat, indices@, yy),
            pixels@ == bottom_up(rows, y as int),
        decreases y,
    {
        y = y - 1;
        let ghost before = pixels@;
        let ghost row = row1(width as nat, stride as nat, indices@, y as int);
        let mut c: usize = 0;
        while c < stride
            invariant
                c <= stride,
                y < height,
                stride == stride_of(1, width as nat),
                indices.len() == width * height,
                bmp_buildable(1, width as nat, height as nat, palette.len() as nat),
                row == row1(width as nat, stride as nat, indices@, y as int),
                pixels@ == before + row.subrange(0, c as int),
            decreases stride - c,
        {
            let b: u8 = pack_byte(width, height, indices, y, c);
            pixels.push(b);
            c = c + 1;
            assert(pixels@ =~= before + row.subrange(0, c as int));
        }
        assert(row.subrange(0, stride as int) =~= row);
        assert(rows[y as int] == row);
    }
    proof {
        lemma_bottom_up_len(rows, 0, stride as nat);
        assert(rows =~= rows_of(height as nat, |yy: int| row1(width as nat, stride as nat, indices@, yy)));
    }
    assemble(width, height, 1, palette, pixels.as_slice())
}

/// Build a 4-bpp indexed BMP. `indices` is row-major, top to bottom, each
/// taken modulo 16; the left pixel of each byte is its high nibble.
pub fn indexed_4bpp(width: u32, height: u32, palette: &[Rgba], indices: &[u8]) -> (out: Vec<u8>)
    requires
        indices.len() == width * height,
        bmp_buildable(4, width as nat, height as nat, palette.len() as nat),
    ensures
        out@ == spec_indexed_4bpp(width, height, palette@, indices@),
{
    let stride = row_stride(4, width);
    let ghost rows = Seq::new(height as nat, |y: int| row4(width as nat, stride as nat, indices@, y));
    let mut pixels: Vec<u8> = Vec::new();
    let mut y: u32 = height;
    while y > 0
        invariant
            y <= height,
            stride == stride_of(4, width as nat),
            indices.len() == width * height,
            bmp_buildable(4, width as nat, height as nat, palette.len() as nat),
            rows.len() == height,
            forall|yy: int| 0 <= yy < height ==> #[trigger] rows[yy] == row4(width as nat, stride as nat, indices@, yy),
            pixels@ == bottom_up(rows, y as int),
        decreases y,
    {
        y = y - 1;
        let ghost before = pixels@;
        let ghost row = row4(width as nat, stride as nat, indices@, y as int);
        let mut c: usize = 0;
        while c < stride
            invariant
                c <= stride,
                y < height,
                stride == stride_of(4, width as nat),
                indices.len() == width * height,
                bmp_buildable(4, width as nat, height as nat, palette.len() as nat),
                row == row4(width as nat, stride as nat, indices@, y as int),
                pixels@ == before + row.subrange(0, c as int),
            decreases stride - c,
        {
            let hi: u8 = nibble_of(width, height, indices, y, 2 * c);
            let lo: u8 = nibble_of(width, height, indices, y, 2 * c + 1);
            let b: u8 = hi * 16 + lo;
            pixels.push(b);
            c = c + 1;
            assert(pixels@ =~= before + row.subrange(0, c as int));
        }
        assert(row.subrange(0, stride as int) =~= row);
        assert(rows[y as int] == row);
    }
    proof {
        lemma_bottom_up_len(rows, 0, stride as nat);
        assert(rows =~= rows_of(height as nat, |yy: int| row4(width as nat, stride as nat, indices@, yy)));
    }
    assemble(width, height, 4, palette, pixels.as_slice())
}

/// Build a 24-bpp BGR BMP. `pixels_rgb` is row-major, top to bottom.
pub fn bgr_24bpp(width: u32, height: u32, pixels_rgb: &[Rgba]) -> (out: Vec<u8>)
    requires
        pixels_rgb.len() == width * height,
        bmp_buildable(24, width as nat, height as nat, 0),
    ensures
        out@ == spec_bgr_24bpp(width, height, pixels_rgb@),
{
    let stride = row_stride(24, width);
    let ghost rows = Seq::new(height as nat, |y: int| row24(width as nat, stride as nat, pixels_rgb@, y));
    let mut pixels: Vec<u8> = Vec::new();
    let mut y: u32 = height;
    while y > 0
        invariant
            y <= height,
            stride == stride_of(24, width as nat),
            pixels_rgb.len() == width * height,
            bmp_buildable(24, width as nat, height as nat, 0),
            rows.len() == height,
            forall|yy: int| 0 <= yy < height ==> #[trigger] rows[yy] == row24(width as nat, stride as nat, pixels_rgb@, yy),
            pixels@ == bottom_up(rows, y as int),
        decreases y,
    {
        y = y - 1;
        let ghost before = pixels@;
        let ghost row = row24(width as nat, stride as nat, pixels_rgb@, y as int);
        let mut c: usize = 0;
        while c < stride
            invariant
                c <= stride,
                y < height,
                stride == stride_of(24, width as nat),
                pixels_rgb.len() == width * height,
                bmp_buildable(24, width as nat, height as nat, 0),
                row == row24(width as nat, stride as nat, pixels_rgb@, y as int),
                pixels@ == before + row.subrange(0, c as int),
            decreases stride - c,
        {
            let b: u8 = if c < 3 * (width as usize) {
                proof { lemma_index_in_image(y as int, (c / 3) as int, width as int, height as int); }
                let p = pixels_rgb[(y as usize) * (width as usize) + c / 3];
                if c % 3 == 0 { p.b } else if c % 3 == 1 { p.g } else { p.r }
            } else {
                0
            };
            pixels.push(b);
            c = c + 1;
            assert(pixels@ =~= before + row.subrange(0, c as int));
        }
        assert(row.subrange(0, stride as int) =~= row);
        assert(rows[y as int] == row);
    }
    proof {
        lemma_bottom_up_len(rows, 0, stride as nat);
        assert(rows =~= rows_of(height as nat, |yy: int| row24(width as nat, stride as nat, pixels_rgb@, yy)));
    }
    assemble(width, height, 24, &[], pixels.as_slice())
}


// --- Demo images ---------------------------------------------------------------

/// The palette of the 8-bpp demo: red, green, blue, yellow.
pub open spec fn demo_palette() -> Seq<Rgba> {
    seq![
        Rgba { r: 0xFF, g: 0x00, b: 0x00, a: 255 },
        Rgba { r: 0x00, g: 0xFF, b: 0x00, a: 255 },
        Rgba { r: 0x00, g: 0x00, b: 0xFF, a: 255 },
        Rgba { r: 0xFF, g: 0xFF, b: 0x00, a: 255 },
    ]
}

/// A small, colorful 8-bpp demo image (a 4x4 gradient over a 4-color palette).
pub fn demo_indexed() -> (out: Vec<u8>)
    ensures
        out@ == spec_indexed_8bpp(4, 4, demo_palette(), Seq::new(16, |i: int| (i % 4) as u8)),
{
    let palette = vec![
        Rgba::rgb(0xFF, 0x00, 0x00),
        Rgba::rgb(0x00, 0xFF, 0x00),
        Rgba::rgb(0x00, 0x00, 0xFF),
        Rgba::rgb(0xFF, 0xFF, 0x00),
    ];
    let mut indices: Vec<u8> = Vec::new();
    let mut i: u32 = 0;
    while i < 16
        invariant
            i <= 16,
            indices@ == Seq::new(i as nat, |j: int| (j % 4) as u8),
        decreases 16 - i,
    {
        indices.push((i % 4) as u8);
        i = i + 1;
        assert(indices@ =~= Seq::new(i as nat, |j: int| (j % 4) as u8));
    }
    assert(palette@ =~= demo_palette());
    indexed_8bpp(4, 4, palette.as_slice(), indices.as_slice())
}

/// A 1-bpp (2-color) 16x8 checkerboard: one byte spans 8 pixels.
pub fn demo_1bpp() -> (out: Vec<u8>)
    ensures
        out@ == spec_indexed_1bpp(16, 8,
            seq![Rgba { r: 0x10, g: 0x10, b: 0x10, a: 255 }, Rgba { r: 0xF0, g: 0xF0, b: 0xF0, a: 255 }],
            Seq::new(128, |i: int| ((i % 16 + i / 16) % 2) as u8)),
{
    let palette = vec![Rgba::rgb(0x10, 0x10, 0x10), Rgba::rgb(0xF0, 0xF0, 0xF0)];
    let mut indices: Vec<u8> = Vec::new();
    let mut i: u32 = 0;
    while i < 128
        invariant
            i <= 128,
            indices@ == Seq::new(i as nat, |j: int| ((j % 16 + j / 16) % 2) as u8),
        decreases 128 - i,
    {
        indices.push(((i % 16 + i / 16) % 2) as u8);
        i = i + 1;
        assert(indices@ =~= Seq::new(i as nat, |j: int| ((j % 16 + j / 16) % 2) as u8));
    }
    let ghost p = seq![Rgba { r: 0x10, g: 0x10, b: 0x10, a: 255 }, Rgba { r: 0xF0, g: 0xF0, b: 0xF0, a: 255 }];
    assert(palette@ =~= p);
    indexed_1bpp(16, 8, palette.as_slice(), indices.as_slice())
}

/// Entry `i` of the 4-bpp demo palette.
pub open spec fn demo_4bpp_color(i: int) -> Rgba {
    Rgba { r: (i * 17) as u8, g: (255 - i * 17) as u8, b: ((i * 40) % 256) as u8, a: 255 }
}

/// A 4-bpp (16-color) 16x16 image whose columns walk the whole palette.
pub fn demo_4bpp() -> (out: Vec<u8>)
    ensures
        out@ == spec_indexed_4bpp(16, 16, Seq::new(16, |i: int| demo_4bpp_color(i)), Seq::new(256, |i: int| (i % 16) as u8)),
{
    let mut palette: Vec<Rgba> = Vec::new();
    let mut i: u32 = 0;
    while i < 16
        invariant
            i <= 16,
            palette@ == Seq::new(i as nat, |j: int| demo_4bpp_color(j)),
        decreases 16 - i,
    {
        let v = (i * 17) as u8;
        palette.push(Rgba::rgb(v, 255 - v, ((i * 40) % 256) as u8));
        i = i + 1;
        assert(palette@ =~= Seq::new(i as nat, |j: int| demo_4bpp_color(j)));
    }
    let mut indices: Vec<u8> = Vec::new();
    let mut k: u32 = 0;
    while k < 256
        invariant
            k <= 256,
            indices@ == Seq::new(k as nat, |j: int| (j % 16) as u8),
        decreases 256 - k,
    {
        indices.push((k % 16) as u8);
        k = k + 1;
        assert(indices@ =~= Seq::new(k as nat, |j: int| (j % 16) as u8));
    }
    indexed_4bpp(16, 16, palette.as_slice(), indices.as_slice())
}

/// Pixel `i` of the 16x16 gradient demos, with the given blue level.
pub open spec fn gradient_pixel(i: int, blue: u8) -> Rgba {
    Rgba { r: ((i % 16) * 16) as u8, g: ((i / 16) * 16) as u8, b: blue, a: 255 }
}

/// The pixels of a 16x16 gradient: red along x, green along y.
fn gradient(blue: u8) -> (px: Vec<Rgba>)
    ensures
        px@ == Seq::new(256, |i: int| gradient_pixel(i, blue)),
{
    let mut px: Vec<Rgba> = Vec::new();
    let mut i: u32 = 0;
    while i < 256
        invariant
            i <= 256,
            px@ == Seq::new(i as nat, |j: int| gradient_pixel(j, blue)),
        decreases 256 - i,
    {
        px.push(Rgba::rgb(((i % 16) * 16) as u8, ((i / 16) * 16) as u8, blue));
        i = i + 1;
        assert(px@ =~= Seq::new(i as nat, |j: int| gradient_pixel(j, blue)));
    }
    px
}

/// A 24-bpp true-color 16x16 RGB gradient.
pub fn demo_24bpp() -> (out: Vec<u8>)
    ensures
        out@ == spec_bgr_24bpp(16, 16, Seq::new(256, |i: int| gradient_pixel(i, 0x80))),
{
    let px = gradient(0x80);
    bgr_24bpp(16, 16, px.as_slice())
}

// --- Netpbm ----------------------------------------------------------------------

/// The ASCII decimal digits of `n`.
pub open spec fn dec_ascii(n: nat) -> Seq<u8>
    decreases n,
{
    if n < 10 { seq![(48 + n) as u8] } else { dec_ascii(n / 10).push((48 + n % 10) as u8) }
}

fn push_dec_ascii(v: &mut Vec<u8>, n: u32)
    ensures
        final(v)@ == old(v)@ + dec_ascii(n as nat),
    decreases n,
{
    if n >= 10 {
        push_dec_ascii(v, n / 10);
        v.push((48 + n % 10) as u8);
    } else {
        v.push((48 + n) as u8);
    }
    assert(final(v)@ =~= old(v)@ + dec_ascii(n as nat));
}

/// A Netpbm header: `P<magic>`, the width and height, and maxval 255, each
/// line ended by a line feed.
pub open spec fn pnm_header(magic: u8, width: u32, height: u32) -> Seq<u8> {
    seq![0x50u8, magic, 0x0Au8] + dec_ascii(width as nat) + seq![0x20u8] + dec_ascii(height as nat)
        + seq![0x0Au8, 0x32u8, 0x35u8, 0x35u8, 0x0Au8]
}

fn header_of(magic: u8, width: u32, height: u32) -> (out: Vec<u8>)
    ensures
        out@ == pnm_header(magic, width, height),
{
    let mut out: Vec<u8> = Vec::new();
    out.push(0x50);
    out.push(magic);
    out.push(0x0A);
    push_dec_ascii(&mut out, width);
    out.push(0x20);
    push_dec_ascii(&mut out, height);
    out.push(0x0A);
    out.push(0x32);
    out.push(0x35);
    out.push(0x35);
    out.push(0x0A);
    assert(out@ =~= pnm_header(magic, width, height));
    out
}

/// Red, green and blue bytes of every pixel, in order.
pub open spec fn rgb_bytes(px: Seq<Rgba>) -> Seq<u8>
    decreases px.len(),
{
    if px.len() == 0 { seq![] } else { rgb_bytes(px.drop_last()) + seq![px.last().r, px.last().g, px.last().b] }
}

/// Build a binary P6 (RGB) Netpbm image from row-major, top-down pixels.
pub fn netpbm_p6(width: u32, height: u32, pixels_rgb: &[Rgba]) -> (out: Vec<u8>)
    requires
        pixels_rgb.len() == width * height,
        width * height <= u32::MAX,
    ensures
        out@ == pnm_header(0x36, width, height) + rgb_bytes(pixels_rgb@),
{
    let mut out = header_of(0x36, width, height);
    let ghost head = out@;
    let mut i: usize = 0;
    while i < pixels_rgb.len()
        invariant
            i <= pixels_rgb.len(),
            out@ == head + rgb_bytes(pixels_rgb@.subrange(0, i as int)),
        decreases pixels_rgb.len() - i,
    {
        let c = pixels_rgb[i];
        out.push(c.r);
        out.push(c.g);
        out.push(c.b);
        proof {
            let sub = pixels_rgb@.subrange(0, i + 1);
            assert(sub.drop_last() =~= pixels_rgb@.subrange(0, i as int));
            assert(sub.last() == c);
        }
        i = i + 1;
        assert(out@ =~= head + rgb_bytes(pixels_rgb@.subrange(0, i as int)));
    }
    assert(pixels_rgb@.subrange(0, pixels_rgb.len() as int) =~= pixels_rgb@);
    out
}

/// Build a binary P5 (grayscale) Netpbm image from row-major gray samples.
pub fn netpbm_p5(width: u32, height: u32, gray: &[u8]) -> (out: Vec<u8>)
    requires
        gray.len() == width * height,
        width * height <= u32::MAX,
    ensures
        out@ == pnm_header(0x35, width, height) + gray@,
{
    let mut out = header_of(0x35, width, height);
    push_all(&mut out, gray);
    out
}

/// A 16x16 P6 demo (RGB gradient), for exercising the second format.
pub fn demo_ppm() -> (out: Vec<u8>)
    ensures
        out@ == pnm_header(0x36, 16, 16) + rgb_bytes(Seq::new(256, |i: int| gradient_pixel(i, 0x60))),
{
    let px = gradient(0x60);
    netpbm_p6(16, 16, px.as_slice())
}


// --- JPEG --------------------------------------------------------------------------

/// A length-prefixed JPEG marker segment: `FF <marker>`, the big-endian
/// length (the two length bytes plus the payload), then the payload.
pub open spec fn jpeg_segment(marker: u8, payload: Seq<u8>) -> Seq<u8> {
    seq![0xFFu8, marker] + be16(payload.len() + 2) + payload
}

/// Append a length-prefixed JPEG marker segment.
fn push_jpeg_segment(out: &mut Vec<u8>, marker: u8, payload: &[u8])
    requires
        payload.len() + 2 <= 0xFFFF,
    ensures
        final(out)@ == old(out)@ + jpeg_segment(marker, payload@),
{
    out.push(0xFF);
    out.push(marker);
    push_be16(out, (payload.len() + 2) as u16);
    push_all(out, payload);
    assert(final(out)@ =~= old(out)@ + jpeg_segment(marker, payload@));
}

/// The JFIF APP0 payload: identifier, version 1.01, no density units, 1x1
/// density, no thumbnail.
pub open spec fn jfif_payload() -> Seq<u8> {
    seq![0x4Au8, 0x46, 0x49, 0x46, 0x00, 0x01, 0x01, 0x00, 0x00, 0x01, 0x00, 0x01, 0x00, 0x00]
}

/// The bytes of the comment `imghex demo`.
pub open spec fn demo_comment() -> Seq<u8> {
    seq![0x69u8, 0x6D, 0x67, 0x68, 0x65, 0x78, 0x20, 0x64, 0x65, 0x6D, 0x6F]
}

/// The entropy-coded placeholder scan: ordinary bytes, a stuffed `FF 00`
/// and an `FF D0` restart marker.
pub open spec fn demo_scan() -> Seq<u8> {
    seq![0xAAu8, 0xBB, 0xFF, 0x00, 0xCC, 0xFF, 0xD0, 0x12, 0x34]
}

/// A structurally valid baseline JPEG of the given dimensions.
pub open spec fn spec_jpeg_baseline(width: u16, height: u16) -> Seq<u8> {
    seq![0xFFu8, 0xD8]
        + jpeg_segment(0xE0, jfif_payload())
        + jpeg_segment(0xFE, demo_comment())
        + jpeg_segment(0xDB, seq![0x00u8] + Seq::new(64, |i: int| 0x10u8))
        + jpeg_segment(0xC0, seq![0x08u8] + be16(height as nat) + be16(width as nat) + seq![0x01u8, 0x01, 0x11, 0x00])
        + jpeg_segment(0xC4, seq![0x00u8] + Seq::new(16, |i: int| 0x00u8))
        + jpeg_segment(0xDA, seq![0x01u8, 0x01, 0x00, 0x00, 0x3F, 0x00])
        + demo_scan()
        + seq![0xFFu8, 0xD9]
}

/// `count` copies of `v`.
fn repeated(v: u8, count: usize) -> (out: Vec<u8>)
    ensures
        out@ == Seq::new(count as nat, |i: int| v),
{
    let mut out: Vec<u8> = Vec::new();
    let mut i: usize = 0;
    while i < count
        invariant
            i <= count,
            out@ == Seq::new(i as nat, |j: int| v),
        decreases count - i,
    {
        out.push(v);
        i = i + 1;
        assert(out@ =~= Seq::new(i as nat, |j: int| v));
    }
    out
}

/// Build a structurally valid baseline JPEG (JFIF) byte stream.
///
/// The image is not meant to be decoded: the quantization and Huffman tables
/// and the entropy-coded scan hold placeholder bytes. The framing is faithful:
/// SOI, an APP0/JFIF segment, a comment, a DQT, a baseline SOF0 carrying the
/// real `width` and `height`, a DHT, an SOS, scan data (with a stuffed `FF00`
/// and an `FFD0` restart marker) and EOI.
pub fn jpeg_baseline(width: u16, height: u16) -> (out: Vec<u8>)
    ensures
        out@ == spec_jpeg_baseline(width, height),
{
    let mut out: Vec<u8> = Vec::new();
    out.push(0xFF);
    out.push(0xD8);
    let jfif: [u8; 14] = [0x4A, 0x46, 0x49, 0x46, 0x00, 0x01, 0x01, 0x00, 0x00, 0x01, 0x00, 0x01, 0x00, 0x00];
    assert(jfif@ =~= jfif_payload());
    push_jpeg_segment(&mut out, 0xE0, &jfif);
    let comment: [u8; 11] = [0x69, 0x6D, 0x67, 0x68, 0x65, 0x78, 0x20, 0x64, 0x65, 0x6D, 0x6F];
    assert(comment@ =~= demo_comment());
    push_jpeg_segment(&mut out, 0xFE, &comment);
    let mut dqt: Vec<u8> = Vec::new();
    dqt.push(0x00);
    let mut tail = repeated(0x10, 64);
    dqt.append(&mut tail);
    push_jpeg_segment(&mut out, 0xDB, dqt.as_slice());
    let mut sof: Vec<u8> = Vec::new();
    sof.push(0x08);
    push_be16(&mut sof, height);
    push_be16(&mut sof, width);
    sof.push(0x01);
    sof.push(0x01);
    sof.push(0x11);
    sof.push(0x00);
    push_jpeg_segment(&mut out, 0xC0, sof.as_slice());
    let mut dht: Vec<u8> = Vec::new();
    dht.push(0x00);
    let mut zeros = repeated(0x00, 16);
    dht.append(&mut zeros);
    push_jpeg_segment(&mut out, 0xC4, dht.as_slice());
    let sos: [u8; 6] = [0x01, 0x01, 0x00, 0x00, 0x3F, 0x00];
    push_jpeg_segment(&mut out, 0xDA, &sos);
    let scan: [u8; 9] = [0xAA, 0xBB, 0xFF, 0x00, 0xCC, 0xFF, 0xD0, 0x12, 0x34];
    assert(scan@ =~= demo_scan());
    push_all(&mut out, &scan);
    out.push(0xFF);
    out.push(0xD9);
    assert(sos@ =~= seq![0x01u8, 0x01, 0x00, 0x00, 0x3F, 0x00]);
    assert(out@ =~= spec_jpeg_baseline(width, height));
    out
}

/// A 16x16 baseline JPEG demo, exercising the marker-structure view.
pub fn demo_jpeg() -> (out: Vec<u8>)
    ensures
        out@ == spec_jpeg_baseline(16, 16),
{
    jpeg_baseline(16, 16)
}

/// Two quantization tables in one DQT payload: table 0 with 8-bit values
/// `0..64`, table 1 with big-endian 16-bit values `1000..1064`.
pub open spec fn dual_dqt_payload() -> Seq<u8> {
    seq![0x00u8] + Seq::new(64, |k: int| k as u8) + seq![0x11u8]
        + Seq::new(128, |i: int| if i % 2 == 0 { ((1000 + i / 2) / 256) as u8 } else { ((1000 + i / 2) % 256) as u8 })
}

/// Build a minimal JPEG (SOI, one DQT, EOI) whose single DQT segment defines
/// two quantization tables: table 0 with 8-bit values `0..64`, and table 1
/// with 16-bit values `1000..1064`.
pub fn jpeg_dual_dqt() -> (out: Vec<u8>)
    ensures
        out@ == seq![0xFFu8, 0xD8] + jpeg_segment(0xDB, dual_dqt_payload()) + seq![0xFFu8, 0xD9],
{
    let mut dqt: Vec<u8> = Vec::new();
    dqt.push(0x00);
    let mut k: u16 = 0;
    while k < 64
        invariant
            k <= 64,
            dqt@ == seq![0x00u8] + Seq::new(k as nat, |j: int| j as u8),
        decreases 64 - k,
    {
        dqt.push(k as u8);
        k = k + 1;
        assert(dqt@ =~= seq![0x00u8] + Seq::new(k as nat, |j: int| j as u8));
    }
    dqt.push(0x11);
    let ghost head = dqt@;
    let mut k: u16 = 0;
    while k < 64
        invariant
            k <= 64,
            dqt@ == head + Seq::new(2 * k as nat,
                |i: int| if i % 2 == 0 { ((1000 + i / 2) / 256) as u8 } else { ((1000 + i / 2) % 256) as u8 }),
        decreases 64 - k,
    {
        push_be16(&mut dqt, 1000 + k);
        k = k + 1;
        reveal(byte_of);
        assert(dqt@ =~= head + Seq::new(2 * k as nat,
            |i: int| if i % 2 == 0 { ((1000 + i / 2) / 256) as u8 } else { ((1000 + i / 2) % 256) as u8 }));
    }
    assert(dqt@ =~= dual_dqt_payload());
    let mut out: Vec<u8> = Vec::new();
    out.push(0xFF);
    out.push(0xD8);
    push_jpeg_segment(&mut out, 0xDB, dqt.as_slice());
    out.push(0xFF);
    out.push(0xD9);
    assert(out@ =~= seq![0xFFu8, 0xD8] + jpeg_segment(0xDB, dual_dqt_payload()) + seq![0xFFu8, 0xD9]);
    out
}

/// Two Huffman tables in one DHT payload: a DC table (id 0) and an AC table
/// (id 0), each with three symbols.
pub open spec fn dual_dht_payload() -> Seq<u8> {
    seq![0x00u8, 0, 1, 2, 0, 0, 0, 0, 0, 0, 0, 0, 0, 0, 0, 0, 0, 0x01, 0x02, 0x03,
        0x10, 0, 2, 1, 0, 0, 0, 0, 0, 0, 0, 0, 0, 0, 0, 0, 0, 0x11, 0x12, 0x21]
}

/// Build a minimal JPEG (SOI, one DHT, EOI) whose single DHT segment defines
/// two Huffman tables back to back: a DC table (id 0) with 3 symbols and an
/// AC table (id 0) with 3 symbols.
pub fn jpeg_dual_dht() -> (out: Vec<u8>)
    ensures
        out@ == seq![0xFFu8, 0xD8] + jpeg_segment(0xC4, dual_dht_payload()) + seq![0xFFu8, 0xD9],
{
    let dht: [u8; 40] = [0x00, 0, 1, 2, 0, 0, 0, 0, 0, 0, 0, 0, 0, 0, 0, 0, 0, 0x01, 0x02, 0x03,
        0x10, 0, 2, 1, 0, 0, 0, 0, 0, 0, 0, 0, 0, 0, 0, 0, 0, 0x11, 0x12, 0x21];
    assert(dht@ =~= dual_dht_payload());
    let mut out: Vec<u8> = Vec::new();
    out.push(0xFF);
    out.push(0xD8);
    push_jpeg_segment(&mut out, 0xC4, &dht);
    out.push(0xFF);
    out.push(0xD9);
    assert(out@ =~= seq![0xFFu8, 0xD8] + jpeg_segment(0xC4, dual_dht_payload()) + seq![0xFFu8, 0xD9]);
    out
}

/// The SOF2 payload of the three-component fixture: precision 8, 16 lines of
/// 32 samples, and the Y, Cb and Cr component specs.
pub open spec fn ycbcr_sof() -> Seq<u8> {
    seq![0x08u8, 0x00, 0x10, 0x00, 0x20, 0x03, 0x01, 0x22, 0x00, 0x02, 0x11, 0x01, 0x03, 0x21, 0x01]
}

/// The SOS payload of the three-component fixture: three scan components
/// with distinct table selectors and Ss=1, Se=63, Ah=1, Al=2.
pub open spec fn ycbcr_sos() -> Seq<u8> {
    seq![0x03u8, 0x01, 0x00, 0x02, 0x11, 0x03, 0x12, 0x01, 0x3F, 0x12]
}

/// Build a minimal three-component (YCbCr) JPEG: SOI, a progressive SOF2
/// whose components carry distinct sampling factors and quantization-table
/// selectors, an SOS whose entries carry distinct DC/AC table selectors and a
/// non-baseline spectral selection, then EOI. The SOF2 payload begins at
/// offset 6 and the SOS payload at offset 25.
pub fn jpeg_ycbcr() -> (out: Vec<u8>)
    ensures
        out@ == seq![0xFFu8, 0xD8] + jpeg_segment(0xC2, ycbcr_sof()) + jpeg_segment(0xDA, ycbcr_sos()) + seq![0xFFu8, 0xD9],
{
    let sof: [u8; 15] = [0x08, 0x00, 0x10, 0x00, 0x20, 0x03, 0x01, 0x22, 0x00, 0x02, 0x11, 0x01, 0x03, 0x21, 0x01];
    let sos: [u8; 10] = [0x03, 0x01, 0x00, 0x02, 0x11, 0x03, 0x12, 0x01, 0x3F, 0x12];
    assert(sof@ =~= ycbcr_sof());
    assert(sos@ =~= ycbcr_sos());
    let mut out: Vec<u8> = Vec::new();
    out.push(0xFF);
    out.push(0xD8);
    push_jpeg_segment(&mut out, 0xC2, &sof);
    push_jpeg_segment(&mut out, 0xDA, &sos);
    out.push(0xFF);
    out.push(0xD9);
    assert(out@ =~= seq![0xFFu8, 0xD8] + jpeg_segment(0xC2, ycbcr_sof()) + jpeg_segment(0xDA, ycbcr_sos()) + seq![0xFFu8, 0xD9]);
    out
}

// --- EXIF ------------------------------------------------------------------------

/// An APP1/EXIF JPEG around a TIFF block: SOI, the APP1 segment with the
/// `Exif\0\0` identifier and the block, EOI. The block starts at offset 12.
pub open spec fn exif_jpeg(tiff: Seq<u8>) -> Seq<u8> {
    seq![0xFFu8, 0xD8] + jpeg_segment(0xE1, seq![0x45u8, 0x78, 0x69, 0x66, 0x00, 0x00] + tiff) + seq![0xFFu8, 0xD9]
}

fn wrap_exif_jpeg(tiff: &[u8]) -> (out: Vec<u8>)
    requires
        tiff.len() + 8 <= 0xFFFF,
    ensures
        out@ == exif_jpeg(tiff@),
{
    let mut app1: Vec<u8> = Vec::new();
    let id: [u8; 6] = [0x45, 0x78, 0x69, 0x66, 0x00, 0x00];
    push_all(&mut app1, &id);
    push_all(&mut app1, tiff);
    let mut out: Vec<u8> = Vec::new();
    out.push(0xFF);
    out.push(0xD8);
    push_jpeg_segment(&mut out, 0xE1, app1.as_slice());
    out.push(0xFF);
    out.push(0xD9);
    assert(app1@ =~= seq![0x45u8, 0x78, 0x69, 0x66, 0x00, 0x00] + tiff@);
    assert(out@ =~= exif_jpeg(tiff@));
    out
}

/// A 12-byte little-endian IFD entry.
pub open spec fn ifd_entry_le(tag: nat, typ: nat, count: nat, value: nat) -> Seq<u8> {
    le16(tag) + le16(typ) + le32(count) + le32(value)
}

/// A 12-byte big-endian IFD entry.
pub open spec fn ifd_entry_be(tag: nat, typ: nat, count: nat, value: nat) -> Seq<u8> {
    be16(tag) + be16(typ) + be32(count) + be32(value)
}

fn push_ifd_entry_le(v: &mut Vec<u8>, tag: u16, typ: u16, count: u32, value: u32)
    ensures
        final(v)@ == old(v)@ + ifd_entry_le(tag as nat, typ as nat, count as nat, value as nat),
{
    push_u16(v, tag);
    push_u16(v, typ);
    push_u32(v, count);
    push_u32(v, value);
    assert(final(v)@ =~= old(v)@ + ifd_entry_le(tag as nat, typ as nat, count as nat, value as nat));
}

fn push_ifd_entry_be(v: &mut Vec<u8>, tag: u16, typ: u16, count: u32, value: u32)
    ensures
        final(v)@ == old(v)@ + ifd_entry_be(tag as nat, typ as nat, count as nat, value as nat),
{
    push_be16(v, tag);
    push_be16(v, typ);
    push_be32(v, count);
    push_be32(v, value);
    assert(final(v)@ =~= old(v)@ + ifd_entry_be(tag as nat, typ as nat, count as nat, value as nat));
}

/// The bytes of `imghex` and a terminating zero.
pub open spec fn make_text() -> Seq<u8> {
    seq![0x69u8, 0x6D, 0x67, 0x68, 0x65, 0x78, 0x00]
}

/// The bytes of `2026:07:14 12:00:00` and a terminating zero.
pub open spec fn datetime_text() -> Seq<u8> {
    seq![0x32u8, 0x30, 0x32, 0x36, 0x3A, 0x30, 0x37, 0x3A, 0x31, 0x34, 0x20, 0x31, 0x32, 0x3A, 0x30, 0x30, 0x3A, 0x30, 0x30, 0x00]
}

/// The little-endian TIFF block of the EXIF fixture. Offsets from its start:
/// header at 0, IFD0 (Make, Orientation, DateTime, ExifIFD pointer) at 8,
/// Make data at 62, DateTime data at 69, the ExifIFD (ExposureTime,
/// ISOSpeedRatings) at 89, the ExposureTime rational at 119.
pub open spec fn exif_le_tiff() -> Seq<u8> {
    seq![0x49u8, 0x49] + le16(42) + le32(8)
        + le16(4)
        + ifd_entry_le(0x010F, 2, 7, 62)
        + ifd_entry_le(0x0112, 3, 1, 1)
        + ifd_entry_le(0x0132, 2, 20, 69)
        + ifd_entry_le(0x8769, 4, 1, 89)
        + le32(0)
        + make_text()
        + datetime_text()
        + le16(2)
        + ifd_entry_le(0x829A, 5, 1, 119)
        + ifd_entry_le(0x8827, 3, 1, 400)
        + le32(0)
        + le32(1) + le32(100)
}

/// Build a little-endian (`II`) APP1/EXIF JPEG. IFD0 carries Make "imghex"
/// (ASCII, out of line), Orientation 1 (SHORT, inline), DateTime (ASCII, out of
/// line) and an ExifIFD pointer (tag 0x8769); the ExifIFD carries
/// ExposureTime 1/100 (RATIONAL) and ISOSpeedRatings 400 (SHORT).
pub fn jpeg_exif_le() -> (out: Vec<u8>)
    ensures
        out@ == exif_jpeg(exif_le_tiff()),
{
    let make: [u8; 7] = [0x69, 0x6D, 0x67, 0x68, 0x65, 0x78, 0x00];
    let datetime: [u8; 20] = [0x32, 0x30, 0x32, 0x36, 0x3A, 0x30, 0x37, 0x3A, 0x31, 0x34, 0x20, 0x31, 0x32, 0x3A,
        0x30, 0x30, 0x3A, 0x30, 0x30, 0x00];
    assert(make@ =~= make_text());
    assert(datetime@ =~= datetime_text());
    let mut t: Vec<u8> = Vec::new();
    t.push(0x49);
    t.push(0x49);
    push_u16(&mut t, 42);
    push_u32(&mut t, 8);
    push_u16(&mut t, 4);
    push_ifd_entry_le(&mut t, 0x010F, 2, 7, 62);
    push_ifd_entry_le(&mut t, 0x0112, 3, 1, 1);
    push_ifd_entry_le(&mut t, 0x0132, 2, 20, 69);
    push_ifd_entry_le(&mut t, 0x8769, 4, 1, 89);
    push_u32(&mut t, 0);
    push_all(&mut t, &make);
    push_all(&mut t, &datetime);
    push_u16(&mut t, 2);
    push_ifd_entry_le(&mut t, 0x829A, 5, 1, 119);
    push_ifd_entry_le(&mut t, 0x8827, 3, 1, 400);
    push_u32(&mut t, 0);
    push_u32(&mut t, 1);
    push_u32(&mut t, 100);
    assert(t@ =~= exif_le_tiff());
    wrap_exif_jpeg(t.as_slice())
}

/// The big-endian TIFF block of the EXIF fixture: IFD0 at 8 with Make
/// (ASCII, data at 38) and Orientation 6 (SHORT, inline).
pub open spec fn exif_be_tiff() -> Seq<u8> {
    seq![0x4Du8, 0x4D] + be16(42) + be32(8)
        + be16(2)
        + ifd_entry_be(0x010F, 2, 7, 38)
        + be16(0x0112) + be16(3) + be32(1) + be16(6) + be16(0)
        + be32(0)
        + make_text()
}

/// Build a big-endian (`MM`) APP1/EXIF JPEG with Make "imghex" (ASCII, out
/// of line) and Orientation 6 (SHORT, inline) in IFD0.
pub fn jpeg_exif_be() -> (out: Vec<u8>)
    ensures
        out@ == exif_jpeg(exif_be_tiff()),
{
    let make: [u8; 7] = [0x69, 0x6D, 0x67, 0x68, 0x65, 0x78, 0x00];
    assert(make@ =~= make_text());
    let mut t: Vec<u8> = Vec::new();
    t.push(0x4D);
    t.push(0x4D);
    push_be16(&mut t, 42);
    push_be32(&mut t, 8);
    push_be16(&mut t, 2);
    push_ifd_entry_be(&mut t, 0x010F, 2, 7, 38);
    push_be16(&mut t, 0x0112);
    push_be16(&mut t, 3);
    push_be32(&mut t, 1);
    push_be16(&mut t, 6);
    push_be16(&mut t, 0);
    push_be32(&mut t, 0);
    push_all(&mut t, &make);
    assert(t@ =~= exif_be_tiff());
    wrap_exif_jpeg(t.as_slice())
}

/// Build an APP1/EXIF JPEG whose TIFF header points IFD0 far past the payload.
pub fn jpeg_exif_bad_offset() -> (out: Vec<u8>)
    ensures
        out@ == exif_jpeg(seq![0x49u8, 0x49] + le16(42) + le32(0xFFFF_FFFF)),
{
    let mut t: Vec<u8> = Vec::new();
    t.push(0x49);
    t.push(0x49);
    push_u16(&mut t, 42);
    push_u32(&mut t, 0xFFFF_FFFF);
    assert(t@ =~= seq![0x49u8, 0x49] + le16(42) + le32(0xFFFF_FFFF));
    wrap_exif_jpeg(t.as_slice())
}

// --- Reading back what was built ---------------------------------------------------

proof fn lemma_le16_value(x: nat)
    requires
        x < 65536,
    ensures
        le16(x)[0] as int + 256 * le16(x)[1] as int == x,
{
    reveal(byte_of);
    vstd::arithmetic::div_mod::lemma_fundamental_div_mod(x as int, 256);
}

proof fn lemma_le32_value(x: nat)
    requires
        x < 0x1_0000_0000,
    ensures
        le32(x)[0] as int + 256 * le32(x)[1] as int + 65536 * le32(x)[2] as int + 16777216 * le32(x)[3] as int == x,
{
    reveal(byte_of);
    vstd::arithmetic::div_mod::lemma_fundamental_div_mod(x as int, 256);
    vstd::arithmetic::div_mod::lemma_fundamental_div_mod(x as int / 256, 256);
    vstd::arithmetic::div_mod::lemma_fundamental_div_mod(x as int / 65536, 256);
    vstd::arithmetic::div_mod::lemma_div_denominator(x as int, 256, 256);
    vstd::arithmetic::div_mod::lemma_div_denominator(x as int, 65536, 256);
}

proof fn lemma_file_header_read_back(file_size: nat, off_bits: nat)
    requires
        file_size < 0x1_0000_0000,
        off_bits < 0x1_0000_0000,
    ensures
        file_header(file_size, off_bits).len() == 14,
        file_header(file_size, off_bits)[0] == 0x42,
        file_header(file_size, off_bits)[1] == 0x4D,
        u32_at(file_header(file_size, off_bits), 10) == off_bits,
{
    lemma_le32_value(file_size);
    lemma_le16_value(0);
    lemma_le32_value(off_bits);
    let f = file_header(file_size, off_bits);
    assert(f.subrange(10, 14) =~= le32(off_bits));
    assert(f[10] == le32(off_bits)[0] && f[11] == le32(off_bits)[1] && f[12] == le32(off_bits)[2] && f[13] == le32(off_bits)[3]);
}

proof fn lemma_info_header_read_back(width: u32, height: u32, bit_count: u16, palette_len: nat, data_len: nat)
    requires
        palette_len < 0x1_0000_0000,
    ensures
        ({
            let ih = info_header(width, height, bit_count, palette_len, data_len);
            &&& ih.len() == 40
            &&& u32_at(ih, 0) == 40
            &&& u32_at(ih, 4) == width
            &&& u32_at(ih, 8) == height
            &&& u16_at(ih, 14) == bit_count
            &&& u32_at(ih, 16) == 0
            &&& u32_at(ih, 32) == palette_len
        }),
{
    lemma_le32_value(40);
    lemma_le32_value(width as nat);
    lemma_le32_value(height as nat);
    lemma_le16_value(1);
    lemma_le16_value(bit_count as nat);
    lemma_le32_value(0);
    lemma_le32_value(data_len % 0x1_0000_0000);
    lemma_le32_value(2835);
    lemma_le32_value(palette_len);
    let ih = info_header(width, height, bit_count, palette_len, data_len);
    assert(ih.subrange(0, 4) =~= le32(40));
    assert(ih.subrange(4, 8) =~= le32(width as nat));
    assert(ih.subrange(8, 12) =~= le32(height as nat));
    assert(ih.subrange(14, 16) =~= le16(bit_count as nat));
    assert(ih.subrange(16, 20) =~= le32(0));
    assert(ih.subrange(32, 36) =~= le32(palette_len));
    assert(ih[0] == le32(40)[0] && ih[1] == le32(40)[1] && ih[2] == le32(40)[2] && ih[3] == le32(40)[3]);
    assert(ih[4] == le32(width as nat)[0] && ih[5] == le32(width as nat)[1] && ih[6] == le32(width as nat)[2] && ih[7] == le32(width as nat)[3]);
    assert(ih[8] == le32(height as nat)[0] && ih[9] == le32(height as nat)[1] && ih[10] == le32(height as nat)[2] && ih[11] == le32(height as nat)[3]);
    assert(ih[14] == le16(bit_count as nat)[0] && ih[15] == le16(bit_count as nat)[1]);
    assert(ih[16] == le32(0)[0] && ih[17] == le32(0)[1] && ih[18] == le32(0)[2] && ih[19] == le32(0)[3]);
    assert(ih[32] == le32(palette_len)[0] && ih[33] == le32(palette_len)[1] && ih[34] == le32(palette_len)[2] && ih[35] == le32(palette_len)[3]);
}

proof fn lemma_palette_bytes(p: Seq<Rgba>, i: int)
    requires
        0 <= i < p.len(),
    ensures
        palette_bytes(p).len() == 4 * p.len(),
        palette_bytes(p)[4 * i] == p[i].b,
        palette_bytes(p)[4 * i + 1] == p[i].g,
        palette_bytes(p)[4 * i + 2] == p[i].r,
    decreases p.len(),
{
    lemma_palette_bytes_len(p.drop_last());
    if i < p.len() - 1 {
        lemma_palette_bytes(p.drop_last(), i);
    }
}

proof fn lemma_palette_bytes_len(p: Seq<Rgba>)
    ensures
        palette_bytes(p).len() == 4 * p.len(),
    decreases p.len(),
{
    if p.len() > 0 {
        lemma_palette_bytes_len(p.drop_last());
    }
}

proof fn lemma_bottom_up_index(rows: Seq<Seq<u8>>, lo: int, stride: nat, j: int, c: int)
    requires
        0 <= lo <= rows.len(),
        forall|y: int| 0 <= y < rows.len() ==> #[trigger] rows[y].len() == stride,
        0 <= j < rows.len() - lo,
        0 <= c < stride,
    ensures
        bottom_up(rows, lo)[j * stride + c] == rows[rows.len() - 1 - j][c],
    decreases rows.len() - lo,
{
    let n = rows.len() as int;
    lemma_bottom_up_len(rows, lo + 1, stride);
    assert(rows[lo].len() == stride);
    if j < n - lo - 1 {
        assert(j * stride + c < stride * (n - (lo + 1))) by (nonlinear_arith)
            requires 0 <= j < n - lo - 1, 0 <= c < stride;
        lemma_bottom_up_index(rows, lo + 1, stride, j, c);
    } else {
        assert(j * stride + c - stride * (n - (lo + 1)) == c) by (nonlinear_arith)
            requires j == n - lo - 1;
        assert(j * stride + c >= stride * (n - (lo + 1))) by (nonlinear_arith)
            requires j == n - lo - 1, 0 <= c;
    }
}

/// A color with its alpha made opaque, as a BMP color table reads back.
pub open spec fn opaque(c: Rgba) -> Rgba {
    Rgba { r: c.r, g: c.g, b: c.b, a: 255 }
}

/// The pixel layout of an indexed BMP built here with `bits` per pixel.
pub open spec fn indexed_layout(bits: u8, width: u32, height: u32, palette_len: nat) -> PixelInfo {
    PixelInfo {
        data_start: (54 + 4 * palette_len) as usize,
        width,
        height,
        top_down: false,
        row_stride: stride_of(bits as nat, width as nat) as usize,
        encoding: PixelEncoding::Indexed { bits },
    }
}

/// The bytes of a BMP built by `bmp_file`: its header values, its color
/// table and its pixel array, each where the parser reads it.
proof fn lemma_bmp_file_bytes(width: u32, height: u32, bit_count: u16, palette: Seq<Rgba>, px: Seq<u8>)
    requires
        palette.len() <= 256,
        px.len() > 0,
    ensures
        ({
            let b = bmp_file(width, height, bit_count, palette, px);
            let off = 54 + 4 * palette.len();
            &&& b.len() == off + px.len()
            &&& b[0] == 0x42 && b[1] == 0x4D
            &&& u32_at(b, 10) == off
            &&& u32_at(b, 14) == 40
            &&& u32_at(b, 18) == width
            &&& u32_at(b, 22) == height
            &&& u16_at(b, 28) == bit_count
            &&& u32_at(b, 30) == 0
            &&& u32_at(b, 46) == palette.len()
            &&& forall|k: int| 0 <= k < 4 * palette.len() ==> #[trigger] b[54 + k] == palette_bytes(palette)[k]
            &&& forall|k: int| 0 <= k < px.len() ==> #[trigger] b[off + k] == px[k]
        }),
{
    let p = palette.len();
    lemma_palette_bytes_len(palette);
    let off = 54 + 4 * p;
    let fh = file_header(off + px.len(), off);
    let ih = info_header(width, height, bit_count, p, px.len());
    lemma_file_header_read_back((off + px.len()) % 0x1_0000_0000, off);
    lemma_info_header_read_back(width, height, bit_count, p, px.len());
    let b = bmp_file(width, height, bit_count, palette, px);
    assert(b == fh + ih + palette_bytes(palette) + px);
    assert(u32_at(b, 10) == u32_at(fh, 10));
    assert(u32_at(b, 14) == u32_at(ih, 0));
    assert(u32_at(b, 18) == u32_at(ih, 4));
    assert(u32_at(b, 22) == u32_at(ih, 8));
    assert(u16_at(b, 28) == u16_at(ih, 14));
    assert(u32_at(b, 30) == u32_at(ih, 16));
    assert(u32_at(b, 46) == u32_at(ih, 32));
}

/// The pixel array of a BMP built from rows of `stride` bytes each.
proof fn lemma_rows_pixels(rows: Seq<Seq<u8>>, stride: nat, width: nat, bit_count: nat)
    requires
        width > 0,
        rows.len() > 0,
        stride == stride_of(bit_count, width),
        bit_count > 0,
        forall|y: int| 0 <= y < rows.len() ==> #[trigger] rows[y].len() == stride,
    ensures
        stride > 0,
        bottom_up(rows, 0).len() == stride * rows.len(),
        stride * rows.len() > 0,
{
    lemma_bottom_up_len(rows, 0, stride);
    assert(stride > 0) by (nonlinear_arith)
        requires stride == ((bit_count * width + 31) / 32) * 4, width > 0, bit_count > 0;
    assert(stride * rows.len() > 0) by (nonlinear_arith)
        requires stride > 0, rows.len() > 0;
}

/// Parsing an indexed BMP built from its rows reads back its layout and its
/// color table (made opaque); each byte of the pixel array sits right after
/// the table.
#[verifier::spinoff_prover]
#[verifier::rlimit(60)]
proof fn lemma_indexed_bmp_parses(bits: u16, width: u32, height: u32, palette: Seq<Rgba>, rows: Seq<Seq<u8>>)
    requires
        bits == 1 || bits == 4 || bits == 8,
        0 < width <= 0x7FFF_FFFF,
        0 < height <= 0x7FFF_FFFF,
        palette.len() <= 256,
        rows.len() == height,
        forall|y: int| 0 <= y < rows.len() ==> #[trigger] rows[y].len() == stride_of(bits as nat, width as nat),
    ensures
        ({
            let px = bottom_up(rows, 0);
            let b = bmp_file(width, height, bits, palette, px);
            let off = 54 + 4 * palette.len();
            &&& stride_of(bits as nat, width as nat) > 0
            &&& px.len() == stride_of(bits as nat, width as nat) * height
            &&& b.len() == off + px.len()
            &&& forall|k: int| 0 <= k < px.len() ==> #[trigger] b[off + k] == px[k]
            &&& spec_parse_bmp(b) matches Ok(v) && {
                &&& v.format_name == "BMP"@
                &&& v.pixel_info == Some(indexed_layout(bits as u8, width, height, palette.len()))
                &&& v.palette == palette.map_values(|c: Rgba| opaque(c))
            }
        }),
{
    let stride = stride_of(bits as nat, width as nat);
    let px = bottom_up(rows, 0);
    let b = bmp_file(width, height, bits, palette, px);
    let p = palette.len();
    let off = 54 + 4 * p;
    lemma_rows_pixels(rows, stride, width as nat, bits as nat);
    lemma_bmp_file_bytes(width, height, bits, palette, px);
    assert(4 * p / 4 == p);
    let l = crate::formats::bmp::bmp_layout(b);
    assert(l.fitting == p);
    assert(l.row_stride == stride);
    assert(l.data_start == off);
    assert(stride <= 0x1_0000_0000) by (nonlinear_arith)
        requires stride == ((bits * width + 31) / 32) * 4, bits <= 8, width <= 0x7FFF_FFFF;
    assert(spec_parse_bmp(b) is Ok);
    let v = spec_parse_bmp(b)->Ok_0;
    assert(v.pixel_info == Some(indexed_layout(bits as u8, width, height, p)));
    assert forall|i: int| 0 <= i < p implies #[trigger] v.palette[i] == opaque(palette[i]) by {
        lemma_palette_bytes(palette, i);
        assert(b[54 + 4 * i] == palette_bytes(palette)[4 * i]);
        assert(b[54 + (4 * i + 1)] == palette_bytes(palette)[4 * i + 1]);
        assert(b[54 + (4 * i + 2)] == palette_bytes(palette)[4 * i + 2]);
    }
    assert(v.palette =~= palette.map_values(|c: Rgba| opaque(c)));
}

/// The color of pixel `(x, y)` of an 8-bpp BMP built by `indexed_8bpp`,
/// given the bytes of its pixel array.
proof fn lemma_8bpp_color(width: u32, height: u32, palette: Seq<Rgba>, indices: Seq<u8>, pal: Seq<Rgba>, x: int, y: int)
    requires
        0 < width <= 0x7FFF_FFFF,
        0 < height <= 0x7FFF_FFFF,
        palette.len() <= 256,
        indices.len() == width * height,
        0 <= x < width,
        0 <= y < height,
        ({
            let b = spec_indexed_8bpp(width, height, palette, indices);
            let stride = stride_of(8, width as nat);
            let px = bottom_up(rows_of(height as nat, |yy: int| row8(width as nat, stride, indices, yy)), 0);
            &&& px.len() == stride * height
            &&& b.len() == 54 + 4 * palette.len() + px.len()
            &&& forall|k: int| 0 <= k < px.len() ==> #[trigger] b[54 + 4 * palette.len() + k] == px[k]
        }),
    ensures
        spec_color_at(indexed_layout(8, width, height, palette.len()), x, y, spec_indexed_8bpp(width, height, palette, indices), pal)
            == palette_get(pal, indices[y * width + x] as int),
{
    let b = spec_indexed_8bpp(width, height, palette, indices);
    let stride = stride_of(8, width as nat);
    let rows = rows_of(height as nat, |yy: int| row8(width as nat, stride, indices, yy));
    let px = bottom_up(rows, 0);
    let off = 54 + 4 * palette.len();
    assert forall|yy: int| 0 <= yy < rows.len() implies #[trigger] rows[yy].len() == stride by {}
    assert(width <= stride) by (nonlinear_arith)
        requires stride == ((8 * width + 31) / 32) * 4;
    let j = height - 1 - y;
    assert(0 <= j * stride + x < stride * height) by (nonlinear_arith)
        requires 0 <= j < height, 0 <= x < width, width <= stride;
    lemma_bottom_up_index(rows, 0, stride, j, x);
    assert((x * 8) / 8 == x);
    assert(b[off + (j * stride + x)] == px[j * stride + x]);
    assert(rows[y][x] == indices[y * width + x]);
    let pi = indexed_layout(8, width, height, palette.len());
    assert(stride <= 0x1_0000_0000) by (nonlinear_arith)
        requires stride == ((8 * width + 31) / 32) * 4, width <= 0x7FFF_FFFF;
    assert(pi.row_stride == stride);
    assert(crate::model::spec_byte_offset(pi, x, y) == off + (j * stride + x));
}

/// Parsing an 8-bpp BMP built by `indexed_8bpp` reads back what was written:
/// its pixel layout, its color table (made opaque), and for every pixel the
/// color of its palette index (none for an index past the table).
#[verifier::spinoff_prover]
#[verifier::rlimit(40)]
pub proof fn lemma_indexed_8bpp_reads_back(width: u32, height: u32, palette: Seq<Rgba>, indices: Seq<u8>)
    requires
        0 < width <= 0x7FFF_FFFF,
        0 < height <= 0x7FFF_FFFF,
        palette.len() <= 256,
        indices.len() == width * height,
    ensures
        spec_parse_bmp(spec_indexed_8bpp(width, height, palette, indices)) matches Ok(v) && {
            let b = spec_indexed_8bpp(width, height, palette, indices);
            let pi = indexed_layout(8, width, height, palette.len());
            &&& v.format_name == "BMP"@
            &&& v.pixel_info == Some(pi)
            &&& v.palette == palette.map_values(|c: Rgba| opaque(c))
            &&& forall|x: int, y: int| 0 <= x < width && 0 <= y < height ==>
                #[trigger] spec_color_at(pi, x, y, b, v.palette) == palette_get(v.palette, indices[y * width + x] as int)
        },
{
    let b = spec_indexed_8bpp(width, height, palette, indices);
    let stride = stride_of(8, width as nat);
    let rows = rows_of(height as nat, |y: int| row8(width as nat, stride, indices, y));
    assert forall|yy: int| 0 <= yy < rows.len() implies #[trigger] rows[yy].len() == stride by {}
    lemma_indexed_bmp_parses(8, width, height, palette, rows);
    let pi = indexed_layout(8, width, height, palette.len());
    let v = spec_parse_bmp(b)->Ok_0;
    assert forall|x: int, y: int| 0 <= x < width && 0 <= y < height implies
        #[trigger] spec_color_at(pi, x, y, b, v.palette) == palette_get(v.palette, indices[y * width + x] as int) by {
        lemma_8bpp_color(width, height, palette, indices, v.palette, x, y);
    }
}

/// The low nibble of a byte is below 16.
proof fn lemma_low_nibble(v: u8)
    ensures
        (v & 0x0Fu8) < 16,
{
    assert((v & 0x0Fu8) < 16) by (bit_vector);
}

/// The high and low nibbles of a byte built from two.
proof fn lemma_nibbles(hi: u8, lo: u8)
    requires
        hi < 16,
        lo < 16,
    ensures
        ((hi * 16 + lo) as u8 >> 4u8) == hi,
        ((hi * 16 + lo) as u8 & 0x0Fu8) == lo,
{
    assert(((hi * 16 + lo) as u8 >> 4u8) == hi && ((hi * 16 + lo) as u8 & 0x0Fu8) == lo) by (bit_vector)
        requires
            hi < 16,
            lo < 16,
    ;
}

/// The color of pixel `(x, y)` of a 4-bpp BMP built by `indexed_4bpp`,
/// given the bytes of its pixel array.
#[verifier::rlimit(20)]
proof fn lemma_4bpp_color(width: u32, height: u32, palette: Seq<Rgba>, indices: Seq<u8>, pal: Seq<Rgba>, x: int, y: int)
    requires
        0 < width <= 0x7FFF_FFFF,
        0 < height <= 0x7FFF_FFFF,
        palette.len() <= 256,
        indices.len() == width * height,
        0 <= x < width,
        0 <= y < height,
        ({
            let b = spec_indexed_4bpp(width, height, palette, indices);
            let stride = stride_of(4, width as nat);
            let px = bottom_up(rows_of(height as nat, |yy: int| row4(width as nat, stride, indices, yy)), 0);
            &&& px.len() == stride * height
            &&& b.len() == 54 + 4 * palette.len() + px.len()
            &&& forall|k: int| 0 <= k < px.len() ==> #[trigger] b[54 + 4 * palette.len() + k] == px[k]
        }),
    ensures
        spec_color_at(indexed_layout(4, width, height, palette.len()), x, y, spec_indexed_4bpp(width, height, palette, indices), pal)
            == palette_get(pal, (indices[y * width + x] & 0x0Fu8) as int),
{
    let b = spec_indexed_4bpp(width, height, palette, indices);
    let stride = stride_of(4, width as nat);
    let rows = rows_of(height as nat, |yy: int| row4(width as nat, stride, indices, yy));
    let px = bottom_up(rows, 0);
    let off = 54 + 4 * palette.len();
    assert forall|yy: int| 0 <= yy < rows.len() implies #[trigger] rows[yy].len() == stride by {}
    let j = height - 1 - y;
    let c = x / 2;
    assert((x * 4) / 8 == c) by (nonlinear_arith) requires x >= 0, c == x / 2;
    assert(2 * c <= x <= 2 * c + 1);
    assert(c < stride) by (nonlinear_arith)
        requires stride == ((4 * width + 31) / 32) * 4, 0 <= x < width, c == x / 2;
    assert(0 <= j * stride + c < stride * height) by (nonlinear_arith)
        requires 0 <= j < height, 0 <= c < stride;
    lemma_bottom_up_index(rows, 0, stride, j, c);
    assert(b[off + (j * stride + c)] == px[j * stride + c]);
    lemma_index_in_image(y, x, width as int, height as int);
    let hi = if 2 * c < width { indices[y * width + 2 * c] & 0x0Fu8 } else { 0u8 };
    let lo = if 2 * c + 1 < width { indices[y * width + 2 * c + 1] & 0x0Fu8 } else { 0u8 };
    if 2 * c < width {
        lemma_low_nibble(indices[y * width + 2 * c]);
    }
    if 2 * c + 1 < width {
        lemma_low_nibble(indices[y * width + 2 * c + 1]);
    }
    assert(nibble_at(width as nat, indices, y, 2 * c) == hi);
    assert(nibble_at(width as nat, indices, y, 2 * c + 1) == lo);
    assert(rows[y][c] == (hi * 16 + lo) as u8);
    lemma_nibbles(hi, lo);
    let pi = indexed_layout(4, width, height, palette.len());
    assert(stride <= 0x1_0000_0000) by (nonlinear_arith)
        requires stride == ((4 * width + 31) / 32) * 4, width <= 0x7FFF_FFFF;
    assert(pi.row_stride == stride);
    assert(crate::model::spec_byte_offset(pi, x, y) == off + (j * stride + c));
    if x % 2 == 0 {
        assert(x == 2 * c);
    } else {
        assert(x == 2 * c + 1);
    }
}

/// Parsing a 4-bpp BMP built by `indexed_4bpp` reads back what was written:
/// its pixel layout, its color table (made opaque), and for every pixel the
/// color of its index's low nibble (none for an index past the table).
#[verifier::spinoff_prover]
#[verifier::rlimit(40)]
pub proof fn lemma_indexed_4bpp_reads_back(width: u32, height: u32, palette: Seq<Rgba>, indices: Seq<u8>)
    requires
        0 < width <= 0x7FFF_FFFF,
        0 < height <= 0x7FFF_FFFF,
        palette.len() <= 256,
        indices.len() == width * height,
    ensures
        spec_parse_bmp(spec_indexed_4bpp(width, height, palette, indices)) matches Ok(v) && {
            let b = spec_indexed_4bpp(width, height, palette, indices);
            let pi = indexed_layout(4, width, height, palette.len());
            &&& v.format_name == "BMP"@
            &&& v.pixel_info == Some(pi)
            &&& v.palette == palette.map_values(|c: Rgba| opaque(c))
            &&& forall|x: int, y: int| 0 <= x < width && 0 <= y < height ==>
                #[trigger] spec_color_at(pi, x, y, b, v.palette) == palette_get(v.palette, (indices[y * width + x] & 0x0Fu8) as int)
        },
{
    let b = spec_indexed_4bpp(width, height, palette, indices);
    let stride = stride_of(4, width as nat);
    let rows = rows_of(height as nat, |y: int| row4(width as nat, stride, indices, y));
    assert forall|yy: int| 0 <= yy < rows.len() implies #[trigger] rows[yy].len() == stride by {}
    lemma_indexed_bmp_parses(4, width, height, palette, rows);
    let pi = indexed_layout(4, width, height, palette.len());
    let v = spec_parse_bmp(b)->Ok_0;
    assert forall|x: int, y: int| 0 <= x < width && 0 <= y < height implies
        #[trigger] spec_color_at(pi, x, y, b, v.palette) == palette_get(v.palette, (indices[y * width + x] & 0x0Fu8) as int) by {
        lemma_4bpp_color(width, height, palette, indices, v.palette, x, y);
    }
}

/// Packing the first `n` bits shifts the first `n - 1` left and adds bit `n - 1`.
proof fn lemma_pack_step(s: Seq<bool>, n: int)
    requires
        1 <= n <= s.len(),
    ensures
        pack_bits(s.subrange(0, n)) == pack_bits(s.subrange(0, n - 1)) * 2 + if s[n - 1] { 1nat } else { 0nat },
{
    assert(s.subrange(0, n).drop_last() =~= s.subrange(0, n - 1));
}

/// Bit `k` (0 = leftmost) of a byte packing eight bits is the `k`-th bit.
proof fn lemma_pack8(s: Seq<bool>, k: int)
    requires
        s.len() == 8,
        0 <= k < 8,
    ensures
        pack_bits(s) < 256,
        ((pack_bits(s) as u8 >> ((7 - k) as u8)) & 1u8) == (if s[k] { 1u8 } else { 0u8 }),
{
    let b0: u8 = if s[0] { 1 } else { 0 };
    let b1: u8 = if s[1] { 1 } else { 0 };
    let b2: u8 = if s[2] { 1 } else { 0 };
    let b3: u8 = if s[3] { 1 } else { 0 };
    let b4: u8 = if s[4] { 1 } else { 0 };
    let b5: u8 = if s[5] { 1 } else { 0 };
    let b6: u8 = if s[6] { 1 } else { 0 };
    let b7: u8 = if s[7] { 1 } else { 0 };
    assert(s.subrange(0, 0) =~= Seq::<bool>::empty());
    lemma_pack_step(s, 1);
    lemma_pack_step(s, 2);
    lemma_pack_step(s, 3);
    lemma_pack_step(s, 4);
    lemma_pack_step(s, 5);
    lemma_pack_step(s, 6);
    lemma_pack_step(s, 7);
    lemma_pack_step(s, 8);
    assert(s.subrange(0, 8) =~= s);
    let v: int = b0 * 128 + b1 * 64 + b2 * 32 + b3 * 16 + b4 * 8 + b5 * 4 + b6 * 2 + b7;
    assert(pack_bits(s) == v);
    let p: u8 = v as u8;
    assert(p == b0 * 128 + b1 * 64 + b2 * 32 + b3 * 16 + b4 * 8 + b5 * 4 + b6 * 2 + b7);
    assert({
        &&& (p >> 7u8) & 1u8 == b0
        &&& (p >> 6u8) & 1u8 == b1
        &&& (p >> 5u8) & 1u8 == b2
        &&& (p >> 4u8) & 1u8 == b3
        &&& (p >> 3u8) & 1u8 == b4
        &&& (p >> 2u8) & 1u8 == b5
        &&& (p >> 1u8) & 1u8 == b6
        &&& (p >> 0u8) & 1u8 == b7
    }) by (bit_vector)
        requires
            b0 <= 1, b1 <= 1, b2 <= 1, b3 <= 1, b4 <= 1, b5 <= 1, b6 <= 1, b7 <= 1,
            p == b0 * 128 + b1 * 64 + b2 * 32 + b3 * 16 + b4 * 8 + b5 * 4 + b6 * 2 + b7,
    ;
}

/// The color of pixel `(x, y)` of a 1-bpp BMP built by `indexed_1bpp`,
/// given the bytes of its pixel array.
#[verifier::rlimit(20)]
proof fn lemma_1bpp_color(width: u32, height: u32, palette: Seq<Rgba>, indices: Seq<u8>, pal: Seq<Rgba>, x: int, y: int)
    requires
        0 < width <= 0x7FFF_FFFF,
        0 < height <= 0x7FFF_FFFF,
        palette.len() <= 256,
        indices.len() == width * height,
        0 <= x < width,
        0 <= y < height,
        ({
            let b = spec_indexed_1bpp(width, height, palette, indices);
            let stride = stride_of(1, width as nat);
            let px = bottom_up(rows_of(height as nat, |yy: int| row1(width as nat, stride, indices, yy)), 0);
            &&& px.len() == stride * height
            &&& b.len() == 54 + 4 * palette.len() + px.len()
            &&& forall|k: int| 0 <= k < px.len() ==> #[trigger] b[54 + 4 * palette.len() + k] == px[k]
        }),
    ensures
        spec_color_at(indexed_layout(1, width, height, palette.len()), x, y, spec_indexed_1bpp(width, height, palette, indices), pal)
            == palette_get(pal, if indices[y * width + x] != 0 { 1 } else { 0 }),
{
    let b = spec_indexed_1bpp(width, height, palette, indices);
    let stride = stride_of(1, width as nat);
    let rows = rows_of(height as nat, |yy: int| row1(width as nat, stride, indices, yy));
    let px = bottom_up(rows, 0);
    let off = 54 + 4 * palette.len();
    assert forall|yy: int| 0 <= yy < rows.len() implies #[trigger] rows[yy].len() == stride by {}
    let j = height - 1 - y;
    let c = x / 8;
    let k = x % 8;
    assert((x * 1) / 8 == c);
    assert(x == 8 * c + k);
    assert(c < stride) by (nonlinear_arith)
        requires stride == ((1 * width + 31) / 32) * 4, 0 <= x < width, c == x / 8;
    assert(0 <= j * stride + c < stride * height) by (nonlinear_arith)
        requires 0 <= j < height, 0 <= c < stride;
    lemma_bottom_up_index(rows, 0, stride, j, c);
    assert(b[off + (j * stride + c)] == px[j * stride + c]);
    lemma_index_in_image(y, x, width as int, height as int);
    let bits = bits1(width as nat, indices, y, c);
    assert(bits[k] == (indices[y * width + x] != 0));
    assert(rows[y][c] == pack_bits(bits) as u8);
    lemma_pack8(bits, k);
    let pi = indexed_layout(1, width, height, palette.len());
    assert(stride <= 0x1_0000_0000) by (nonlinear_arith)
        requires stride == ((1 * width + 31) / 32) * 4, width <= 0x7FFF_FFFF;
    assert(pi.row_stride == stride);
    assert(crate::model::spec_byte_offset(pi, x, y) == off + (j * stride + c));
}

/// Parsing a 1-bpp BMP built by `indexed_1bpp` reads back what was written:
/// its pixel layout, its color table (made opaque), and for every pixel the
/// color of entry 1 where its index is nonzero, else of entry 0.
#[verifier::spinoff_prover]
#[verifier::rlimit(40)]
pub proof fn lemma_indexed_1bpp_reads_back(width: u32, height: u32, palette: Seq<Rgba>, indices: Seq<u8>)
    requires
        0 < width <= 0x7FFF_FFFF,
        0 < height <= 0x7FFF_FFFF,
        palette.len() <= 256,
        indices.len() == width * height,
    ensures
        spec_parse_bmp(spec_indexed_1bpp(width, height, palette, indices)) matches Ok(v) && {
            let b = spec_indexed_1bpp(width, height, palette, indices);
            let pi = indexed_layout(1, width, height, palette.len());
            &&& v.format_name == "BMP"@
            &&& v.pixel_info == Some(pi)
            &&& v.palette == palette.map_values(|c: Rgba| opaque(c))
            &&& forall|x: int, y: int| 0 <= x < width && 0 <= y < height ==>
                #[trigger] spec_color_at(pi, x, y, b, v.palette)
                    == palette_get(v.palette, if indices[y * width + x] != 0 { 1 } else { 0 })
        },
{
    let b = spec_indexed_1bpp(width, height, palette, indices);
    let stride = stride_of(1, width as nat);
    let rows = rows_of(height as nat, |y: int| row1(width as nat, stride, indices, y));
    assert forall|yy: int| 0 <= yy < rows.len() implies #[trigger] rows[yy].len() == stride by {}
    lemma_indexed_bmp_parses(1, width, height, palette, rows);
    let pi = indexed_layout(1, width, height, palette.len());
    let v = spec_parse_bmp(b)->Ok_0;
    assert forall|x: int, y: int| 0 <= x < width && 0 <= y < height implies
        #[trigger] spec_color_at(pi, x, y, b, v.palette)
            == palette_get(v.palette, if indices[y * width + x] != 0 { 1 } else { 0 }) by {
        lemma_1bpp_color(width, height, palette, indices, v.palette, x, y);
    }
}

/// The pixel layout of a 24-bpp BMP built by `bgr_24bpp`.
pub open spec fn bgr_24bpp_layout(width: u32, height: u32) -> PixelInfo {
    PixelInfo {
        data_start: 54,
        width,
        height,
        top_down: false,
        row_stride: stride_of(24, width as nat) as usize,
        encoding: PixelEncoding::BgrDirect { bytes: 3 },
    }
}

/// The color of pixel `(x, y)` of a 24-bpp BMP built by `bgr_24bpp`.
proof fn lemma_24bpp_color(width: u32, height: u32, pixels: Seq<Rgba>, x: int, y: int)
    requires
        0 < width <= 0x7FFF_FFFF,
        0 < height <= 0x7FFF_FFFF,
        pixels.len() == width * height,
        bmp_buildable(24, width as nat, height as nat, 0),
        0 <= x < width,
        0 <= y < height,
        ({
            let b = spec_bgr_24bpp(width, height, pixels);
            let stride = stride_of(24, width as nat);
            let px = bottom_up(rows_of(height as nat, |yy: int| row24(width as nat, stride, pixels, yy)), 0);
            &&& px.len() == stride * height
            &&& b.len() == 54 + px.len()
            &&& forall|k: int| 0 <= k < px.len() ==> #[trigger] b[54 + k] == px[k]
        }),
    ensures
        spec_color_at(bgr_24bpp_layout(width, height), x, y, spec_bgr_24bpp(width, height, pixels), seq![])
            == Some(opaque(pixels[y * width + x])),
{
    let b = spec_bgr_24bpp(width, height, pixels);
    let stride = stride_of(24, width as nat);
    let rows = rows_of(height as nat, |yy: int| row24(width as nat, stride, pixels, yy));
    let px = bottom_up(rows, 0);
    assert forall|yy: int| 0 <= yy < rows.len() implies #[trigger] rows[yy].len() == stride by {}
    assert(3 * width <= stride) by (nonlinear_arith)
        requires stride == ((24 * width + 31) / 32) * 4;
    let j = height - 1 - y;
    assert(0 <= j * stride + 3 * x && j * stride + 3 * x + 2 < stride * height) by (nonlinear_arith)
        requires 0 <= j < height, 0 <= x < width, 3 * width <= stride;
    lemma_bottom_up_index(rows, 0, stride, j, 3 * x);
    lemma_bottom_up_index(rows, 0, stride, j, 3 * x + 1);
    lemma_bottom_up_index(rows, 0, stride, j, 3 * x + 2);
    vstd::arithmetic::div_mod::lemma_fundamental_div_mod_converse(3 * x, 3, x, 0);
    vstd::arithmetic::div_mod::lemma_fundamental_div_mod_converse(3 * x + 1, 3, x, 1);
    vstd::arithmetic::div_mod::lemma_fundamental_div_mod_converse(3 * x + 2, 3, x, 2);
    assert(b[54 + (j * stride + 3 * x)] == px[j * stride + 3 * x]);
    assert(b[54 + (j * stride + 3 * x + 1)] == px[j * stride + 3 * x + 1]);
    assert(b[54 + (j * stride + 3 * x + 2)] == px[j * stride + 3 * x + 2]);
    lemma_index_in_image(y, x, width as int, height as int);
    let c = pixels[y * width + x];
    assert(rows[y][3 * x] == c.b);
    assert(rows[y][3 * x + 1] == c.g);
    assert(rows[y][3 * x + 2] == c.r);
    let pi = bgr_24bpp_layout(width, height);
    assert(stride <= usize::MAX) by (nonlinear_arith)
        requires stride * height <= usize::MAX, height >= 1;
    assert(pi.row_stride == stride);
    assert(crate::model::file_row(pi, y) == j);
    assert(x * 3 == 3 * x);
    assert(crate::model::spec_byte_offset(pi, x, y) == 54 + j * stride + 3 * x);
}

/// Parsing a 24-bpp BMP built by `bgr_24bpp` reads back what was written:
/// its pixel layout, no color table, and for every pixel its color (opaque).
#[verifier::rlimit(40)]
pub proof fn lemma_bgr_24bpp_reads_back(width: u32, height: u32, pixels: Seq<Rgba>)
    requires
        0 < width <= 0x7FFF_FFFF,
        0 < height <= 0x7FFF_FFFF,
        pixels.len() == width * height,
        bmp_buildable(24, width as nat, height as nat, 0),
    ensures
        spec_parse_bmp(spec_bgr_24bpp(width, height, pixels)) matches Ok(v) && {
            let b = spec_bgr_24bpp(width, height, pixels);
            let pi = bgr_24bpp_layout(width, height);
            &&& v.format_name == "BMP"@
            &&& v.pixel_info == Some(pi)
            &&& v.palette.len() == 0
            &&& forall|x: int, y: int| 0 <= x < width && 0 <= y < height ==>
                #[trigger] spec_color_at(pi, x, y, b, v.palette) == Some(opaque(pixels[y * width + x]))
        },
{
    let b = spec_bgr_24bpp(width, height, pixels);
    let stride = stride_of(24, width as nat);
    let rows = rows_of(height as nat, |y: int| row24(width as nat, stride, pixels, y));
    let px = bottom_up(rows, 0);
    let empty: Seq<Rgba> = seq![];
    assert forall|yy: int| 0 <= yy < rows.len() implies #[trigger] rows[yy].len() == stride by {}
    lemma_rows_pixels(rows, stride, width as nat, 24);
    lemma_bmp_file_bytes(width, height, 24, empty, px);
    let l = crate::formats::bmp::bmp_layout(b);
    assert(l.fitting == 0);
    assert(l.row_stride == stride);
    assert(l.data_start == 54);
    let pi = bgr_24bpp_layout(width, height);
    assert(spec_parse_bmp(b) is Ok);
    let v = spec_parse_bmp(b)->Ok_0;
    assert(v.pixel_info == Some(pi));
    assert(v.palette =~= empty);
    assert forall|x: int, y: int| 0 <= x < width && 0 <= y < height implies
        #[trigger] spec_color_at(pi, x, y, b, v.palette) == Some(opaque(pixels[y * width + x])) by {
        lemma_24bpp_color(width, height, pixels, x, y);
    }
}


// --- Netpbm read-back ------------------------------------------------------------

/// The decimal text of `n` is a nonempty run of digits whose value is `n`.
proof fn lemma_dec_ascii(n: nat)
    ensures
        dec_ascii(n).len() >= 1,
        all_digit_seq(dec_ascii(n)),
        digits_value(dec_ascii(n)) == n,
    decreases n,
{
    let d = dec_ascii(n);
    if n < 10 {
        assert(d.drop_last() =~= Seq::<u8>::empty());
        assert(d.last() == 48 + n);
        assert(digits_value(d) == digits_value(d.drop_last()) * 10 + (d.last() - 0x30) as nat);
    } else {
        lemma_dec_ascii(n / 10);
        let e = dec_ascii(n / 10);
        assert(d.drop_last() =~= e);
        assert(d.last() == 48 + n % 10);
        assert(digits_value(d) == digits_value(e) * 10 + (n % 10));
        assert forall|i: int| 0 <= i < d.len() implies is_digit(#[trigger] d[i]) by {
            if i < d.len() - 1 {
                assert(d[i] == e[i]);
            }
        }
    }
}

/// A token that runs from `s` up to whitespace (or the end) at `e` ends at `e`.
proof fn lemma_token_end_run(b: Seq<u8>, s: int, e: int)
    requires
        0 <= s <= e <= b.len(),
        forall|k: int| s <= k < e ==> !is_ascii_ws(#[trigger] b[k]),
        e == b.len() || is_ascii_ws(b[e]),
    ensures
        token_end(b, s) == e,
    decreases e - s,
{
    if s < e {
        lemma_token_end_run(b, s + 1, e);
    }
}

/// The red, green and blue bytes of pixel `i` sit at `3 * i`, `3 * i + 1`
/// and `3 * i + 2`.
proof fn lemma_rgb_bytes(px: Seq<Rgba>)
    ensures
        rgb_bytes(px).len() == 3 * px.len(),
        forall|i: int| #![trigger px[i]] 0 <= i < px.len() ==> {
            &&& rgb_bytes(px)[3 * i] == px[i].r
            &&& rgb_bytes(px)[3 * i + 1] == px[i].g
            &&& rgb_bytes(px)[3 * i + 2] == px[i].b
        },
    decreases px.len(),
{
    if px.len() > 0 {
        let d = px.drop_last();
        lemma_rgb_bytes(d);
        assert forall|i: int| #![trigger px[i]] 0 <= i < px.len() implies {
            &&& rgb_bytes(px)[3 * i] == px[i].r
            &&& rgb_bytes(px)[3 * i + 1] == px[i].g
            &&& rgb_bytes(px)[3 * i + 2] == px[i].b
        } by {
            if i < px.len() - 1 {
                assert(px[i] == d[i]);
            }
        }
    }
}

/// The header of a Netpbm file built here reads back: its magic number, its
/// width and height, maxval 255, and the raster right after the header.
#[verifier::rlimit(40)]
proof fn lemma_pnm_header_reads_back(magic: u8, width: u32, height: u32, body: Seq<u8>)
    requires
        magic == 0x35 || magic == 0x36,
        body.len() > 0,
    ensures
        ({
            let b = pnm_header(magic, width, height) + body;
            &&& netpbm_detects(b)
            &&& b[1] == magic
            &&& netpbm_header(b) matches Ok(h) && {
                &&& h.width == width
                &&& h.height == height
                &&& h.maxval == 255
                &&& netpbm_data_start(b, h) == pnm_header(magic, width, height).len()
            }
        }),
{
    let dw = dec_ascii(width as nat);
    let dh = dec_ascii(height as nat);
    lemma_dec_ascii(width as nat);
    lemma_dec_ascii(height as nat);
    let lw = dw.len() as int;
    let lh = dh.len() as int;
    let hd = pnm_header(magic, width, height);
    let b = hd + body;
    assert(hd.len() == 9 + lw + lh);
    assert(b[0] == 0x50 && b[1] == magic && b[2] == 0x0A);
    assert forall|k: int| 0 <= k < lw implies #[trigger] b[3 + k] == dw[k] by {}
    assert(b[3 + lw] == 0x20);
    assert forall|k: int| 0 <= k < lh implies #[trigger] b[4 + lw + k] == dh[k] by {}
    assert(b[4 + lw + lh] == 0x0A);
    assert(b[5 + lw + lh] == 0x32 && b[6 + lw + lh] == 0x35 && b[7 + lw + lh] == 0x35);
    assert(b[8 + lw + lh] == 0x0A);

    // width token
    assert(is_digit(dw[0]));
    assert(b[3] == dw[0]);
    assert(skip_filler(b, 3, false) == 3);
    assert(skip_filler(b, 2, false) == 3);
    assert forall|k: int| 3 <= k < 3 + lw implies !is_ascii_ws(#[trigger] b[k]) by {
        assert(b[3 + (k - 3)] == dw[k - 3]);
        assert(is_digit(dw[k - 3]));
    }
    lemma_token_end_run(b, 3, 3 + lw);
    assert(next_token_span(b, 2) == Some((3int, 3 + lw)));

    // height token
    assert(is_digit(dh[0]));
    assert(b[4 + lw + 0] == dh[0]);
    assert(skip_filler(b, 4 + lw, false) == 4 + lw);
    assert(skip_filler(b, 3 + lw, false) == 4 + lw);
    assert forall|k: int| 4 + lw <= k < 4 + lw + lh implies !is_ascii_ws(#[trigger] b[k]) by {
        assert(b[4 + lw + (k - 4 - lw)] == dh[k - 4 - lw]);
        assert(is_digit(dh[k - 4 - lw]));
    }
    lemma_token_end_run(b, 4 + lw, 4 + lw + lh);
    assert(next_token_span(b, 3 + lw) == Some((4 + lw, 4 + lw + lh)));

    // maxval token
    let ms = 5 + lw + lh;
    assert(skip_filler(b, ms, false) == ms);
    assert(skip_filler(b, 4 + lw + lh, false) == ms);
    lemma_token_end_run(b, ms, ms + 3);
    assert(next_token_span(b, 4 + lw + lh) == Some((ms, ms + 3)));

    // values
    assert(b.subrange(3, 3 + lw) =~= dw);
    assert(unsigned_digits(dw) == dw);
    assert(parse_u32(dw) == Some(width));
    assert(b.subrange(4 + lw, 4 + lw + lh) =~= dh);
    assert(unsigned_digits(dh) == dh);
    assert(parse_u32(dh) == Some(height));
    let m = seq![0x32u8, 0x35u8, 0x35u8];
    assert(b.subrange(ms, ms + 3) =~= m);
    assert(m.drop_last() =~= seq![0x32u8, 0x35u8]);
    assert(seq![0x32u8, 0x35u8].drop_last() =~= seq![0x32u8]);
    assert(seq![0x32u8].drop_last() =~= Seq::<u8>::empty());
    assert(seq![0x32u8].last() == 0x32u8);
    assert(seq![0x32u8, 0x35u8].last() == 0x35u8);
    assert(m.last() == 0x35u8);
    assert(digits_value(Seq::<u8>::empty()) == 0);
    assert(digits_value(seq![0x32u8]) == 2);
    assert(digits_value(seq![0x32u8, 0x35u8]) == 25);
    assert(digits_value(m) == 255);
    assert(all_digit_seq(m));
    assert(unsigned_digits(m) == m);
    assert(parse_u32(m) == Some(255u32));
}

/// The pixel layout of a Netpbm image built here: samples start right after
/// the header, rows run top-down without padding.
pub open spec fn pnm_layout(magic: u8, width: u32, height: u32) -> PixelInfo {
    let bpp: int = if magic == 0x36 { 3 } else { 1 };
    PixelInfo {
        data_start: pnm_header(magic, width, height).len() as usize,
        width,
        height,
        top_down: true,
        row_stride: (width * bpp) as usize,
        encoding: if magic == 0x36 { PixelEncoding::RgbDirect { bytes: 3 } } else { PixelEncoding::Grayscale },
    }
}

/// Parsing a P6 image built by `netpbm_p6` reads back what was written: its
/// pixel layout, no palette, and for every pixel its color (opaque).
#[verifier::spinoff_prover]
#[verifier::rlimit(40)]
pub proof fn lemma_netpbm_p6_reads_back(width: u32, height: u32, pixels: Seq<Rgba>)
    requires
        width > 0,
        height > 0,
        pixels.len() == width * height,
        pnm_header(0x36, width, height).len() + 3 * width * height <= usize::MAX,
    ensures
        spec_parse_netpbm(pnm_header(0x36, width, height) + rgb_bytes(pixels)) matches Ok(v) && {
            let b = pnm_header(0x36, width, height) + rgb_bytes(pixels);
            let pi = pnm_layout(0x36, width, height);
            &&& v.format_name == "Netpbm"@
            &&& v.pixel_info == Some(pi)
            &&& v.palette.len() == 0
            &&& forall|x: int, y: int| 0 <= x < width && 0 <= y < height ==>
                #[trigger] spec_color_at(pi, x, y, b, v.palette) == Some(opaque(pixels[y * width + x]))
        },
{
    let hd = pnm_header(0x36, width, height);
    let body = rgb_bytes(pixels);
    let b = hd + body;
    lemma_rgb_bytes(pixels);
    assert(body.len() > 0) by (nonlinear_arith)
        requires body.len() == 3 * pixels.len(), pixels.len() == width * height, width > 0, height > 0;
    lemma_pnm_header_reads_back(0x36, width, height, body);
    let h = netpbm_header(b)->Ok_0;
    assert(width * 3 <= usize::MAX) by (nonlinear_arith)
        requires hd.len() + 3 * width * height <= usize::MAX, height > 0;
    let pi = pnm_layout(0x36, width, height);
    assert(crate::formats::netpbm::netpbm_pixel_info(b, h) == Some(pi));
    let v = spec_parse_netpbm(b)->Ok_0;
    assert forall|x: int, y: int| 0 <= x < width && 0 <= y < height implies
        #[trigger] spec_color_at(pi, x, y, b, v.palette) == Some(opaque(pixels[y * width + x])) by {
        lemma_index_in_image(y, x, width as int, height as int);
        let i = y * width + x;
        assert(y * (width * 3) + x * 3 == 3 * i) by (nonlinear_arith)
            requires i == y * width + x;
        assert(crate::model::spec_byte_offset(pi, x, y) == hd.len() + 3 * i);
        assert(b[hd.len() + 3 * i] == body[3 * i]);
        assert(b[hd.len() + (3 * i + 1)] == body[3 * i + 1]);
        assert(b[hd.len() + (3 * i + 2)] == body[3 * i + 2]);
        assert(pixels[i].r == body[3 * i]);
    }
}

/// Parsing a P5 image built by `netpbm_p5` reads back what was written: its
/// pixel layout, no palette, and for every pixel the gray of its sample.
#[verifier::spinoff_prover]
#[verifier::rlimit(40)]
pub proof fn lemma_netpbm_p5_reads_back(width: u32, height: u32, gray: Seq<u8>)
    requires
        width > 0,
        height > 0,
        gray.len() == width * height,
        pnm_header(0x35, width, height).len() + width * height <= usize::MAX,
    ensures
        spec_parse_netpbm(pnm_header(0x35, width, height) + gray) matches Ok(v) && {
            let b = pnm_header(0x35, width, height) + gray;
            let pi = pnm_layout(0x35, width, height);
            &&& v.format_name == "Netpbm"@
            &&& v.pixel_info == Some(pi)
            &&& v.palette.len() == 0
            &&& forall|x: int, y: int| 0 <= x < width && 0 <= y < height ==> {
                let g = gray[y * width + x];
                #[trigger] spec_color_at(pi, x, y, b, v.palette) == Some(Rgba { r: g, g: g, b: g, a: 255 })
            }
        },
{
    let hd = pnm_header(0x35, width, height);
    let b = hd + gray;
    assert(gray.len() > 0) by (nonlinear_arith)
        requires gray.len() == width * height, width > 0, height > 0;
    lemma_pnm_header_reads_back(0x35, width, height, gray);
    let h = netpbm_header(b)->Ok_0;
    let pi = pnm_layout(0x35, width, height);
    assert(crate::formats::netpbm::netpbm_pixel_info(b, h) == Some(pi));
    let v = spec_parse_netpbm(b)->Ok_0;
    assert forall|x: int, y: int| 0 <= x < width && 0 <= y < height implies {
        let g = gray[y * width + x];
        #[trigger] spec_color_at(pi, x, y, b, v.palette) == Some(Rgba { r: g, g: g, b: g, a: 255 })
    } by {
        lemma_index_in_image(y, x, width as int, height as int);
        let i = y * width + x;
        assert(y * (width * 1) + x * 1 == i) by (nonlinear_arith)
            requires i == y * width + x;
        assert(crate::model::spec_byte_offset(pi, x, y) == hd.len() + i);
        assert(b[hd.len() + i] == gray[i]);
    }
}

} // verus!
