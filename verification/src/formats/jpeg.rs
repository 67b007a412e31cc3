//! JPEG/JFIF parser: marker-segment structure, not pixel decoding.
//!
//! JPEG stores pixels as DCT coefficients that are Huffman-entropy-coded, so
//! there is no byte-to-pixel mapping to expose: the parser leaves the pixel
//! layout and palette empty and decodes the marker structure instead. Every
//! `0xFF <marker>` segment becomes a colored region with decoded fields.
//!
//! A JPEG file is a sequence of marker segments framed by SOI (`FFD8`) and
//! EOI (`FFD9`). Standalone markers (SOI, EOI, RSTn, TEM) carry no payload;
//! every other marker is followed by a big-endian 2-byte length (counting
//! itself but not the marker) and that many bytes of payload. The
//! entropy-coded scan data after an SOS segment is not length-prefixed: it
//! runs until the next marker that is neither a stuffed `FF 00` byte nor a
//! restart marker (`FFD0`-`FFD7`).

use vstd::prelude::*;
use crate::field::{fields_disjoint, fields_sorted, fields_view, fields_within, fv, lemma_disjoint_join, Field, FieldView};
use crate::format::{ParseError, ParseErrorView};
use crate::formats::bmp::{insert_by_start, insert_region, lemma_sort_sorted, sort_by_start};
use crate::formats::exif::{decode_exif, exif_decode, opt_text, push_tag_lines, tag_lines, ExifTags, TagsView};
use crate::formats::netpbm::{make_field, make_line, make_region};
use crate::model::{image_ok, pairs_view, ParsedImage, ParsedView};
use crate::region::{lemma_partitions_push, lemma_partitions_sorted, partitions, regions_view, rv, Region, RegionKind, RegionView};
use crate::text::{dec, dec_string, hex_digits, lossy_text, push_dec, push_hex, utf8_lossy};

verus! {

/// The JPEG format parser.
pub struct JpegFormat;

/// The big-endian `u16` at offset `o`.
pub open spec fn u16_be(b: Seq<u8>, o: int) -> u16 {
    (256 * b[o] as int + b[o + 1] as int) as u16
}

fn u16be(b: &[u8], o: usize) -> (v: u16)
    requires
        o + 2 <= b.len(),
    ensures
        v == u16_be(b@, o as int),
{
    256 * (b[o] as u16) + (b[o + 1] as u16)
}

/// Whether a marker stands alone (no length and payload): SOI, EOI, TEM, RSTn.
pub open spec fn standalone(m: u8) -> bool {
    m == 0xD8 || m == 0xD9 || m == 0x01 || (0xD0 <= m && m <= 0xD7)
}

/// Whether a marker starts a frame (carries the image dimensions).
pub open spec fn sof(m: u8) -> bool {
    0xC0 <= m && m <= 0xCF && m != 0xC4 && m != 0xC8 && m != 0xCC
}

fn is_standalone(m: u8) -> (r: bool)
    ensures
        r == standalone(m),
{
    m == 0xD8 || m == 0xD9 || m == 0x01 || (0xD0 <= m && m <= 0xD7)
}

fn is_sof(m: u8) -> (r: bool)
    ensures
        r == sof(m),
{
    0xC0 <= m && m <= 0xCF && m != 0xC4 && m != 0xC8 && m != 0xCC
}

/// The short name of a marker.
pub open spec fn marker_short(m: u8) -> Seq<char> {
    if m == 0xD8 { "SOI"@ }
    else if m == 0xD9 { "EOI"@ }
    else if m == 0xC0 { "SOF0"@ }
    else if m == 0xC1 { "SOF1"@ }
    else if m == 0xC2 { "SOF2"@ }
    else if m == 0xC3 { "SOF3"@ }
    else if m == 0xC5 { "SOF5"@ }
    else if m == 0xC6 { "SOF6"@ }
    else if m == 0xC7 { "SOF7"@ }
    else if m == 0xC9 { "SOF9"@ }
    else if m == 0xCA { "SOF10"@ }
    else if m == 0xCB { "SOF11"@ }
    else if m == 0xCD { "SOF13"@ }
    else if m == 0xCE { "SOF14"@ }
    else if m == 0xCF { "SOF15"@ }
    else if m == 0xC4 { "DHT"@ }
    else if m == 0xC8 { "JPG"@ }
    else if m == 0xCC { "DAC"@ }
    else if m == 0xDB { "DQT"@ }
    else if m == 0xDA { "SOS"@ }
    else if m == 0xDD { "DRI"@ }
    else if m == 0xDC { "DNL"@ }
    else if m == 0xDE { "DHP"@ }
    else if m == 0xDF { "EXP"@ }
    else if m == 0xFE { "COM"@ }
    else if m == 0x01 { "TEM"@ }
    else if 0xE0 <= m && m <= 0xEF { "APPn"@ }
    else if 0xD0 <= m && m <= 0xD7 { "RSTn"@ }
    else { "?"@ }
}

/// The human-readable description of a marker.
pub open spec fn marker_desc(m: u8) -> Seq<char> {
    if m == 0xD8 { "Start of Image"@ }
    else if m == 0xD9 { "End of Image"@ }
    else if m == 0xC0 { "Start of Frame — baseline DCT"@ }
    else if m == 0xC1 { "Start of Frame — extended sequential DCT"@ }
    else if m == 0xC2 { "Start of Frame — progressive DCT"@ }
    else if m == 0xC3 { "Start of Frame — lossless (sequential)"@ }
    else if m == 0xC5 { "Start of Frame — differential sequential DCT"@ }
    else if m == 0xC6 { "Start of Frame — differential progressive DCT"@ }
    else if m == 0xC7 { "Start of Frame — differential lossless"@ }
    else if m == 0xC9 { "Start of Frame — extended sequential DCT, arithmetic"@ }
    else if m == 0xCA { "Start of Frame — progressive DCT, arithmetic"@ }
    else if m == 0xCB { "Start of Frame — lossless, arithmetic"@ }
    else if m == 0xCD { "Start of Frame — differential sequential DCT, arithmetic"@ }
    else if m == 0xCE { "Start of Frame — differential progressive DCT, arithmetic"@ }
    else if m == 0xCF { "Start of Frame — differential lossless, arithmetic"@ }
    else if m == 0xC4 { "Define Huffman Table(s)"@ }
    else if m == 0xC8 { "JPEG extensions"@ }
    else if m == 0xCC { "Define Arithmetic Coding conditioning"@ }
    else if m == 0xDB { "Define Quantization Table(s)"@ }
    else if m == 0xDA { "Start of Scan"@ }
    else if m == 0xDD { "Define Restart Interval"@ }
    else if m == 0xDC { "Define Number of Lines"@ }
    else if m == 0xDE { "Define Hierarchical Progression"@ }
    else if m == 0xDF { "Expand Reference Component(s)"@ }
    else if m == 0xFE { "Comment"@ }
    else if m == 0x01 { "Temporary (used only in arithmetic coding)"@ }
    else if 0xE0 <= m && m <= 0xEF { "Application-specific segment"@ }
    else if 0xD0 <= m && m <= 0xD7 { "Restart marker"@ }
    else { "Unknown marker"@ }
}

/// The short name and description of a marker.
fn marker_info(m: u8) -> (r: (&'static str, &'static str))
    ensures
        r.0@ == marker_short(m),
        r.1@ == marker_desc(m),
{
    if m == 0xD8 { ("SOI", "Start of Image") }
    else if m == 0xD9 { ("EOI", "End of Image") }
    else if m == 0xC0 { ("SOF0", "Start of Frame — baseline DCT") }
    else if m == 0xC1 { ("SOF1", "Start of Frame — extended sequential DCT") }
    else if m == 0xC2 { ("SOF2", "Start of Frame — progressive DCT") }
    else if m == 0xC3 { ("SOF3", "Start of Frame — lossless (sequential)") }
    else if m == 0xC5 { ("SOF5", "Start of Frame — differential sequential DCT") }
    else if m == 0xC6 { ("SOF6", "Start of Frame — differential progressive DCT") }
    else if m == 0xC7 { ("SOF7", "Start of Frame — differential lossless") }
    else if m == 0xC9 { ("SOF9", "Start of Frame — extended sequential DCT, arithmetic") }
    else if m == 0xCA { ("SOF10", "Start of Frame — progressive DCT, arithmetic") }
    else if m == 0xCB { ("SOF11", "Start of Frame — lossless, arithmetic") }
    else if m == 0xCD { ("SOF13", "Start of Frame — differential sequential DCT, arithmetic") }
    else if m == 0xCE { ("SOF14", "Start of Frame — differential progressive DCT, arithmetic") }
    else if m == 0xCF { ("SOF15", "Start of Frame — differential lossless, arithmetic") }
    else if m == 0xC4 { ("DHT", "Define Huffman Table(s)") }
    else if m == 0xC8 { ("JPG", "JPEG extensions") }
    else if m == 0xCC { ("DAC", "Define Arithmetic Coding conditioning") }
    else if m == 0xDB { ("DQT", "Define Quantization Table(s)") }
    else if m == 0xDA { ("SOS", "Start of Scan") }
    else if m == 0xDD { ("DRI", "Define Restart Interval") }
    else if m == 0xDC { ("DNL", "Define Number of Lines") }
    else if m == 0xDE { ("DHP", "Define Hierarchical Progression") }
    else if m == 0xDF { ("EXP", "Expand Reference Component(s)") }
    else if m == 0xFE { ("COM", "Comment") }
    else if m == 0x01 { ("TEM", "Temporary (used only in arithmetic coding)") }
    else if 0xE0 <= m && m <= 0xEF { ("APPn", "Application-specific segment") }
    else if 0xD0 <= m && m <= 0xD7 { ("RSTn", "Restart marker") }
    else { ("?", "Unknown marker") }
}

/// The region category of a marker's segment.
pub open spec fn marker_kind(m: u8) -> RegionKind {
    if m == 0xD8 || m == 0xD9 { RegionKind::FileHeader }
    else if (0xE0 <= m && m <= 0xEF) || m == 0xFE { RegionKind::Metadata }
    else if m == 0xDB || m == 0xC4 || m == 0xDD || m == 0xCC || m == 0xDC { RegionKind::Table }
    else if m == 0xDA { RegionKind::InfoHeader }
    else if sof(m) { RegionKind::InfoHeader }
    else { RegionKind::Unknown }
}

fn region_kind(m: u8) -> (k: RegionKind)
    ensures
        k == marker_kind(m),
{
    if m == 0xD8 || m == 0xD9 { RegionKind::FileHeader }
    else if (0xE0 <= m && m <= 0xEF) || m == 0xFE { RegionKind::Metadata }
    else if m == 0xDB || m == 0xC4 || m == 0xDD || m == 0xCC || m == 0xDC { RegionKind::Table }
    else if m == 0xDA { RegionKind::InfoHeader }
    else if is_sof(m) { RegionKind::InfoHeader }
    else { RegionKind::Unknown }
}

/// The display name of a marker: `APPn` with its number, else the short name.
pub open spec fn display_name(m: u8) -> Seq<char> {
    if 0xE0 <= m && m <= 0xEF { "APP"@ + dec((m - 0xE0) as nat) } else { marker_short(m) }
}

fn display_string(m: u8) -> (s: String)
    ensures
        s@ == display_name(m),
{
    if 0xE0 <= m && m <= 0xEF {
        let mut s = String::new();
        s.append("APP");
        push_dec(&mut s, (m - 0xE0) as u128);
        assert(s@ =~= display_name(m));
        s
    } else {
        String::from_str(marker_info(m).0)
    }
}

/// Whether the two bytes at `i` begin a real marker: `0xFF` followed by a
/// byte that is not a stuffed zero, a fill byte or a restart marker.
pub open spec fn real_marker_at(b: Seq<u8>, i: int) -> bool {
    b[i] == 0xFF && b[i + 1] != 0x00 && b[i + 1] != 0xFF && !(0xD0 <= b[i + 1] && b[i + 1] <= 0xD7)
}

/// The offset of the next real marker at or after `start`, or the end of input.
pub open spec fn next_marker(b: Seq<u8>, start: int) -> int
    decreases b.len() - start,
{
    if start < 0 || start + 1 >= b.len() {
        b.len() as int
    } else if real_marker_at(b, start) {
        start
    } else {
        next_marker(b, start + 1)
    }
}

/// Scan for the next real marker at or after `start`; the end of input if none.
fn find_next_marker(bytes: &[u8], start: usize) -> (r: usize)
    ensures
        r == next_marker(bytes@, start as int),
{
    let n = bytes.len();
    let mut i = start;
    while i < n && i + 1 < n
        invariant
            start <= i,
            n == bytes.len(),
            next_marker(bytes@, start as int) == next_marker(bytes@, i as int),
        decreases n - i,
    {
        if bytes[i] == 0xFF {
            let m = bytes[i + 1];
            if m != 0x00 && m != 0xFF && !(0xD0 <= m && m <= 0xD7) {
                return i;
            }
        }
        i = i + 1;
    }
    n
}

/// The first offset at or after `i` holding a byte other than `0xFF`.
pub open spec fn skip_fill(b: Seq<u8>, i: int) -> int
    decreases b.len() - i,
{
    if 0 <= i < b.len() && b[i] == 0xFF { skip_fill(b, i + 1) } else { i }
}

/// Skipping fill bytes stops within the input, on a byte other than `0xFF`,
/// having passed only `0xFF` bytes.
pub proof fn lemma_skip_fill(b: Seq<u8>, i: int)
    requires
        0 <= i <= b.len(),
    ensures
        i <= skip_fill(b, i) <= b.len(),
        skip_fill(b, i) < b.len() ==> b[skip_fill(b, i)] != 0xFF,
        forall|k: int| i <= k < skip_fill(b, i) ==> b[k] == 0xFF,
    decreases b.len() - i,
{
    if i < b.len() && b[i] == 0xFF {
        lemma_skip_fill(b, i + 1);
    }
}

/// The next real marker lies at or after `start`, within the input.
proof fn lemma_next_marker(b: Seq<u8>, start: int)
    requires
        0 <= start,
    ensures
        (start <= next_marker(b, start) && next_marker(b, start) <= b.len()) || next_marker(b, start) == b.len(),
        next_marker(b, start) <= b.len(),
    decreases b.len() - start,
{
    if !(start + 1 >= b.len()) && !real_marker_at(b, start) {
        lemma_next_marker(b, start + 1);
    }
}


// --- Sorted field insertion -----------------------------------------------------

/// `s` (sorted by start) with `f` inserted after every field starting no later.
pub open spec fn insert_field_by_start(s: Seq<FieldView>, f: FieldView) -> Seq<FieldView>
    decreases s.len(),
{
    if s.len() == 0 || s.last().start <= f.start {
        s.push(f)
    } else {
        insert_field_by_start(s.drop_last(), f).push(s.last())
    }
}

/// A stable sort of fields by start.
pub open spec fn sort_fields_by_start(s: Seq<FieldView>) -> Seq<FieldView>
    decreases s.len(),
{
    if s.len() == 0 { s } else { insert_field_by_start(sort_fields_by_start(s.drop_last()), s.last()) }
}

proof fn lemma_insert_field_members(s: Seq<FieldView>, f: FieldView)
    ensures
        insert_field_by_start(s, f).len() == s.len() + 1,
        forall|i: int| 0 <= i < insert_field_by_start(s, f).len() ==>
            (#[trigger] insert_field_by_start(s, f)[i] == f || s.contains(insert_field_by_start(s, f)[i])),
    decreases s.len(),
{
    if !(s.len() == 0 || s.last().start <= f.start) {
        lemma_insert_field_members(s.drop_last(), f);
        let t = insert_field_by_start(s.drop_last(), f);
        assert forall|i: int| 0 <= i < insert_field_by_start(s, f).len() implies
            (#[trigger] insert_field_by_start(s, f)[i] == f || s.contains(insert_field_by_start(s, f)[i])) by {
            if i < t.len() {
                assert(insert_field_by_start(s, f)[i] == t[i]);
                if t[i] != f {
                    let k = choose|k: int| 0 <= k < s.drop_last().len() && s.drop_last()[k] == t[i];
                    assert(s[k] == t[i]);
                }
            } else {
                assert(s[s.len() - 1] == s.last());
            }
        }
    } else {
        assert forall|i: int| 0 <= i < insert_field_by_start(s, f).len() implies
            (#[trigger] insert_field_by_start(s, f)[i] == f || s.contains(insert_field_by_start(s, f)[i])) by {
            if i < s.len() {
                assert(insert_field_by_start(s, f)[i] == s[i]);
            }
        }
    }
}

proof fn lemma_insert_field_sorted(s: Seq<FieldView>, f: FieldView)
    requires
        fields_sorted(s),
    ensures
        fields_sorted(insert_field_by_start(s, f)),
    decreases s.len(),
{
    let out = insert_field_by_start(s, f);
    if s.len() == 0 || s.last().start <= f.start {
        assert forall|i: int, j: int| 0 <= i < j < out.len() implies out[i].start <= out[j].start by {
            if j == s.len() {
                assert(s[i].start <= s[s.len() - 1].start || i == s.len() - 1);
            }
        }
    } else {
        let d = s.drop_last();
        assert(fields_sorted(d)) by {
            assert forall|i: int, j: int| 0 <= i < j < d.len() implies d[i].start <= d[j].start by {
                assert(d[i] == s[i] && d[j] == s[j]);
            }
        }
        lemma_insert_field_sorted(d, f);
        lemma_insert_field_members(d, f);
        let t = insert_field_by_start(d, f);
        assert forall|i: int, j: int| 0 <= i < j < out.len() implies out[i].start <= out[j].start by {
            if j == t.len() {
                assert(out[i] == t[i]);
                if t[i] != f {
                    assert(d.contains(t[i]));
                    let k = choose|k: int| 0 <= k < d.len() && d[k] == t[i];
                    assert(s[k] == d[k]);
                    assert(s[k].start <= s[s.len() - 1].start);
                }
            } else {
                assert(out[i] == t[i] && out[j] == t[j]);
            }
        }
    }
}

/// Sorting fields by start yields fields sorted by start.
proof fn lemma_sort_fields_is_sorted(s: Seq<FieldView>)
    ensures
        fields_sorted(sort_fields_by_start(s)),
    decreases s.len(),
{
    if s.len() > 0 {
        lemma_sort_fields_is_sorted(s.drop_last());
        lemma_insert_field_sorted(sort_fields_by_start(s.drop_last()), s.last());
    }
}

/// Insert `f` into fields sorted by start, after every field starting no later.
fn insert_field(fields: &mut Vec<Field>, f: Field)
    ensures
        fields_view(final(fields)@) == insert_field_by_start(fields_view(old(fields)@), f@),
    decreases old(fields).len(),
{
    let n = fields.len();
    if n == 0 || fields[n - 1].start <= f.start {
        let ghost before = fields@;
        fields.push(f);
        assert(fields_view(fields@) =~= fields_view(before).push(f@));
    } else {
        let ghost before = fields@;
        let last = fields.pop().unwrap();
        assert(fields_view(fields@) =~= fields_view(before).drop_last());
        insert_field(fields, f);
        let ghost mid = fields@;
        fields.push(last);
        assert(fields_view(fields@) =~= fields_view(mid).push(last@));
    }
}

/// Insert every field of `more`, in order, into fields sorted by start.
fn insert_fields(fields: &mut Vec<Field>, more: &Vec<Field>, found: Ghost<Seq<FieldView>>)
    requires
        fields_view(old(fields)@) == sort_fields_by_start(found@),
    ensures
        fields_view(final(fields)@) == sort_fields_by_start(found@ + fields_view(more@)),
{
    let ghost all = fields_view(more@);
    let mut k: usize = 0;
    while k < more.len()
        invariant
            k <= more.len(),
            all == fields_view(more@),
            fields_view(fields@) == sort_fields_by_start(found@ + all.subrange(0, k as int)),
        decreases more.len() - k,
    {
        let f = more[k].duplicate();
        proof {
            assert((found@ + all.subrange(0, k + 1)).drop_last() =~= found@ + all.subrange(0, k as int));
            assert((found@ + all.subrange(0, k + 1)).last() == f@);
        }
        insert_field(fields, f);
        k = k + 1;
    }
    assert(all.subrange(0, more.len() as int) =~= all);
}

// --- Quantization tables -------------------------------------------------------

/// The JPEG zig-zag scan order: for each position of the coefficient stream,
/// the natural (row-major) index it occupies in the 8x8 block.
pub open spec fn zigzag() -> Seq<nat> {
    seq![
        0, 1, 8, 16, 9, 2, 3, 10, 17, 24, 32, 25, 18, 11, 4, 5, 12, 19, 26, 33, 40, 48, 41, 34, 27, 20,
        13, 6, 7, 14, 21, 28, 35, 42, 49, 56, 57, 50, 43, 36, 29, 22, 15, 23, 30, 37, 44, 51, 58, 59,
        52, 45, 38, 31, 39, 46, 53, 60, 61, 54, 47, 55, 62, 63,
    ]
}

fn zigzag_at(k: usize) -> (n: u8)
    requires
        k < 64,
    ensures
        n as nat == zigzag()[k as int],
{
    let z: [u8; 64] = [
        0, 1, 8, 16, 9, 2, 3, 10, 17, 24, 32, 25, 18, 11, 4, 5, 12, 19, 26, 33, 40, 48, 41, 34, 27, 20,
        13, 6, 7, 14, 21, 28, 35, 42, 49, 56, 57, 50, 43, 36, 29, 22, 15, 23, 30, 37, 44, 51, 58, 59,
        52, 45, 38, 31, 39, 46, 53, 60, 61, 54, 47, 55, 62, 63,
    ];
    assert(z@ =~= zigzag().map_values(|v: nat| v as u8));
    z[k]
}

/// The field of quantization coefficient `k`, stored at payload offset `j`.
pub open spec fn coeff_field(p: Seq<u8>, base: int, j: int, bp: int, k: int) -> FieldView {
    let n = zigzag()[k];
    let row = n / 8;
    let col = n % 8;
    let v: nat = if bp == 1 { p[j] as nat } else { u16_be(p, j) as nat };
    fv(base + j, base + j + bp, "q["@ + dec(row) + "]["@ + dec(col) + "]"@, dec(v),
        "Quantization step for the DCT coefficient at row "@ + dec(row) + ", col "@ + dec(col)
            + " (zig-zag position "@ + dec(k as nat) + ")."@)
}

/// The header field of a quantization table at payload offset `i`.
pub open spec fn dqt_header(p: Seq<u8>, base: int, i: int) -> FieldView {
    let precision = p[i] >> 4u8;
    let id = p[i] & 0x0Fu8;
    fv(base + i, base + i + 1, "quant_table"@,
        "table "@ + dec(id as nat) + ", "@ + (if precision == 0 { "8"@ } else { "16"@ }) + "-bit"@,
        "Quantization table header: high nibble is element precision (0 = 8-bit, 1 = 16-bit), low nibble is the table id (0–3)."@)
}

/// Bytes per quantization value of the table whose header is `h`.
pub open spec fn dqt_value_size(h: u8) -> int {
    if h >> 4u8 == 0 { 1 } else { 2 }
}

/// The fields of the quantization tables starting at payload offset `i`, and
/// how many tables are complete.
pub open spec fn dqt_decode(p: Seq<u8>, base: int, i: int) -> (Seq<FieldView>, nat)
    decreases p.len() - i,
{
    if i < 0 || i >= p.len() {
        (seq![], 0)
    } else {
        let bp = dqt_value_size(p[i]);
        let j0 = i + 1;
        if j0 + 64 * bp <= p.len() {
            let coeffs = Seq::new(64, |k: int| coeff_field(p, base, j0 + k * bp, bp, k));
            let rest = dqt_decode(p, base, j0 + 64 * bp);
            (seq![dqt_header(p, base, i)] + coeffs + rest.0, rest.1 + 1)
        } else {
            let coeffs = Seq::new(((p.len() - j0) / bp) as nat, |k: int| coeff_field(p, base, j0 + k * bp, bp, k));
            (seq![dqt_header(p, base, i)] + coeffs, 0)
        }
    }
}

fn coeff(p: &[u8], base: usize, j: usize, bp: usize, k: usize) -> (f: Field)
    requires
        bp == 1 || bp == 2,
        j + bp <= p.len(),
        base + p.len() <= usize::MAX,
        k < 64,
    ensures
        f@ == coeff_field(p@, base as int, j as int, bp as int, k as int),
{
    let n = zigzag_at(k);
    let row = n / 8;
    let col = n % 8;
    let v: u16 = if bp == 1 { p[j] as u16 } else { u16be(p, j) };
    let mut name = String::new();
    name.append("q[");
    push_dec(&mut name, row as u128);
    name.append("][");
    push_dec(&mut name, col as u128);
    name.append("]");
    let mut desc = String::new();
    desc.append("Quantization step for the DCT coefficient at row ");
    push_dec(&mut desc, row as u128);
    desc.append(", col ");
    push_dec(&mut desc, col as u128);
    desc.append(" (zig-zag position ");
    push_dec(&mut desc, k as u128);
    desc.append(").");
    let f = Field { start: base + j, end: base + j + bp, name, value: dec_string(v as u128), description: desc };
    assert(f@ =~= coeff_field(p@, base as int, j as int, bp as int, k as int));
    f
}

/// Decode a DQT (Define Quantization Table) payload into fields; `base` is
/// the file offset of the first payload byte. Returns the fields and the
/// number of complete tables. A truncated trailing table is decoded as far
/// as the payload allows and not counted.
fn decode_dqt(payload: &[u8], base: usize) -> (r: (Vec<Field>, usize))
    requires
        base + payload.len() <= usize::MAX,
    ensures
        fields_view(r.0@) == dqt_decode(payload@, base as int, 0).0,
        r.1 == dqt_decode(payload@, base as int, 0).1,
        r.1 <= payload.len(),
{
    let ghost p = payload@;
    let n = payload.len();
    let mut out: Vec<Field> = Vec::new();
    let mut tables: usize = 0;
    let mut i: usize = 0;
    while i < n
        invariant
            n == payload.len(),
            p == payload@,
            base + n <= usize::MAX,
            i <= n,
            tables <= i,
            fields_view(out@) + dqt_decode(p, base as int, i as int).0 == dqt_decode(p, base as int, 0).0,
            tables + dqt_decode(p, base as int, i as int).1 == dqt_decode(p, base as int, 0).1,
        decreases n - i,
    {
        let h = payload[i];
        let precision = h >> 4;
        let table_id = h & 0x0F;
        let bp: usize = if precision == 0 { 1 } else { 2 };
        let mut value = String::new();
        value.append("table ");
        push_dec(&mut value, table_id as u128);
        value.append(", ");
        if precision == 0 { value.append("8"); } else { value.append("16"); }
        value.append("-bit");
        let ghost before = fields_view(out@);
        let hdr = make_field(base + i, base + i + 1, "quant_table", value,
            "Quantization table header: high nibble is element precision (0 = 8-bit, 1 = 16-bit), low nibble is the table id (0–3).");
        assert(hdr@ =~= dqt_header(p, base as int, i as int));
        out.push(hdr);
        let j0 = i + 1;
        let mut k: usize = 0;
        let mut j: usize = j0;
        while k < 64
            invariant_except_break
                n == payload.len(),
                p == payload@,
                base + n <= usize::MAX,
                bp == dqt_value_size(p[i as int]),
                j0 == i + 1,
                i < n,
                k <= 64,
                j == j0 + k * bp,
                j <= n,
                fields_view(out@) =~= before + seq![dqt_header(p, base as int, i as int)]
                    + Seq::new(k as nat, |t: int| coeff_field(p, base as int, j0 + t * bp, bp as int, t)),
            ensures
                fields_view(out@) =~= before + seq![dqt_header(p, base as int, i as int)]
                    + Seq::new(k as nat, |t: int| coeff_field(p, base as int, j0 + t * bp, bp as int, t)),
                k <= 64,
                j == j0 + k * bp,
                k < 64 ==> j + bp > n,
                j <= n,
            decreases 64 - k,
        {
            if bp > n - j {
                break;
            }
            let f = coeff(payload, base, j, bp, k);
            let ghost prev = fields_view(out@);
            out.push(f);
            proof {
                let s0 = Seq::new(k as nat, |t: int| coeff_field(p, base as int, j0 + t * bp, bp as int, t));
                let s1 = Seq::new((k + 1) as nat, |t: int| coeff_field(p, base as int, j0 + t * bp, bp as int, t));
                assert(s1 =~= s0.push(f@));
                assert(fields_view(out@) =~= prev.push(f@));
            }
            k = k + 1;
            j = j + bp;
            proof {
                assert(j == j0 + k * bp) by (nonlinear_arith)
                    requires j == j0 + (k - 1) * bp + bp;
            }
        }
        if k < 64 {
            proof {
                assert(j0 + 64 * bp > n) by (nonlinear_arith)
                    requires j == j0 + k * bp, k < 64, j + bp > n, bp >= 1;
                assert((n - j0) / (bp as int) == k) by (nonlinear_arith)
                    requires j == j0 + k * bp, j <= n, j + bp > n, bp >= 1, j0 <= n;
                assert(fields_view(out@) =~= before + dqt_decode(p, base as int, i as int).0);
            }
            return (out, tables);
        }
        assert(j == j0 + 64 * bp);
        assert(fields_view(out@) + dqt_decode(p, base as int, j as int).0 =~= before + dqt_decode(p, base as int, i as int).0);
        tables = tables + 1;
        i = j;
    }
    (out, tables)
}


// --- Huffman tables ------------------------------------------------------------

/// The sum of some bytes.
pub open spec fn sum_bytes(s: Seq<u8>) -> nat
    decreases s.len(),
{
    if s.len() == 0 { 0 } else { sum_bytes(s.drop_last()) + s.last() as nat }
}

/// The name of a Huffman table class.
pub open spec fn class_text(c: u8) -> Seq<char> {
    if c == 0 { "DC"@ } else if c == 1 { "AC"@ } else { "?"@ }
}

/// The header field of a Huffman table at payload offset `i`.
pub open spec fn dht_header(p: Seq<u8>, base: int, i: int) -> FieldView {
    fv(base + i, base + i + 1, "huff_table"@,
        class_text(p[i] >> 4u8) + " table "@ + dec((p[i] & 0x0Fu8) as nat),
        "Huffman table header: high nibble is the table class (0 = DC, 1 = AC), low nibble is the table id (0–3)."@)
}

/// The code-count field of the Huffman table whose header is at `i`.
pub open spec fn dht_counts(p: Seq<u8>, base: int, i: int, total: nat) -> FieldView {
    fv(base + i + 1, base + i + 17, "code_counts"@, dec(total) + " symbols"@,
        "Sixteen bytes giving the number of Huffman codes of each length 1..16; they sum to the number of symbols that follow."@)
}

/// The field of symbol `k` of a Huffman table, stored at payload offset `s`.
pub open spec fn symbol_field(p: Seq<u8>, base: int, s: int, k: int) -> FieldView {
    fv(base + s, base + s + 1, "symbol["@ + dec(k as nat) + "]"@, "0x"@ + hex_digits(p[s] as nat, 2),
        "Symbol #"@ + dec(k as nat) + " in the Huffman table (the value this code maps to)."@)
}

/// The fields of the Huffman tables starting at payload offset `i`, and the
/// class and id of every complete table.
pub open spec fn dht_decode(p: Seq<u8>, base: int, i: int) -> (Seq<FieldView>, Seq<(u8, u8)>)
    decreases p.len() - i,
{
    if i < 0 || i >= p.len() {
        (seq![], seq![])
    } else if i + 17 > p.len() {
        (seq![dht_header(p, base, i)], seq![])
    } else {
        let total = sum_bytes(p.subrange(i + 1, i + 17));
        let head = seq![dht_header(p, base, i), dht_counts(p, base, i, total)];
        if i + 17 + total <= p.len() {
            let syms = Seq::new(total, |k: int| symbol_field(p, base, i + 17 + k, k));
            let rest = dht_decode(p, base, i + 17 + total);
            (head + syms + rest.0, seq![((p[i] >> 4u8), (p[i] & 0x0Fu8))] + rest.1)
        } else {
            let syms = Seq::new((p.len() - i - 17) as nat, |k: int| symbol_field(p, base, i + 17 + k, k));
            (head + syms, seq![])
        }
    }
}

fn class_name(c: u8) -> (s: &'static str)
    ensures
        s@ == class_text(c),
{
    if c == 0 { "DC" } else if c == 1 { "AC" } else { "?" }
}

fn symbol(p: &[u8], base: usize, at: usize, k: usize) -> (f: Field)
    requires
        at < p.len(),
        base + p.len() <= usize::MAX,
    ensures
        f@ == symbol_field(p@, base as int, at as int, k as int),
{
    let mut name = String::new();
    name.append("symbol[");
    push_dec(&mut name, k as u128);
    name.append("]");
    let mut value = String::new();
    value.append("0x");
    push_hex(&mut value, p[at] as u128, 2);
    let mut desc = String::new();
    desc.append("Symbol #");
    push_dec(&mut desc, k as u128);
    desc.append(" in the Huffman table (the value this code maps to).");
    let f = Field { start: base + at, end: base + at + 1, name, value, description: desc };
    assert(f@ =~= symbol_field(p@, base as int, at as int, k as int));
    f
}

/// The sum of `p[s..e]`.
fn sum_range(p: &[u8], s: usize, e: usize) -> (t: usize)
    requires
        s <= e <= p.len(),
        e - s <= 16,
    ensures
        t == sum_bytes(p@.subrange(s as int, e as int)),
        t <= 255 * (e - s),
{
    let mut t: usize = 0;
    let mut i = s;
    while i < e
        invariant
            s <= i <= e <= p.len(),
            e - s <= 16,
            t == sum_bytes(p@.subrange(s as int, i as int)),
            t <= 255 * (i - s),
        decreases e - i,
    {
        proof {
            assert(p@.subrange(s as int, i + 1).drop_last() =~= p@.subrange(s as int, i as int));
        }
        t = t + p[i] as usize;
        i = i + 1;
    }
    t
}

/// Decode a DHT (Define Huffman Table) payload into fields; `base` is the
/// file offset of the first payload byte. Returns the fields and the class
/// and id of every complete table. A truncated trailing table is decoded as
/// far as the payload allows and not returned.
fn decode_dht(payload: &[u8], base: usize) -> (r: (Vec<Field>, Vec<(u8, u8)>))
    requires
        base + payload.len() <= usize::MAX,
    ensures
        fields_view(r.0@) == dht_decode(payload@, base as int, 0).0,
        r.1@ == dht_decode(payload@, base as int, 0).1,
{
    let ghost p = payload@;
    let n = payload.len();
    let mut out: Vec<Field> = Vec::new();
    let mut tables: Vec<(u8, u8)> = Vec::new();
    let mut i: usize = 0;
    while i < n
        invariant
            n == payload.len(),
            p == payload@,
            base + n <= usize::MAX,
            i <= n,
            fields_view(out@) + dht_decode(p, base as int, i as int).0 == dht_decode(p, base as int, 0).0,
            tables@ + dht_decode(p, base as int, i as int).1 == dht_decode(p, base as int, 0).1,
        decreases n - i,
    {
        let h = payload[i];
        let class = h >> 4;
        let table_id = h & 0x0F;
        let mut value = String::new();
        value.append(class_name(class));
        value.append(" table ");
        push_dec(&mut value, table_id as u128);
        let ghost before = fields_view(out@);
        let hdr = make_field(base + i, base + i + 1, "huff_table", value,
            "Huffman table header: high nibble is the table class (0 = DC, 1 = AC), low nibble is the table id (0–3).");
        assert(hdr@ =~= dht_header(p, base as int, i as int));
        out.push(hdr);
        if 17 > n - i {
            assert(fields_view(out@) =~= before + dht_decode(p, base as int, i as int).0);
            assert(tables@ =~= tables@ + dht_decode(p, base as int, i as int).1);
            return (out, tables);
        }
        let total = sum_range(payload, i + 1, i + 17);
        let counts = make_field(base + i + 1, base + i + 17, "code_counts", dec_with_suffix(total, " symbols"),
            "Sixteen bytes giving the number of Huffman codes of each length 1..16; they sum to the number of symbols that follow.");
        out.push(counts);
        let ghost head = before + seq![dht_header(p, base as int, i as int), dht_counts(p, base as int, i as int, total as nat)];
        assert(fields_view(out@) =~= head);
        let start = i + 17;
        let mut k: usize = 0;
        while k < total
            invariant_except_break
                n == payload.len(),
                p == payload@,
                base + n <= usize::MAX,
                start <= n,
                k <= total,
                start + k <= n,
                fields_view(out@) =~= head + Seq::new(k as nat, |t: int| symbol_field(p, base as int, start + t, t)),
            ensures
                fields_view(out@) =~= head + Seq::new(k as nat, |t: int| symbol_field(p, base as int, start + t, t)),
                k <= total,
                start + k <= n,
                k < total ==> start + k == n,
            decreases total - k,
        {
            if k >= n - start {
                break;
            }
            let f = symbol(payload, base, start + k, k);
            let ghost prev = fields_view(out@);
            out.push(f);
            proof {
                let s0 = Seq::new(k as nat, |t: int| symbol_field(p, base as int, start + t, t));
                let s1 = Seq::new((k + 1) as nat, |t: int| symbol_field(p, base as int, start + t, t));
                assert(s1 =~= s0.push(f@));
                assert(fields_view(out@) =~= prev.push(f@));
            }
            k = k + 1;
        }
        if k < total {
            assert(fields_view(out@) =~= before + dht_decode(p, base as int, i as int).0);
            assert(tables@ =~= tables@ + dht_decode(p, base as int, i as int).1);
            return (out, tables);
        }
        let ghost tprev = tables@;
        tables.push((class, table_id));
        assert(fields_view(out@) + dht_decode(p, base as int, (start + total) as int).0
            =~= before + dht_decode(p, base as int, i as int).0);
        assert(tables@ + dht_decode(p, base as int, (start + total) as int).1
            =~= tprev + dht_decode(p, base as int, i as int).1);
        i = start + total;
    }
    (out, tables)
}

/// The decimal rendering of `n` followed by `suffix`.
fn dec_with_suffix(n: usize, suffix: &str) -> (s: String)
    ensures
        s@ == dec(n as nat) + suffix@,
{
    let mut s = String::new();
    push_dec(&mut s, n as u128);
    s.append(suffix);
    assert(s@ =~= dec(n as nat) + suffix@);
    s
}


/// `prefix`, the decimal rendering of `n`, then `suffix`.
fn framed_dec(prefix: &str, n: usize, suffix: &str) -> (s: String)
    ensures
        s@ == prefix@ + dec(n as nat) + suffix@,
{
    let mut s = String::new();
    s.append(prefix);
    push_dec(&mut s, n as u128);
    s.append(suffix);
    assert(s@ =~= prefix@ + dec(n as nat) + suffix@);
    s
}

/// The two nibbles of `b` as decimals: `a`, high nibble, `m`, low nibble.
pub open spec fn nibble_pair(b: u8, a: Seq<char>, m: Seq<char>) -> Seq<char> {
    a + dec((b >> 4u8) as nat) + m + dec((b & 0x0Fu8) as nat)
}

fn nibble_text(b: u8, a: &str, m: &str) -> (s: String)
    ensures
        s@ == nibble_pair(b, a@, m@),
{
    let mut s = String::new();
    s.append(a);
    push_dec(&mut s, (b >> 4) as u128);
    s.append(m);
    push_dec(&mut s, (b & 0x0F) as u128);
    assert(s@ =~= nibble_pair(b, a@, m@));
    s
}

// --- Frame header (SOF) --------------------------------------------------------

/// The frame-header fields of an SOF payload of at least six bytes starting
/// at file offset `ps`.
pub open spec fn sof_head_fields(p: Seq<u8>, ps: int) -> Seq<FieldView> {
    seq![
        fv(ps, ps + 1, "precision"@, dec(p[0] as nat), "Sample precision in bits per component."@),
        fv(ps + 1, ps + 3, "height"@, dec(u16_be(p, 1) as nat), "Image height in pixels (number of lines)."@),
        fv(ps + 3, ps + 5, "width"@, dec(u16_be(p, 3) as nat), "Image width in pixels (samples per line)."@),
        fv(ps + 5, ps + 6, "components"@, dec(p[5] as nat),
            "Number of image components (1 = grayscale, 3 = YCbCr color, 4 = CMYK/YCCK)."@),
    ]
}

/// The fields of frame component `c`, whose three-byte spec sits at payload
/// offset `6 + 3c`.
pub open spec fn component_fields(p: Seq<u8>, ps: int, c: int) -> Seq<FieldView> {
    let o = 6 + 3 * c;
    seq![
        fv(ps + o, ps + o + 1, "component["@ + dec(c as nat) + "].id"@, dec(p[o] as nat),
            "Component identifier, referenced by the scan headers."@),
        fv(ps + o + 1, ps + o + 2, "component["@ + dec(c as nat) + "].sampling"@, nibble_pair(p[o + 1], ""@, "×"@),
            "Horizontal × vertical sampling factors (high nibble × low nibble)."@),
        fv(ps + o + 2, ps + o + 3, "component["@ + dec(c as nat) + "].quant_table"@, dec(p[o + 2] as nat),
            "Quantization table used by this component."@),
    ]
}

/// The fields of frame components `c..n`.
pub open spec fn components_fields(p: Seq<u8>, ps: int, c: int, n: int) -> Seq<FieldView>
    decreases n - c,
{
    if c >= n { seq![] } else { component_fields(p, ps, c) + components_fields(p, ps, c + 1, n) }
}

/// How many of the declared frame components have their spec in the payload.
pub open spec fn present_components(p: Seq<u8>) -> int {
    let avail = (p.len() - 6) / 3;
    if (p[5] as int) < avail { p[5] as int } else { avail }
}

/// The fields of an SOF payload of at least six bytes.
pub open spec fn sof_fields(p: Seq<u8>, ps: int) -> Seq<FieldView> {
    sof_head_fields(p, ps) + components_fields(p, ps, 0, present_components(p))
}

fn frame_fields(p: &[u8], ps: usize) -> (out: Vec<Field>)
    requires
        p.len() >= 6,
        ps + p.len() <= usize::MAX,
    ensures
        fields_view(out@) == sof_fields(p@, ps as int),
{
    let mut out: Vec<Field> = Vec::new();
    out.push(make_field(ps, ps + 1, "precision", dec_string(p[0] as u128), "Sample precision in bits per component."));
    out.push(make_field(ps + 1, ps + 3, "height", dec_string(u16be(p, 1) as u128),
        "Image height in pixels (number of lines)."));
    out.push(make_field(ps + 3, ps + 5, "width", dec_string(u16be(p, 3) as u128),
        "Image width in pixels (samples per line)."));
    out.push(make_field(ps + 5, ps + 6, "components", dec_string(p[5] as u128),
        "Number of image components (1 = grayscale, 3 = YCbCr color, 4 = CMYK/YCCK)."));
    assert(fields_view(out@) =~= sof_head_fields(p@, ps as int));
    let avail = (p.len() - 6) / 3;
    let n: usize = if (p[5] as usize) < avail { p[5] as usize } else { avail };
    let mut c: usize = 0;
    while c < n
        invariant
            c <= n,
            n == present_components(p@),
            6 + 3 * n <= p.len(),
            ps + p.len() <= usize::MAX,
            p.len() >= 6,
            fields_view(out@) + components_fields(p@, ps as int, c as int, n as int) == sof_fields(p@, ps as int),
        decreases n - c,
    {
        let o = 6 + 3 * c;
        let ghost before = fields_view(out@);
        out.push(Field {
            start: ps + o,
            end: ps + o + 1,
            name: framed_dec("component[", c, "].id"),
            value: dec_string(p[o] as u128),
            description: String::from_str("Component identifier, referenced by the scan headers."),
        });
        out.push(Field {
            start: ps + o + 1,
            end: ps + o + 2,
            name: framed_dec("component[", c, "].sampling"),
            value: nibble_text(p[o + 1], "", "×"),
            description: String::from_str("Horizontal × vertical sampling factors (high nibble × low nibble)."),
        });
        out.push(Field {
            start: ps + o + 2,
            end: ps + o + 3,
            name: framed_dec("component[", c, "].quant_table"),
            value: dec_string(p[o + 2] as u128),
            description: String::from_str("Quantization table used by this component."),
        });
        assert(fields_view(out@) =~= before + component_fields(p@, ps as int, c as int));
        c = c + 1;
    }
    assert(fields_view(out@) =~= sof_fields(p@, ps as int));
    out
}

// --- Scan header (SOS) ---------------------------------------------------------

/// The fields of scan component `i`, whose two-byte spec sits at payload
/// offset `1 + 2i`.
pub open spec fn scan_component_fields(p: Seq<u8>, ps: int, i: int) -> Seq<FieldView> {
    let o = 1 + 2 * i;
    seq![
        fv(ps + o, ps + o + 1, "scan["@ + dec(i as nat) + "].selector"@, dec(p[o] as nat),
            "Frame component coded by this scan entry."@),
        fv(ps + o + 1, ps + o + 2, "scan["@ + dec(i as nat) + "].huff_tables"@, nibble_pair(p[o + 1], "DC "@, ", AC "@),
            "Huffman tables used: high nibble selects the DC table, low nibble the AC table."@),
    ]
}

/// The fields of scan components `i..n`.
pub open spec fn scan_components_fields(p: Seq<u8>, ps: int, i: int, n: int) -> Seq<FieldView>
    decreases n - i,
{
    if i >= n { seq![] } else { scan_component_fields(p, ps, i) + scan_components_fields(p, ps, i + 1, n) }
}

/// The spectral-selection fields of a scan header with `count` components.
pub open spec fn spectral_fields(p: Seq<u8>, ps: int, count: int) -> Seq<FieldView> {
    let t = 1 + 2 * count;
    seq![
        fv(ps + t, ps + t + 1, "spectral_start"@, dec(p[t] as nat), "Start of spectral selection (Ss)."@),
        fv(ps + t + 1, ps + t + 2, "spectral_end"@, dec(p[t + 1] as nat), "End of spectral selection (Se)."@),
        fv(ps + t + 2, ps + t + 3, "successive_approx"@, nibble_pair(p[t + 2], "Ah "@, ", Al "@),
            "Successive approximation: high nibble Ah, low nibble Al."@),
    ]
}

/// The fields of an SOS payload starting at file offset `ps`: the component
/// count, every component spec present, and the spectral selection when the
/// payload holds all of it.
pub open spec fn sos_fields(p: Seq<u8>, ps: int) -> Seq<FieldView> {
    if p.len() == 0 {
        seq![]
    } else {
        let count = p[0] as int;
        let avail = (p.len() - 1) / 2;
        let n = if count < avail { count } else { avail };
        let head = seq![fv(ps, ps + 1, "scan_components"@, dec(count as nat), "Number of components in this scan."@)]
            + scan_components_fields(p, ps, 0, n);
        if 1 + 2 * count + 3 <= p.len() { head + spectral_fields(p, ps, count) } else { head }
    }
}

fn scan_fields(p: &[u8], ps: usize) -> (out: Vec<Field>)
    requires
        ps + p.len() <= usize::MAX,
    ensures
        fields_view(out@) == sos_fields(p@, ps as int),
{
    let mut out: Vec<Field> = Vec::new();
    if p.len() == 0 {
        assert(fields_view(out@) =~= sos_fields(p@, ps as int));
        return out;
    }
    let count = p[0] as usize;
    out.push(make_field(ps, ps + 1, "scan_components", dec_string(count as u128), "Number of components in this scan."));
    let avail = (p.len() - 1) / 2;
    let n: usize = if count < avail { count } else { avail };
    let ghost head = fields_view(out@);
    let mut i: usize = 0;
    while i < n
        invariant
            i <= n,
            1 + 2 * n <= p.len(),
            ps + p.len() <= usize::MAX,
            fields_view(out@) + scan_components_fields(p@, ps as int, i as int, n as int)
                == head + scan_components_fields(p@, ps as int, 0, n as int),
        decreases n - i,
    {
        let o = 1 + 2 * i;
        let ghost before = fields_view(out@);
        out.push(Field {
            start: ps + o,
            end: ps + o + 1,
            name: framed_dec("scan[", i, "].selector"),
            value: dec_string(p[o] as u128),
            description: String::from_str("Frame component coded by this scan entry."),
        });
        out.push(Field {
            start: ps + o + 1,
            end: ps + o + 2,
            name: framed_dec("scan[", i, "].huff_tables"),
            value: nibble_text(p[o + 1], "DC ", ", AC "),
            description: String::from_str("Huffman tables used: high nibble selects the DC table, low nibble the AC table."),
        });
        assert(fields_view(out@) =~= before + scan_component_fields(p@, ps as int, i as int));
        i = i + 1;
    }
    assert(fields_view(out@) =~= seq![fv(ps as int, ps + 1, "scan_components"@, dec(count as nat),
        "Number of components in this scan."@)] + scan_components_fields(p@, ps as int, 0, n as int));
    if 1 + 2 * count + 3 <= p.len() {
        let t = 1 + 2 * count;
        out.push(make_field(ps + t, ps + t + 1, "spectral_start", dec_string(p[t] as u128), "Start of spectral selection (Ss)."));
        out.push(make_field(ps + t + 1, ps + t + 2, "spectral_end", dec_string(p[t + 1] as u128), "End of spectral selection (Se)."));
        out.push(make_field(ps + t + 2, ps + t + 3, "successive_approx", nibble_text(p[t + 2], "Ah ", ", Al "),
            "Successive approximation: high nibble Ah, low nibble Al."));
    }
    assert(fields_view(out@) =~= sos_fields(p@, ps as int));
    out
}

// --- Application segments --------------------------------------------------------

/// Whether an APP0 payload opens with the JFIF identifier and a version.
pub open spec fn is_jfif(p: Seq<u8>) -> bool {
    p.len() >= 7 && p[0] == 0x4A && p[1] == 0x46 && p[2] == 0x49 && p[3] == 0x46 && p[4] == 0
}

/// Whether an APP1 payload opens with the EXIF identifier.
pub open spec fn is_exif(p: Seq<u8>) -> bool {
    p.len() >= 6 && p[0] == 0x45 && p[1] == 0x78 && p[2] == 0x69 && p[3] == 0x66 && p[4] == 0 && p[5] == 0
}

/// A number rendered with at least two digits.
pub open spec fn two_digits(n: nat) -> Seq<char> {
    if n < 10 { "0"@ + dec(n) } else { dec(n) }
}

/// The JFIF version text, `major.minor`.
pub open spec fn jfif_version(p: Seq<u8>) -> Seq<char> {
    dec(p[5] as nat) + "."@ + two_digits(p[6] as nat)
}

/// The fields of a JFIF APP0 payload starting at file offset `ps`.
pub open spec fn jfif_fields(p: Seq<u8>, ps: int) -> Seq<FieldView> {
    seq![
        fv(ps, ps + 5, "identifier"@, "JFIF"@, "JFIF APP0 identifier (the bytes \"JFIF\\0\")."@),
        fv(ps + 5, ps + 7, "version"@, jfif_version(p), "JFIF version (major.minor)."@),
    ]
}

fn jfif_version_text(p: &[u8]) -> (s: String)
    requires
        p.len() >= 7,
    ensures
        s@ == jfif_version(p@),
{
    let mut s = String::new();
    push_dec(&mut s, p[5] as u128);
    s.append(".");
    if p[6] < 10 {
        s.append("0");
    }
    push_dec(&mut s, p[6] as u128);
    assert(s@ =~= jfif_version(p@));
    s
}


// --- The segment walk ----------------------------------------------------------

/// What the walk over the marker segments has gathered so far.
#[verifier::ext_equal]
pub struct ScanView {
    /// Regions in the order they were found.
    pub regions: Seq<RegionView>,
    /// Fields in the order they were found.
    pub fields: Seq<FieldView>,
    pub width: u16,
    pub height: u16,
    pub precision: u8,
    pub components: u8,
    /// The marker of the last frame header read.
    pub frame: Option<u8>,
    pub jfif: Option<Seq<char>>,
    pub exif: bool,
    pub tags: TagsView,
    pub comment: Option<Seq<char>>,
    /// Number of complete quantization tables.
    pub quant: nat,
    /// Class and id of every complete Huffman table.
    pub huff: Seq<(u8, u8)>,
    /// Number of markers met.
    pub segments: nat,
}

impl ScanView {
    /// This state with one more region.
    pub open spec fn with_region(self, r: RegionView) -> ScanView {
        ScanView { regions: self.regions.push(r), ..self }
    }

    /// This state with more fields.
    pub open spec fn with_fields(self, f: Seq<FieldView>) -> ScanView {
        ScanView { fields: self.fields + f, ..self }
    }
}

/// The state before any segment is read.
pub open spec fn initial_scan() -> ScanView {
    ScanView {
        regions: seq![],
        fields: seq![],
        width: 0,
        height: 0,
        precision: 0,
        components: 0,
        frame: None,
        jfif: None,
        exif: false,
        tags: crate::formats::exif::no_tags(),
        comment: None,
        quant: 0,
        huff: seq![],
        segments: 0,
    }
}

/// The payload bytes `[ps, se)`, empty when the segment is shorter than its
/// length field.
pub open spec fn payload_of(b: Seq<u8>, ps: int, se: int) -> Seq<u8> {
    if ps <= se { b.subrange(ps, se) } else { seq![] }
}

/// The field of a marker at `[ms, end)`.
pub open spec fn marker_field(ms: int, end: int, m: u8) -> FieldView {
    fv(ms, end, "marker"@, "FF"@ + hex_digits(m as nat, 2), display_name(m) + " — "@ + marker_desc(m))
}

/// The field of a segment length stored at `at`.
pub open spec fn length_field(at: int, seg_len: nat) -> FieldView {
    fv(at, at + 2, "length"@, dec(seg_len),
        "Segment length in bytes (includes these two length bytes, excludes the marker)."@)
}

/// The field of the EXIF identifier.
pub open spec fn exif_id_field(ps: int) -> FieldView {
    fv(ps, ps + 6, "identifier"@, "Exif"@, "EXIF APP1 identifier (the bytes \"Exif\\0\\0\")."@)
}

/// What the payload `[ps, se)` of a segment with `marker` adds to the state.
pub open spec fn segment_content(b: Seq<u8>, marker: u8, ps: int, se: int, s: ScanView) -> ScanView {
    let p = payload_of(b, ps, se);
    if sof(marker) && p.len() >= 6 {
        ScanView {
            fields: s.fields + sof_fields(p, ps),
            precision: p[0],
            height: u16_be(p, 1),
            width: u16_be(p, 3),
            components: p[5],
            frame: Some(marker),
            ..s
        }
    } else if marker == 0xE0 && is_jfif(p) {
        ScanView { fields: s.fields + jfif_fields(p, ps), jfif: Some(jfif_version(p)), ..s }
    } else if marker == 0xE1 && is_exif(p) {
        let e = exif_decode(p.subrange(6, p.len() as int), ps + 6);
        ScanView { fields: s.fields + seq![exif_id_field(ps)] + e.fields, exif: true, tags: e.tags, ..s }
    } else if marker == 0xFE {
        ScanView {
            fields: if ps < se {
                s.fields.push(fv(ps, se, "comment"@, utf8_lossy(p), "Free-form comment text."@))
            } else {
                s.fields
            },
            comment: Some(utf8_lossy(p)),
            ..s
        }
    } else if marker == 0xDD && p.len() >= 2 {
        s.with_fields(seq![fv(ps, ps + 2, "restart_interval"@, dec(u16_be(p, 0) as nat),
            "Number of MCUs between restart markers."@)])
    } else if marker == 0xDB {
        let d = dqt_decode(p, ps, 0);
        ScanView { fields: s.fields + d.0, quant: s.quant + d.1, ..s }
    } else if marker == 0xC4 {
        let d = dht_decode(p, ps, 0);
        ScanView { fields: s.fields + d.0, huff: s.huff + d.1, ..s }
    } else if marker == 0xDA {
        s.with_fields(sos_fields(p, ps))
    } else {
        s
    }
}

/// One segment whose marker byte sits at `m`, read into state `s`: the new
/// state and the offset where the walk goes on (the end of input when it stops).
pub open spec fn segment_step(b: Seq<u8>, m: int, s: ScanView) -> (ScanView, int) {
    let len = b.len() as int;
    let marker = b[m];
    let ms = m - 1;
    let name = display_name(marker);
    if standalone(marker) {
        let s3 = s.with_region(rv(ms, m + 1, marker_kind(marker), name)).with_fields(seq![marker_field(ms, m + 1, marker)]);
        if marker == 0xD9 {
            (if m + 1 < len { s3.with_region(rv(m + 1, len, RegionKind::Unknown, "Trailing data (after EOI)"@)) } else { s3 }, len)
        } else {
            (s3, m + 1)
        }
    } else if m + 2 >= len {
        (s.with_region(rv(ms, len, RegionKind::Unknown, name + " (truncated)"@)), len)
    } else {
        let seg_len = u16_be(b, m + 1) as int;
        let ps = m + 3;
        let se = if m + 1 + seg_len <= len { m + 1 + seg_len } else { len };
        let s3 = s.with_region(rv(ms, se, marker_kind(marker), name))
            .with_fields(seq![marker_field(ms, m + 1, marker), length_field(m + 1, seg_len as nat)]);
        let s4 = segment_content(b, marker, ps, se, s3);
        if marker == 0xDA {
            let scan_end = next_marker(b, se);
            (if scan_end > se { s4.with_region(rv(se, scan_end, RegionKind::PixelData, "Entropy-coded scan data"@)) } else { s4 }, scan_end)
        } else {
            (s4, se)
        }
    }
}

/// A segment step moves past its marker and stays within the input.
pub proof fn lemma_segment_step(b: Seq<u8>, m: int, s: ScanView)
    requires
        0 <= m < b.len(),
    ensures
        m < segment_step(b, m, s).1 <= b.len(),
{
    let len = b.len() as int;
    if !standalone(b[m]) && m + 2 < len && b[m] == 0xDA {
        let seg_len = u16_be(b, m + 1) as int;
        let se = if m + 1 + seg_len <= len { m + 1 + seg_len } else { len };
        lemma_next_marker(b, se);
    }
}

/// The walk over the marker segments from `pos` on, starting from state `s`.
pub open spec fn jpeg_walk(b: Seq<u8>, pos: int, s: ScanView) -> ScanView
    decreases b.len() - pos,
{
    let len = b.len() as int;
    if pos < 0 || pos >= len {
        s
    } else if b[pos] != 0xFF {
        s.with_region(rv(pos, len, RegionKind::Unknown, "Unrecognized data"@))
    } else {
        proof { lemma_skip_fill(b, pos + 1); }
        let m = skip_fill(b, pos + 1);
        if m >= len {
            s.with_region(rv(pos, len, RegionKind::Gap, "Trailing fill bytes"@))
        } else {
            let ms = m - 1;
            let s1 = if ms > pos { s.with_region(rv(pos, ms, RegionKind::Gap, "Fill bytes"@)) } else { s };
            let s2 = ScanView { segments: s1.segments + 1, ..s1 };
            proof { lemma_segment_step(b, m, s2); }
            let r = segment_step(b, m, s2);
            jpeg_walk(b, r.1, r.0)
        }
    }
}

// --- The regions partition the file -------------------------------------------

proof fn lemma_content_keeps_regions(b: Seq<u8>, marker: u8, ps: int, se: int, s: ScanView)
    ensures
        segment_content(b, marker, ps, se, s).regions == s.regions,
{
}

proof fn lemma_segment_step_partitions(b: Seq<u8>, m: int, s: ScanView)
    requires
        1 <= m < b.len(),
        partitions(s.regions, (m - 1) as nat),
    ensures
        partitions(segment_step(b, m, s).0.regions, segment_step(b, m, s).1 as nat),
{
    let len = b.len() as int;
    let marker = b[m];
    let ms = m - 1;
    let name = display_name(marker);
    let out = segment_step(b, m, s);
    lemma_segment_step(b, m, s);
    if standalone(marker) {
        let r = rv(ms, m + 1, marker_kind(marker), name);
        lemma_partitions_push(s.regions, ms as nat, r);
        let s3 = s.with_region(r).with_fields(seq![marker_field(ms, m + 1, marker)]);
        assert(s3.regions == s.regions.push(r));
        if marker == 0xD9 {
            if m + 1 < len {
                let t = rv(m + 1, len, RegionKind::Unknown, "Trailing data (after EOI)"@);
                lemma_partitions_push(s3.regions, (m + 1) as nat, t);
                assert(out.0.regions == s3.regions.push(t));
                assert(out.1 == len);
                assert(partitions(out.0.regions, out.1 as nat));
            } else {
                assert(out.0.regions == s3.regions);
                assert(out.1 == len);
                assert(partitions(out.0.regions, out.1 as nat));
            }
        } else {
            assert(out.0.regions == s3.regions);
            assert(out.1 == m + 1);
            assert(partitions(out.0.regions, out.1 as nat));
        }
    } else if m + 2 >= len {
        let r = rv(ms, len, RegionKind::Unknown, name + " (truncated)"@);
        lemma_partitions_push(s.regions, ms as nat, r);
        assert(out.0.regions == s.regions.push(r));
        assert(out.1 == len);
        assert(partitions(out.0.regions, out.1 as nat));
    } else {
        let seg_len = u16_be(b, m + 1) as int;
        let ps = m + 3;
        let se = if m + 1 + seg_len <= len { m + 1 + seg_len } else { len };
        let r = rv(ms, se, marker_kind(marker), name);
        lemma_partitions_push(s.regions, ms as nat, r);
        let s3 = s.with_region(r).with_fields(seq![marker_field(ms, m + 1, marker), length_field(m + 1, seg_len as nat)]);
        assert(s3.regions == s.regions.push(r));
        lemma_content_keeps_regions(b, marker, ps, se, s3);
        let s4 = segment_content(b, marker, ps, se, s3);
        if marker == 0xDA {
            lemma_next_marker(b, se);
            let scan_end = next_marker(b, se);
            if scan_end > se {
                let t = rv(se, scan_end, RegionKind::PixelData, "Entropy-coded scan data"@);
                lemma_partitions_push(s4.regions, se as nat, t);
                assert(out.0.regions == s4.regions.push(t));
            } else {
                assert(out.0.regions == s4.regions);
            }
            assert(out.1 == scan_end);
            assert(partitions(out.0.regions, out.1 as nat));
        } else {
            assert(out.0.regions == s4.regions);
            assert(out.1 == se);
            assert(partitions(out.0.regions, out.1 as nat));
        }
    }
}

proof fn lemma_walk_partitions(b: Seq<u8>, pos: int, s: ScanView)
    requires
        0 <= pos <= b.len(),
        partitions(s.regions, pos as nat),
    ensures
        partitions(jpeg_walk(b, pos, s).regions, b.len()),
    decreases b.len() - pos,
{
    let len = b.len() as int;
    if pos < len {
        if b[pos] != 0xFF {
            lemma_partitions_push(s.regions, pos as nat, rv(pos, len, RegionKind::Unknown, "Unrecognized data"@));
        } else {
            lemma_skip_fill(b, pos + 1);
            let m = skip_fill(b, pos + 1);
            if m >= len {
                lemma_partitions_push(s.regions, pos as nat, rv(pos, len, RegionKind::Gap, "Trailing fill bytes"@));
            } else {
                let ms = m - 1;
                let s1 = if ms > pos { s.with_region(rv(pos, ms, RegionKind::Gap, "Fill bytes"@)) } else { s };
                if ms > pos {
                    lemma_partitions_push(s.regions, pos as nat, rv(pos, ms, RegionKind::Gap, "Fill bytes"@));
                }
                let s2 = ScanView { segments: s1.segments + 1, ..s1 };
                assert(s2.regions == s1.regions);
                lemma_segment_step_partitions(b, m, s2);
                lemma_segment_step(b, m, s2);
                let r = segment_step(b, m, s2);
                lemma_walk_partitions(b, r.1, r.0);
            }
        }
    }
}

/// Every byte of a JPEG file lies in exactly one region: the regions are
/// non-empty, sorted by start, pairwise disjoint and together cover the file.
pub proof fn lemma_jpeg_regions_partition(b: Seq<u8>)
    requires
        jpeg_detects(b),
    ensures
        spec_parse_jpeg(b) matches Ok(v) && partitions(v.regions, b.len()),
{
    let s = jpeg_walk(b, 0, initial_scan());
    lemma_walk_partitions(b, 0, initial_scan());
    lemma_partitions_sorted(s.regions, b.len());
    lemma_sort_sorted(s.regions);
}

/// The fields of a parsed JPEG file are sorted by start.
pub proof fn lemma_jpeg_fields_sorted(b: Seq<u8>)
    requires
        jpeg_detects(b),
    ensures
        spec_parse_jpeg(b) matches Ok(v) && fields_sorted(v.fields),
{
    lemma_sort_fields_is_sorted(jpeg_walk(b, 0, initial_scan()).fields);
}

// --- The fields do not overlap ----------------------------------------------------

/// Frame components `c..n` lie one after another in `[ps + 6 + 3c, ps + 6 + 3n]`.
proof fn lemma_components_disjoint(p: Seq<u8>, ps: int, c: int, n: int)
    requires
        0 <= ps,
        0 <= c <= n,
        6 + 3 * n <= p.len(),
    ensures
        fields_disjoint(components_fields(p, ps, c, n)),
        fields_within(components_fields(p, ps, c, n), ps + 6 + 3 * c, ps + 6 + 3 * n),
    decreases n - c,
{
    if c < n {
        lemma_components_disjoint(p, ps, c + 1, n);
        let one = component_fields(p, ps, c);
        assert(fields_disjoint(one));
        assert(fields_within(one, ps + 6 + 3 * c, ps + 6 + 3 * (c + 1)));
        lemma_disjoint_join(one, components_fields(p, ps, c + 1, n), ps + 6 + 3 * c, ps + 6 + 3 * (c + 1), ps + 6 + 3 * n);
    }
}

/// The fields of an SOF payload lie one after another within it.
proof fn lemma_sof_disjoint(p: Seq<u8>, ps: int)
    requires
        0 <= ps,
        p.len() >= 6,
    ensures
        fields_disjoint(sof_fields(p, ps)),
        fields_within(sof_fields(p, ps), ps, ps + p.len()),
{
    let n = present_components(p);
    assert(0 <= n && 6 + 3 * n <= p.len());
    lemma_components_disjoint(p, ps, 0, n);
    let head = sof_head_fields(p, ps);
    assert(fields_disjoint(head));
    assert(fields_within(head, ps, ps + 6));
    lemma_disjoint_join(head, components_fields(p, ps, 0, n), ps, ps + 6, ps + p.len());
}

/// Scan components `i..n` lie one after another in `[ps + 1 + 2i, ps + 1 + 2n]`.
proof fn lemma_scan_components_disjoint(p: Seq<u8>, ps: int, i: int, n: int)
    requires
        0 <= ps,
        0 <= i <= n,
        1 + 2 * n <= p.len(),
    ensures
        fields_disjoint(scan_components_fields(p, ps, i, n)),
        fields_within(scan_components_fields(p, ps, i, n), ps + 1 + 2 * i, ps + 1 + 2 * n),
    decreases n - i,
{
    if i < n {
        lemma_scan_components_disjoint(p, ps, i + 1, n);
        let one = scan_component_fields(p, ps, i);
        assert(fields_disjoint(one));
        assert(fields_within(one, ps + 1 + 2 * i, ps + 1 + 2 * (i + 1)));
        lemma_disjoint_join(one, scan_components_fields(p, ps, i + 1, n), ps + 1 + 2 * i, ps + 1 + 2 * (i + 1), ps + 1 + 2 * n);
    }
}

/// The fields of an SOS payload lie one after another within it.
proof fn lemma_sos_disjoint(p: Seq<u8>, ps: int)
    requires
        0 <= ps,
    ensures
        fields_disjoint(sos_fields(p, ps)),
        fields_within(sos_fields(p, ps), ps, ps + p.len()),
{
    if p.len() > 0 {
        let count = p[0] as int;
        let avail = (p.len() - 1) / 2;
        let n = if count < avail { count } else { avail };
        assert(0 <= n <= count && 1 + 2 * n <= p.len());
        lemma_scan_components_disjoint(p, ps, 0, n);
        let first = seq![fv(ps, ps + 1, "scan_components"@, dec(count as nat), "Number of components in this scan."@)];
        assert(fields_disjoint(first));
        assert(fields_within(first, ps, ps + 1));
        lemma_disjoint_join(first, scan_components_fields(p, ps, 0, n), ps, ps + 1, ps + 1 + 2 * n);
        let head = first + scan_components_fields(p, ps, 0, n);
        if 1 + 2 * count + 3 <= p.len() {
            let spectral = spectral_fields(p, ps, count);
            assert(fields_disjoint(spectral));
            assert(fields_within(spectral, ps + 1 + 2 * count, ps + p.len()));
            lemma_disjoint_join(head, spectral, ps, ps + 1 + 2 * count, ps + p.len());
        } else {
            assert(fields_within(head, ps, ps + p.len()));
        }
    }
}

/// `n` quantization values of `bp` bytes each, from payload offset `j0` on,
/// lie one after another.
proof fn lemma_coeffs_disjoint(p: Seq<u8>, base: int, j0: int, bp: int, n: int)
    requires
        0 <= base,
        0 <= j0,
        0 <= n,
        bp == 1 || bp == 2,
    ensures
        fields_disjoint(Seq::new(n as nat, |k: int| coeff_field(p, base, j0 + k * bp, bp, k))),
        fields_within(Seq::new(n as nat, |k: int| coeff_field(p, base, j0 + k * bp, bp, k)), base + j0, base + j0 + n * bp),
{
    let cs = Seq::new(n as nat, |k: int| coeff_field(p, base, j0 + k * bp, bp, k));
    assert forall|a: int, c: int| 0 <= a < c < cs.len() implies cs[a].end <= cs[c].start by {
        if bp == 1 {
            assert(cs[a].end == base + j0 + a + 1 && cs[c].start == base + j0 + c);
        } else {
            assert(cs[a].end == base + j0 + a * 2 + 2 && cs[c].start == base + j0 + c * 2);
        }
    }
    assert forall|k: int| #![trigger cs[k]] 0 <= k < cs.len() implies
        base + j0 <= cs[k].start && cs[k].start <= cs[k].end && cs[k].end <= base + j0 + n * bp by {
        if bp == 1 {
            assert(cs[k].start == base + j0 + k && cs[k].end == base + j0 + k + 1);
        } else {
            assert(cs[k].start == base + j0 + k * 2 && cs[k].end == base + j0 + k * 2 + 2);
            assert(k * 2 + 2 <= n * 2);
        }
    }
}

/// The fields of the quantization tables from payload offset `i` on lie one
/// after another within the payload.
proof fn lemma_dqt_disjoint(p: Seq<u8>, base: int, i: int)
    requires
        0 <= base,
        0 <= i,
    ensures
        fields_disjoint(dqt_decode(p, base, i).0),
        fields_within(dqt_decode(p, base, i).0, base + i, base + p.len()),
    decreases p.len() - i,
{
    if i < p.len() {
        let bp = dqt_value_size(p[i]);
        let j0 = i + 1;
        let head = seq![dqt_header(p, base, i)];
        assert(fields_disjoint(head));
        assert(fields_within(head, base + i, base + j0));
        if j0 + 64 * bp <= p.len() {
            lemma_coeffs_disjoint(p, base, j0, bp, 64);
            let coeffs = Seq::new(64, |k: int| coeff_field(p, base, j0 + k * bp, bp, k));
            lemma_dqt_disjoint(p, base, j0 + 64 * bp);
            lemma_disjoint_join(head, coeffs, base + i, base + j0, base + j0 + 64 * bp);
            lemma_disjoint_join(head + coeffs, dqt_decode(p, base, j0 + 64 * bp).0, base + i, base + j0 + 64 * bp, base + p.len());
        } else {
            let n = (p.len() - j0) / bp;
            assert(0 <= n && n * bp <= p.len() - j0) by {
                if bp == 1 {
                } else {
                    assert((p.len() - j0) / 2 * 2 <= p.len() - j0);
                }
            }
            lemma_coeffs_disjoint(p, base, j0, bp, n);
            let coeffs = Seq::new(n as nat, |k: int| coeff_field(p, base, j0 + k * bp, bp, k));
            lemma_disjoint_join(head, coeffs, base + i, base + j0, base + p.len());
        }
    }
}

/// `n` Huffman symbols from payload offset `s0` on lie one after another.
proof fn lemma_symbols_disjoint(p: Seq<u8>, base: int, s0: int, n: int)
    requires
        0 <= base,
        0 <= s0,
        0 <= n,
    ensures
        fields_disjoint(Seq::new(n as nat, |k: int| symbol_field(p, base, s0 + k, k))),
        fields_within(Seq::new(n as nat, |k: int| symbol_field(p, base, s0 + k, k)), base + s0, base + s0 + n),
{
}

/// The fields of the Huffman tables from payload offset `i` on lie one after
/// another within the payload.
proof fn lemma_dht_disjoint(p: Seq<u8>, base: int, i: int)
    requires
        0 <= base,
        0 <= i,
    ensures
        fields_disjoint(dht_decode(p, base, i).0),
        fields_within(dht_decode(p, base, i).0, base + i, base + p.len()),
    decreases p.len() - i,
{
    if i < p.len() && i + 17 <= p.len() {
        let total = sum_bytes(p.subrange(i + 1, i + 17));
        let head = seq![dht_header(p, base, i), dht_counts(p, base, i, total)];
        assert(fields_disjoint(head));
        assert(fields_within(head, base + i, base + i + 17));
        if i + 17 + total <= p.len() {
            lemma_symbols_disjoint(p, base, i + 17, total as int);
            let syms = Seq::new(total, |k: int| symbol_field(p, base, i + 17 + k, k));
            lemma_dht_disjoint(p, base, i + 17 + total);
            lemma_disjoint_join(head, syms, base + i, base + i + 17, base + i + 17 + total);
            lemma_disjoint_join(head + syms, dht_decode(p, base, i + 17 + total).0, base + i, base + i + 17 + total, base + p.len());
        } else {
            let n = p.len() - i - 17;
            lemma_symbols_disjoint(p, base, i + 17, n);
            let syms = Seq::new(n as nat, |k: int| symbol_field(p, base, i + 17 + k, k));
            lemma_disjoint_join(head, syms, base + i, base + i + 17, base + p.len());
        }
    }
}

/// The fields a segment's payload `[ps, se)` adds to the walk.
spec fn payload_fields(b: Seq<u8>, marker: u8, ps: int, se: int) -> Seq<FieldView> {
    let p = payload_of(b, ps, se);
    if sof(marker) && p.len() >= 6 {
        sof_fields(p, ps)
    } else if marker == 0xE0 && is_jfif(p) {
        jfif_fields(p, ps)
    } else if marker == 0xE1 && is_exif(p) {
        seq![exif_id_field(ps)] + exif_decode(p.subrange(6, p.len() as int), ps + 6).fields
    } else if marker == 0xFE {
        if ps < se { seq![fv(ps, se, "comment"@, utf8_lossy(p), "Free-form comment text."@)] } else { seq![] }
    } else if marker == 0xDD && p.len() >= 2 {
        seq![fv(ps, ps + 2, "restart_interval"@, dec(u16_be(p, 0) as nat), "Number of MCUs between restart markers."@)]
    } else if marker == 0xDB {
        dqt_decode(p, ps, 0).0
    } else if marker == 0xC4 {
        dht_decode(p, ps, 0).0
    } else if marker == 0xDA {
        sos_fields(p, ps)
    } else {
        seq![]
    }
}

/// A segment's payload appends its fields, and marks EXIF exactly when it is
/// an EXIF APP1 block.
proof fn lemma_content_appends(b: Seq<u8>, marker: u8, ps: int, se: int, s: ScanView)
    ensures
        segment_content(b, marker, ps, se, s).fields == s.fields + payload_fields(b, marker, ps, se),
        segment_content(b, marker, ps, se, s).exif == (s.exif || (marker == 0xE1 && is_exif(payload_of(b, ps, se)))),
{
    let p = payload_of(b, ps, se);
    if marker == 0xFE && !(ps < se) {
        assert(s.fields + seq![] =~= s.fields);
    }
    if !(sof(marker) && p.len() >= 6) && !(marker == 0xE0 && is_jfif(p)) && !(marker == 0xE1 && is_exif(p))
        && marker != 0xFE && !(marker == 0xDD && p.len() >= 2) && marker != 0xDB && marker != 0xC4 && marker != 0xDA {
        assert(s.fields + seq![] =~= s.fields);
    }
    if marker == 0xE1 && is_exif(p) {
        let e = exif_decode(p.subrange(6, p.len() as int), ps + 6);
        assert(s.fields + seq![exif_id_field(ps)] + e.fields =~= s.fields + (seq![exif_id_field(ps)] + e.fields));
    }
}

/// Outside EXIF blocks, a payload's fields lie one after another within it.
proof fn lemma_payload_fields(b: Seq<u8>, marker: u8, ps: int, se: int)
    requires
        0 <= ps,
        se <= b.len(),
        !(marker == 0xE1 && is_exif(payload_of(b, ps, se))),
    ensures
        fields_disjoint(payload_fields(b, marker, ps, se)),
        fields_within(payload_fields(b, marker, ps, se), ps, ps + payload_of(b, ps, se).len()),
{
    let p = payload_of(b, ps, se);
    if sof(marker) && p.len() >= 6 {
        lemma_sof_disjoint(p, ps);
    } else if marker == 0xE0 && is_jfif(p) {
    } else if marker == 0xFE {
        if ps < se {
            assert(p.len() == se - ps);
        }
    } else if marker == 0xDD && p.len() >= 2 {
    } else if marker == 0xDB {
        lemma_dqt_disjoint(p, ps, 0);
    } else if marker == 0xC4 {
        lemma_dht_disjoint(p, ps, 0);
    } else if marker == 0xDA {
        lemma_sos_disjoint(p, ps);
    }
}

/// Once the walk has met an EXIF block, it stays marked.
proof fn lemma_walk_keeps_exif(b: Seq<u8>, pos: int, s: ScanView)
    requires
        s.exif,
    ensures
        jpeg_walk(b, pos, s).exif,
    decreases b.len() - pos,
{
    if 0 <= pos < b.len() && b[pos] == 0xFF {
        lemma_skip_fill(b, pos + 1);
        let m = skip_fill(b, pos + 1);
        if m < b.len() {
            let ms = m - 1;
            let s1 = if ms > pos { s.with_region(rv(pos, ms, RegionKind::Gap, "Fill bytes"@)) } else { s };
            let s2 = ScanView { segments: s1.segments + 1, ..s1 };
            lemma_segment_step(b, m, s2);
            let r = segment_step(b, m, s2);
            if !standalone(b[m]) && m + 2 < b.len() {
                let seg_len = u16_be(b, m + 1) as int;
                let se = if m + 1 + seg_len <= b.len() { m + 1 + seg_len } else { b.len() as int };
                let s3 = s2.with_region(rv(ms, se, marker_kind(b[m]), display_name(b[m])))
                    .with_fields(seq![marker_field(ms, m + 1, b[m]), length_field(m + 1, seg_len as nat)]);
                lemma_content_appends(b, b[m], m + 3, se, s3);
            }
            assert(r.0.exif);
            lemma_walk_keeps_exif(b, r.1, r.0);
        }
    }
}

/// One segment, other than an EXIF block, adds fields that follow the earlier
/// ones and end by the next position the walk reads a marker from.
#[verifier::rlimit(40)]
proof fn lemma_step_fields(b: Seq<u8>, m: int, s: ScanView)
    requires
        1 <= m < b.len(),
        fields_disjoint(s.fields),
        fields_within(s.fields, 0, m - 1),
        !segment_step(b, m, s).0.exif,
    ensures
        fields_disjoint(segment_step(b, m, s).0.fields),
        fields_within(segment_step(b, m, s).0.fields, 0, b.len() as int),
        ({
            let next = segment_step(b, m, s).1;
            (0 <= next < b.len() && b[next] == 0xFF) ==> fields_within(segment_step(b, m, s).0.fields, 0, next)
        }),
{
    let len = b.len() as int;
    let marker = b[m];
    let ms = m - 1;
    let out = segment_step(b, m, s);
    if standalone(marker) {
        let one = seq![marker_field(ms, m + 1, marker)];
        assert(fields_disjoint(one));
        assert(fields_within(one, ms, m + 1));
        lemma_disjoint_join(s.fields, one, 0, ms, m + 1);
        assert(out.0.fields == s.fields + one);
    } else if m + 2 >= len {
        assert(out.0.fields == s.fields);
    } else {
        let seg_len = u16_be(b, m + 1) as int;
        let ps = m + 3;
        let se = if m + 1 + seg_len <= len { m + 1 + seg_len } else { len };
        let p = payload_of(b, ps, se);
        let two = seq![marker_field(ms, m + 1, marker), length_field(m + 1, seg_len as nat)];
        let s3 = s.with_region(rv(ms, se, marker_kind(marker), display_name(marker))).with_fields(two);
        lemma_content_appends(b, marker, ps, se, s3);
        let s4 = segment_content(b, marker, ps, se, s3);
        assert(!(marker == 0xE1 && is_exif(p)));
        lemma_payload_fields(b, marker, ps, se);
        let c = payload_fields(b, marker, ps, se);
        assert(fields_disjoint(two));
        assert(fields_within(two, ms, ps));
        lemma_disjoint_join(s.fields, two, 0, ms, ps);
        assert(ps + p.len() <= len);
        lemma_disjoint_join(s.fields + two, c, 0, ps, ps + p.len());
        assert(s4.fields == s.fields + two + c);
        assert(out.0.fields == s4.fields);
        if seg_len < 2 {
            assert(b[m + 1] == 0 && b[m + 2] == seg_len);
            assert(p.len() == 0);
            assert(c.len() == 0);
            if marker == 0xDA {
                assert(next_marker(b, m + 2) == next_marker(b, m + 3) || m + 3 >= len);
                lemma_next_marker(b, m + 3);
            }
        } else {
            if marker == 0xDA {
                lemma_next_marker(b, se);
            }
        }
    }
}

/// Walking on from `pos`, the fields stay disjoint as long as no EXIF block
/// is met.
proof fn lemma_walk_fields(b: Seq<u8>, pos: int, s: ScanView)
    requires
        0 <= pos,
        fields_disjoint(s.fields),
        fields_within(s.fields, 0, b.len() as int),
        (pos < b.len() && b[pos] == 0xFF) ==> fields_within(s.fields, 0, pos),
        !jpeg_walk(b, pos, s).exif,
    ensures
        fields_disjoint(jpeg_walk(b, pos, s).fields),
        fields_within(jpeg_walk(b, pos, s).fields, 0, b.len() as int),
    decreases b.len() - pos,
{
    if pos < b.len() && b[pos] == 0xFF {
        lemma_skip_fill(b, pos + 1);
        let m = skip_fill(b, pos + 1);
        if m < b.len() {
            let ms = m - 1;
            let s1 = if ms > pos { s.with_region(rv(pos, ms, RegionKind::Gap, "Fill bytes"@)) } else { s };
            let s2 = ScanView { segments: s1.segments + 1, ..s1 };
            lemma_segment_step(b, m, s2);
            let r = segment_step(b, m, s2);
            if r.0.exif {
                lemma_walk_keeps_exif(b, r.1, r.0);
            }
            lemma_step_fields(b, m, s2);
            lemma_walk_fields(b, r.1, r.0);
        }
    }
}

/// Sorting fields already sorted by start leaves them as they are.
proof fn lemma_sort_fields_sorted(s: Seq<FieldView>)
    requires
        fields_sorted(s),
    ensures
        sort_fields_by_start(s) == s,
    decreases s.len(),
{
    if s.len() > 0 {
        let d = s.drop_last();
        lemma_sort_fields_sorted(d);
        assert(s =~= d.push(s.last()));
        if d.len() > 0 {
            assert(d.last() == s[s.len() - 2]);
        }
    }
}

/// The fields of a JPEG file without an EXIF block do not overlap: each ends
/// before the next begins. (EXIF value offsets may point anywhere in their
/// block, so that block's fields can overlap.)
pub proof fn lemma_jpeg_fields_disjoint(b: Seq<u8>)
    requires
        jpeg_detects(b),
        !jpeg_walk(b, 0, initial_scan()).exif,
    ensures
        spec_parse_jpeg(b) matches Ok(v) && fields_disjoint(v.fields),
{
    let w = jpeg_walk(b, 0, initial_scan());
    lemma_walk_fields(b, 0, initial_scan());
    assert(fields_sorted(w.fields)) by {
        assert forall|i: int, j: int| 0 <= i < j < w.fields.len() implies w.fields[i].start <= w.fields[j].start by {
            assert(w.fields[i].start <= w.fields[i].end);
            assert(w.fields[i].end <= w.fields[j].start);
        }
    }
    lemma_sort_fields_sorted(w.fields);
}

// --- Where entropy-coded data ends ----------------------------------------------

/// The scan for the next marker stops at the first `0xFF` followed by a byte
/// other than `0x00` (a stuffed zero), `0xFF` (fill) or `0xD0..=0xD7` (the
/// eight restart markers RST0..RST7, which stay inside entropy-coded data);
/// it passes every other position, and answers the end of input when there
/// is no such pair.
pub proof fn lemma_next_marker_stops_at_real_markers(b: Seq<u8>, start: int)
    requires
        0 <= start,
    ensures
        ({
            let r = next_marker(b, start);
            &&& (start <= r < b.len() - 1 && b[r] == 0xFF && b[r + 1] != 0x00 && b[r + 1] != 0xFF
                    && !(0xD0 <= b[r + 1] && b[r + 1] <= 0xD7))
                || r == b.len()
            &&& forall|i: int| start <= i < r && i + 1 < b.len() ==>
                    !(b[i] == 0xFF && b[i + 1] != 0x00 && b[i + 1] != 0xFF && !(0xD0 <= #[trigger] b[i + 1] && b[i + 1] <= 0xD7))
        }),
    decreases b.len() - start,
{
    if !(start + 1 >= b.len()) && !real_marker_at(b, start) {
        lemma_next_marker_stops_at_real_markers(b, start + 1);
    }
}

// --- Summary ---------------------------------------------------------------------

/// Whether some Huffman table has class `c`.
pub open spec fn has_class(h: Seq<(u8, u8)>, c: u8) -> bool {
    exists|i: int| 0 <= i < h.len() && h[i].0 == c
}

/// The ids of the Huffman tables of class `c`, comma-separated, in order.
pub open spec fn class_ids(h: Seq<(u8, u8)>, c: u8) -> Seq<char>
    decreases h.len(),
{
    if h.len() == 0 {
        seq![]
    } else {
        let prev = class_ids(h.drop_last(), c);
        if h.last().0 == c {
            if has_class(h.drop_last(), c) { prev + ", "@ + dec(h.last().1 as nat) } else { dec(h.last().1 as nat) }
        } else {
            prev
        }
    }
}

/// The Huffman-table summary text, e.g. `DC: 0, 1 · AC: 0`.
pub open spec fn huffman_text(h: Seq<(u8, u8)>) -> Seq<char> {
    if has_class(h, 0) && has_class(h, 1) {
        "DC: "@ + class_ids(h, 0) + " · AC: "@ + class_ids(h, 1)
    } else if has_class(h, 0) {
        "DC: "@ + class_ids(h, 0)
    } else {
        "AC: "@ + class_ids(h, 1)
    }
}

/// What a component count usually means.
pub open spec fn components_kind(c: u8) -> Seq<char> {
    if c == 1 { " (grayscale)"@ } else if c == 3 { " (YCbCr color)"@ } else if c == 4 { " (CMYK/YCCK)"@ } else { ""@ }
}

/// The summary lines on the frame: format, dimensions, precision, components.
pub open spec fn frame_lines(s: ScanView) -> Seq<(Seq<char>, Seq<char>)> {
    let s0 = seq![("Format"@, match s.frame { Some(m) => "JPEG ("@ + marker_desc(m) + ")"@, None => "JPEG"@ })];
    let s1 = if s.width > 0 || s.height > 0 {
        s0.push(("Dimensions"@, dec(s.width as nat) + " × "@ + dec(s.height as nat) + " px"@))
    } else {
        s0
    };
    let s2 = if s.precision > 0 { s1.push(("Sample precision"@, dec(s.precision as nat) + " bits/component"@)) } else { s1 };
    if s.components > 0 { s2.push(("Components"@, dec(s.components as nat) + components_kind(s.components))) } else { s2 }
}

/// The summary lines on the coding tables and the JFIF version.
pub open spec fn table_lines(s: ScanView) -> Seq<(Seq<char>, Seq<char>)> {
    let s0: Seq<(Seq<char>, Seq<char>)> = seq![];
    let s1 = if s.quant > 0 { s0.push(("Quantization tables"@, dec(s.quant))) } else { s0 };
    let s2 = if has_class(s.huff, 0) || has_class(s.huff, 1) { s1.push(("Huffman tables"@, huffman_text(s.huff))) } else { s1 };
    match s.jfif { Some(v) => s2.push(("JFIF version"@, v)), None => s2 }
}

/// The summary lines on the metadata: EXIF, its headline tags, the comment.
pub open spec fn metadata_lines(s: ScanView) -> Seq<(Seq<char>, Seq<char>)> {
    let s0 = seq![("EXIF metadata"@, if s.exif { "present"@ } else { "absent"@ })] + tag_lines(s.tags);
    match s.comment { Some(c) => s0.push(("Comment"@, c)), None => s0 }
}

/// The summary lines of a JPEG file of `len` bytes whose walk ended in `s`.
pub open spec fn jpeg_summary(s: ScanView, len: nat) -> Seq<(Seq<char>, Seq<char>)> {
    frame_lines(s) + table_lines(s) + metadata_lines(s) + seq![
        ("Pixel storage"@, "DCT coefficients, Huffman-coded (no direct byte→pixel mapping)"@),
        ("Segments"@, dec(s.segments)),
        ("Actual file size"@, dec(len) + " bytes"@),
    ]
}

/// Whether bytes open with the SOI marker.
pub open spec fn jpeg_detects(b: Seq<u8>) -> bool {
    b.len() >= 2 && b[0] == 0xFF && b[1] == 0xD8
}

/// What parsing a JPEG file yields: its marker structure, with no pixel layout.
pub open spec fn spec_parse_jpeg(b: Seq<u8>) -> Result<ParsedView, ParseErrorView> {
    if !jpeg_detects(b) {
        Err(ParseErrorView::NotRecognized)
    } else {
        let s = jpeg_walk(b, 0, initial_scan());
        Ok(ParsedView {
            format_name: "JPEG"@,
            regions: sort_by_start(s.regions),
            fields: sort_fields_by_start(s.fields),
            summary: jpeg_summary(s, b.len()),
            palette: seq![],
            palette_info: None,
            pixel_info: None,
        })
    }
}

// --- Parsing ---------------------------------------------------------------------

/// The state of the segment walk.
struct Scan {
    regions: Vec<Region>,
    fields: Vec<Field>,
    width: u16,
    height: u16,
    precision: u8,
    components: u8,
    frame: Option<u8>,
    jfif: Option<String>,
    exif: bool,
    tags: ExifTags,
    comment: Option<String>,
    quant: usize,
    huff: Vec<(u8, u8)>,
    segments: usize,
}

impl View for Scan {
    type V = ScanView;

    closed spec fn view(&self) -> ScanView {
        ScanView {
            regions: regions_view(self.regions@),
            fields: fields_view(self.fields@),
            width: self.width,
            height: self.height,
            precision: self.precision,
            components: self.components,
            frame: self.frame,
            jfif: opt_text(self.jfif),
            exif: self.exif,
            tags: self.tags@,
            comment: opt_text(self.comment),
            quant: self.quant as nat,
            huff: self.huff@,
            segments: self.segments as nat,
        }
    }
}

impl Scan {
    fn new() -> (s: Self)
        ensures
            s@ == initial_scan(),
    {
        let s = Scan {
            regions: Vec::new(),
            fields: Vec::new(),
            width: 0,
            height: 0,
            precision: 0,
            components: 0,
            frame: None,
            jfif: None,
            exif: false,
            tags: ExifTags::none(),
            comment: None,
            quant: 0,
            huff: Vec::new(),
            segments: 0,
        };
        assert(s@ =~= initial_scan());
        s
    }

    fn add_region(&mut self, r: Region)
        ensures
            final(self)@ == old(self)@.with_region(r@),
            final(self).quant == old(self).quant,
            final(self).segments == old(self).segments,
    {
        let ghost before = self.regions@;
        self.regions.push(r);
        assert(regions_view(self.regions@) =~= regions_view(before).push(r@));
        assert(self@ =~= old(self)@.with_region(r@));
    }

    fn add_fields(&mut self, more: Vec<Field>)
        ensures
            final(self)@ == old(self)@.with_fields(fields_view(more@)),
            final(self).quant == old(self).quant,
            final(self).segments == old(self).segments,
    {
        let ghost before = self.fields@;
        let mut more = more;
        let ghost m = more@;
        self.fields.append(&mut more);
        assert(fields_view(self.fields@) =~= fields_view(before) + fields_view(m));
        assert(self@ =~= old(self)@.with_fields(fields_view(m)));
    }
}

/// The field of a marker whose display name is `name`.
fn marker_field_of(ms: usize, end: usize, m: u8, name: &String) -> (f: Field)
    requires
        name@ == display_name(m),
    ensures
        f@ == marker_field(ms as int, end as int, m),
{
    let mut value = String::new();
    value.append("FF");
    push_hex(&mut value, m as u128, 2);
    let mut desc = name.clone();
    desc.append(" — ");
    desc.append(marker_info(m).1);
    let f = Field { start: ms, end, name: String::from_str("marker"), value, description: desc };
    assert(f@ =~= marker_field(ms as int, end as int, m));
    f
}

/// Read the payload `[ps, se)` of a segment with `marker` into the state.
fn read_segment(bytes: &[u8], marker: u8, ps: usize, se: usize, scan: &mut Scan)
    requires
        se <= bytes.len(),
        ps <= bytes.len(),
        old(scan).quant + 2 <= ps,
        ps <= se + 2,
    ensures
        final(scan)@ == segment_content(bytes@, marker, ps as int, se as int, old(scan)@),
        final(scan).quant <= se,
        final(scan).segments == old(scan).segments,
{
    let p: &[u8] = if ps <= se { &bytes[ps..se] } else { &bytes[se..se] };
    assert(p@ =~= payload_of(bytes@, ps as int, se as int));
    if is_sof(marker) && p.len() >= 6 {
        let f = frame_fields(p, ps);
        scan.add_fields(f);
        scan.precision = p[0];
        scan.height = u16be(p, 1);
        scan.width = u16be(p, 3);
        scan.components = p[5];
        scan.frame = Some(marker);
    } else if marker == 0xE0 && p.len() >= 7 && p[0] == 0x4A && p[1] == 0x46 && p[2] == 0x49 && p[3] == 0x46 && p[4] == 0 {
        let version = jfif_version_text(p);
        let mut f: Vec<Field> = Vec::new();
        f.push(make_field(ps, ps + 5, "identifier", String::from_str("JFIF"), "JFIF APP0 identifier (the bytes \"JFIF\\0\")."));
        f.push(make_field(ps + 5, ps + 7, "version", version.clone(), "JFIF version (major.minor)."));
        assert(fields_view(f@) =~= jfif_fields(p@, ps as int));
        scan.add_fields(f);
        scan.jfif = Some(version);
    } else if marker == 0xE1 && p.len() >= 6 && p[0] == 0x45 && p[1] == 0x78 && p[2] == 0x69 && p[3] == 0x66
        && p[4] == 0 && p[5] == 0 {
        let mut f: Vec<Field> = Vec::new();
        f.push(make_field(ps, ps + 6, "identifier", String::from_str("Exif"), "EXIF APP1 identifier (the bytes \"Exif\\0\\0\")."));
        let (ef, tags) = decode_exif(&p[6..p.len()], ps + 6);
        let mut ef = ef;
        let ghost fv0 = fields_view(f@);
        let ghost efv = fields_view(ef@);
        f.append(&mut ef);
        assert(fields_view(f@) =~= fv0 + efv);
        scan.add_fields(f);
        scan.exif = true;
        scan.tags = tags;
    } else if marker == 0xFE {
        let text = lossy_text(p);
        if ps < se {
            let mut f: Vec<Field> = Vec::new();
            f.push(make_field(ps, se, "comment", text.clone(), "Free-form comment text."));
            assert(fields_view(f@) =~= seq![fv(ps as int, se as int, "comment"@, utf8_lossy(p@), "Free-form comment text."@)]);
            scan.add_fields(f);
        }
        scan.comment = Some(text);
    } else if marker == 0xDD && p.len() >= 2 {
        let mut f: Vec<Field> = Vec::new();
        f.push(make_field(ps, ps + 2, "restart_interval", dec_string(u16be(p, 0) as u128),
            "Number of MCUs between restart markers."));
        scan.add_fields(f);
    } else if marker == 0xDB {
        let (f, tables) = decode_dqt(p, ps);
        scan.add_fields(f);
        scan.quant = scan.quant + tables;
    } else if marker == 0xC4 {
        let (f, tables) = decode_dht(p, ps);
        scan.add_fields(f);
        let mut tables = tables;
        scan.huff.append(&mut tables);
    } else if marker == 0xDA {
        let f = scan_fields(p, ps);
        scan.add_fields(f);
    }
    assert(scan@ =~= segment_content(bytes@, marker, ps as int, se as int, old(scan)@));
}


proof fn lemma_class_ids_empty(h: Seq<(u8, u8)>, c: u8)
    requires
        !has_class(h, c),
    ensures
        class_ids(h, c) == Seq::<char>::empty(),
    decreases h.len(),
{
    if h.len() > 0 {
        assert(h[h.len() - 1] == h.last());
        assert forall|i: int| 0 <= i < h.drop_last().len() implies h.drop_last()[i].0 != c by {
            assert(h.drop_last()[i] == h[i]);
        }
        lemma_class_ids_empty(h.drop_last(), c);
    }
}

/// The ids of the Huffman tables of class `c`, and whether there is one.
fn class_ids_text(h: &Vec<(u8, u8)>, c: u8) -> (r: (String, bool))
    ensures
        r.0@ == class_ids(h@, c),
        r.1 == has_class(h@, c),
{
    let mut s = String::new();
    let mut any = false;
    let mut k: usize = 0;
    while k < h.len()
        invariant
            k <= h.len(),
            s@ == class_ids(h@.subrange(0, k as int), c),
            any == has_class(h@.subrange(0, k as int), c),
        decreases h.len() - k,
    {
        let ghost prev = h@.subrange(0, k as int);
        let ghost sub = h@.subrange(0, k + 1);
        assert(sub.drop_last() =~= prev);
        assert(sub.last() == h@[k as int]);
        let (cl, id) = h[k];
        if cl == c {
            if any {
                s.append(", ");
            } else {
                proof { lemma_class_ids_empty(prev, c); }
            }
            push_dec(&mut s, id as u128);
            assert(sub[k as int].0 == c);
            any = true;
        } else {
            assert(has_class(sub, c) == has_class(prev, c)) by {
                if has_class(sub, c) {
                    let i = choose|i: int| 0 <= i < sub.len() && sub[i].0 == c;
                    assert(prev[i].0 == c);
                }
                if has_class(prev, c) {
                    let i = choose|i: int| 0 <= i < prev.len() && prev[i].0 == c;
                    assert(sub[i].0 == c);
                }
            }
        }
        assert(s@ =~= class_ids(sub, c));
        k = k + 1;
    }
    assert(h@.subrange(0, h.len() as int) =~= h@);
    (s, any)
}

/// Append the frame lines of the summary.
fn push_frame_lines(scan: &Scan, out: &mut Vec<(String, String)>)
    ensures
        pairs_view(final(out)@) == pairs_view(old(out)@) + frame_lines(scan@),
{
    let ghost sv = scan@;
    let ghost start = pairs_view(out@);
    let mut format = String::new();
    match scan.frame {
        Some(m) => {
            format.append("JPEG (");
            format.append(marker_info(m).1);
            format.append(")");
        },
        None => {
            format.append("JPEG");
        },
    }
    out.push(make_line("Format", format));
    let ghost s0 = seq![("Format"@, match sv.frame { Some(m) => "JPEG ("@ + marker_desc(m) + ")"@, None => "JPEG"@ })];
    assert(pairs_view(out@) =~= start + s0);
    if scan.width > 0 || scan.height > 0 {
        let mut dims = String::new();
        push_dec(&mut dims, scan.width as u128);
        dims.append(" × ");
        push_dec(&mut dims, scan.height as u128);
        dims.append(" px");
        out.push(make_line("Dimensions", dims));
    }
    let ghost s1 = if sv.width > 0 || sv.height > 0 {
        s0.push(("Dimensions"@, dec(sv.width as nat) + " × "@ + dec(sv.height as nat) + " px"@))
    } else {
        s0
    };
    assert(pairs_view(out@) =~= start + s1);
    if scan.precision > 0 {
        out.push(make_line("Sample precision", dec_with_suffix(scan.precision as usize, " bits/component")));
    }
    let ghost s2 = if sv.precision > 0 { s1.push(("Sample precision"@, dec(sv.precision as nat) + " bits/component"@)) } else { s1 };
    assert(pairs_view(out@) =~= start + s2);
    if scan.components > 0 {
        let c = scan.components;
        let kind = if c == 1 { " (grayscale)" } else if c == 3 { " (YCbCr color)" } else if c == 4 { " (CMYK/YCCK)" } else { "" };
        out.push(make_line("Components", dec_with_suffix(c as usize, kind)));
    }
    assert(pairs_view(out@) =~= start + frame_lines(sv));
}

/// Append the table lines of the summary.
fn push_table_lines(scan: &Scan, out: &mut Vec<(String, String)>)
    ensures
        pairs_view(final(out)@) == pairs_view(old(out)@) + table_lines(scan@),
{
    let ghost sv = scan@;
    let ghost start = pairs_view(out@);
    if scan.quant > 0 {
        out.push(make_line("Quantization tables", dec_string(scan.quant as u128)));
    }
    let ghost s0: Seq<(Seq<char>, Seq<char>)> = seq![];
    let ghost s1 = if sv.quant > 0 { s0.push(("Quantization tables"@, dec(sv.quant))) } else { s0 };
    assert(pairs_view(out@) =~= start + s1);
    let (dc, has_dc) = class_ids_text(&scan.huff, 0);
    let (ac, has_ac) = class_ids_text(&scan.huff, 1);
    if has_dc || has_ac {
        let mut text = String::new();
        if has_dc {
            text.append("DC: ");
            text.append(dc.as_str());
            if has_ac {
                text.append(" · AC: ");
                text.append(ac.as_str());
            }
        } else {
            text.append("AC: ");
            text.append(ac.as_str());
        }
        assert(text@ =~= huffman_text(sv.huff));
        out.push(make_line("Huffman tables", text));
    }
    let ghost s2 = if has_class(sv.huff, 0) || has_class(sv.huff, 1) { s1.push(("Huffman tables"@, huffman_text(sv.huff))) } else { s1 };
    assert(pairs_view(out@) =~= start + s2);
    match &scan.jfif {
        Some(v) => { out.push(make_line("JFIF version", v.clone())); },
        None => {},
    }
    assert(pairs_view(out@) =~= start + table_lines(sv));
}

/// Append the metadata lines of the summary.
fn push_metadata_lines(scan: &Scan, out: &mut Vec<(String, String)>)
    ensures
        pairs_view(final(out)@) == pairs_view(old(out)@) + metadata_lines(scan@),
{
    let ghost sv = scan@;
    let ghost start = pairs_view(out@);
    if scan.exif {
        out.push(make_line("EXIF metadata", String::from_str("present")));
    } else {
        out.push(make_line("EXIF metadata", String::from_str("absent")));
    }
    let ghost s0 = seq![("EXIF metadata"@, if sv.exif { "present"@ } else { "absent"@ })];
    assert(pairs_view(out@) =~= start + s0);
    push_tag_lines(&scan.tags, out);
    assert(pairs_view(out@) =~= start + (s0 + tag_lines(sv.tags)));
    let ghost mid = pairs_view(out@);
    match &scan.comment {
        Some(c) => {
            out.push(make_line("Comment", c.clone()));
            assert(pairs_view(out@) =~= mid.push(("Comment"@, c@)));
        },
        None => {},
    }
    assert(pairs_view(out@) =~= start + metadata_lines(sv));
}

/// The summary lines of a walk that ended in `scan`, for a file of `len` bytes.
fn summary_of(scan: &Scan, len: usize) -> (out: Vec<(String, String)>)
    ensures
        pairs_view(out@) == jpeg_summary(scan@, len as nat),
{
    let ghost sv = scan@;
    let mut out: Vec<(String, String)> = Vec::new();
    push_frame_lines(scan, &mut out);
    push_table_lines(scan, &mut out);
    push_metadata_lines(scan, &mut out);
    let ghost head = pairs_view(out@);
    out.push(make_line("Pixel storage", String::from_str("DCT coefficients, Huffman-coded (no direct byte→pixel mapping)")));
    out.push(make_line("Segments", dec_string(scan.segments as u128)));
    out.push(make_line("Actual file size", dec_with_suffix(len, " bytes")));
    assert(head =~= frame_lines(sv) + table_lines(sv) + metadata_lines(sv));
    assert(pairs_view(out@) =~= jpeg_summary(sv, len as nat));
    out
}

/// The regions sorted by start, equal starts keeping their order.
fn sort_regions(v: &Vec<Region>) -> (out: Vec<Region>)
    ensures
        regions_view(out@) == sort_by_start(regions_view(v@)),
{
    let ghost all = regions_view(v@);
    let mut out: Vec<Region> = Vec::new();
    let mut k: usize = 0;
    while k < v.len()
        invariant
            k <= v.len(),
            all == regions_view(v@),
            regions_view(out@) == sort_by_start(all.subrange(0, k as int)),
        decreases v.len() - k,
    {
        let r = Region { start: v[k].start, end: v[k].end, kind: v[k].kind, name: v[k].name.clone() };
        proof {
            assert(all.subrange(0, k + 1).drop_last() =~= all.subrange(0, k as int));
            assert(all.subrange(0, k + 1).last() == r@);
        }
        insert_region(&mut out, r);
        k = k + 1;
    }
    assert(all.subrange(0, v.len() as int) =~= all);
    out
}

/// One step of the walk from `pos`: read the segment there.
fn walk_step(bytes: &[u8], pos: usize, scan: &mut Scan) -> (next: usize)
    requires
        pos < bytes.len(),
        old(scan).segments <= pos,
        old(scan).quant <= pos,
    ensures
        pos < next <= bytes.len(),
        final(scan).segments <= next,
        final(scan).quant <= next,
        jpeg_walk(bytes@, pos as int, old(scan)@) == jpeg_walk(bytes@, next as int, final(scan)@),
{
    let ghost b = bytes@;
    let n = bytes.len();
    if bytes[pos] != 0xFF {
        scan.add_region(make_region(pos, n, RegionKind::Unknown, "Unrecognized data"));
        return n;
    }
    proof { lemma_skip_fill(b, pos + 1); }
    let mut m = pos + 1;
    while m < n && bytes[m] == 0xFF
        invariant
            n == bytes.len(),
            b == bytes@,
            pos < n,
            pos + 1 <= m <= n,
            skip_fill(b, m as int) == skip_fill(b, pos + 1),
        decreases n - m,
    {
        m = m + 1;
    }
    assert(skip_fill(b, m as int) == m);
    if m >= n {
        scan.add_region(make_region(pos, n, RegionKind::Gap, "Trailing fill bytes"));
        return n;
    }
    let ms = m - 1;
    if ms > pos {
        scan.add_region(make_region(pos, ms, RegionKind::Gap, "Fill bytes"));
    }
    scan.segments = scan.segments + 1;
    read_marker(bytes, m, scan)
}

/// Read the segment whose marker byte sits at `m`.
fn read_marker(bytes: &[u8], m: usize, scan: &mut Scan) -> (next: usize)
    requires
        0 < m < bytes.len(),
        old(scan).segments <= m,
        old(scan).quant + 1 <= m,
    ensures
        (final(scan)@, next as int) == segment_step(bytes@, m as int, old(scan)@),
        m < next <= bytes.len(),
        final(scan).segments <= next,
        final(scan).quant <= next,
{
    let ghost b = bytes@;
    let n = bytes.len();
    proof { lemma_segment_step(b, m as int, scan@); }
    let marker = bytes[m];
    let ms = m - 1;
    let name = display_string(marker);
    if is_standalone(marker) {
        scan.add_region(Region { start: ms, end: m + 1, kind: region_kind(marker), name: name.clone() });
        let mut f: Vec<Field> = Vec::new();
        f.push(marker_field_of(ms, m + 1, marker, &name));
        scan.add_fields(f);
        if marker == 0xD9 {
            if m + 1 < n {
                scan.add_region(make_region(m + 1, n, RegionKind::Unknown, "Trailing data (after EOI)"));
            }
            n
        } else {
            m + 1
        }
    } else if n - m <= 2 {
        let mut tname = name.clone();
        tname.append(" (truncated)");
        scan.add_region(Region { start: ms, end: n, kind: RegionKind::Unknown, name: tname });
        n
    } else {
        let seg_len = u16be(bytes, m + 1) as usize;
        let ps = m + 3;
        let se = if seg_len <= n - (m + 1) { m + 1 + seg_len } else { n };
        scan.add_region(Region { start: ms, end: se, kind: region_kind(marker), name: name.clone() });
        let mut f: Vec<Field> = Vec::new();
        f.push(marker_field_of(ms, m + 1, marker, &name));
        f.push(make_field(m + 1, m + 3, "length", dec_string(seg_len as u128),
            "Segment length in bytes (includes these two length bytes, excludes the marker)."));
        assert(fields_view(f@) =~= seq![marker_field(ms as int, m + 1, marker), length_field(m + 1, seg_len as nat)]);
        scan.add_fields(f);
        read_segment(bytes, marker, ps, se, scan);
        if marker == 0xDA {
            let scan_end = find_next_marker(bytes, se);
            if scan_end > se {
                scan.add_region(make_region(se, scan_end, RegionKind::PixelData, "Entropy-coded scan data"));
            }
            scan_end
        } else {
            se
        }
    }
}

/// Parse a JPEG file: walk its marker segments.
pub(crate) fn parse_jpeg(bytes: &[u8]) -> (r: Result<ParsedImage, ParseError>)
    ensures
        r matches Ok(img) ==> spec_parse_jpeg(bytes@) == Ok::<ParsedView, ParseErrorView>(img@) && image_ok(img),
        r matches Err(e) ==> spec_parse_jpeg(bytes@) == Err::<ParsedView, ParseErrorView>(e@),
{
    let ghost b = bytes@;
    let n = bytes.len();
    if !(n >= 2 && bytes[0] == 0xFF && bytes[1] == 0xD8) {
        return Err(ParseError::NotRecognized);
    }
    let mut scan = Scan::new();
    let mut pos: usize = 0;
    while pos < n
        invariant
            n == bytes.len(),
            b == bytes@,
            pos <= n,
            scan.segments <= pos,
            scan.quant <= pos,
            jpeg_walk(b, pos as int, scan@) == jpeg_walk(b, 0, initial_scan()),
        decreases n - pos,
    {
        pos = walk_step(bytes, pos, &mut scan);
    }
    let ghost fin = scan@;
    assert(fin == jpeg_walk(b, 0, initial_scan()));
    let regions = sort_regions(&scan.regions);
    let mut fields: Vec<Field> = Vec::new();
    let ghost nothing: Seq<FieldView> = seq![];
    assert(fields_view(fields@) =~= nothing);
    insert_fields(&mut fields, &scan.fields, Ghost(nothing));
    assert(nothing + fin.fields =~= fin.fields);
    let summary = summary_of(&scan, n);
    let img = ParsedImage {
        format_name: String::from_str("JPEG"),
        regions,
        fields,
        summary,
        palette: Vec::new(),
        palette_info: None,
        pixel_info: None,
    };
    assert(spec_parse_jpeg(b) matches Ok(w) && img@ =~= w);
    Ok(img)
}

impl crate::format::ImageFormat for JpegFormat {
    open spec fn format_name(&self) -> Seq<char> {
        "JPEG"@
    }

    open spec fn recognizes(&self, bytes: Seq<u8>) -> bool {
        jpeg_detects(bytes)
    }

    open spec fn fits(&self, bytes: Seq<u8>) -> bool {
        true
    }

    open spec fn parses_to(&self, bytes: Seq<u8>) -> Result<ParsedView, ParseErrorView> {
        spec_parse_jpeg(bytes)
    }

    fn name(&self) -> (s: &'static str) {
        "JPEG"
    }

    fn detect(&self, bytes: &[u8]) -> (b: bool) {
        bytes.len() >= 2 && bytes[0] == 0xFF && bytes[1] == 0xD8
    }

    fn parse(&self, bytes: &[u8]) -> (r: Result<ParsedImage, ParseError>) {
        parse_jpeg(bytes)
    }
}

} // verus!
