//! Netpbm binary parser: P5 (grayscale, PGM) and P6 (RGB, PPM).
//!
//! Binary Netpbm has an ASCII header (`P6\n<width> <height>\n<maxval>\n`,
//! comments allowed) followed by raw samples. Only 8-bit samples
//! (`maxval <= 255`) get pixel decoding.

use vstd::prelude::*;
use crate::field::{fields_disjoint, fv, Field, FieldView};
use crate::format::{ParseError, ParseErrorView};
use crate::model::{ParsedImage, ParsedView, PixelEncoding, PixelInfo, image_ok};
use crate::region::{lemma_partitions_push, partitions, rv, sorted_disjoint, Region, RegionKind, RegionView};
use crate::text::{dec, dec_string, push_dec};

verus! {

/// The Netpbm format parser.
pub struct NetpbmFormat;

/// Whether `c` is ASCII whitespace (space, tab, line feed, form feed, carriage return).
pub open spec fn is_ascii_ws(c: u8) -> bool {
    c == 0x20 || c == 0x09 || c == 0x0A || c == 0x0C || c == 0x0D
}

/// The first position at or after `pos` that is neither whitespace nor inside
/// a `#` comment (which runs to the end of its line). `in_comment` tells
/// whether `pos` lies inside a comment.
pub open spec fn skip_filler(b: Seq<u8>, pos: int, in_comment: bool) -> int
    decreases b.len() - pos,
{
    if pos < 0 || pos >= b.len() {
        pos
    } else if in_comment {
        if b[pos] == 0x0A { skip_filler(b, pos + 1, false) } else { skip_filler(b, pos + 1, true) }
    } else if is_ascii_ws(b[pos]) {
        skip_filler(b, pos + 1, false)
    } else if b[pos] == 0x23 {
        skip_filler(b, pos + 1, true)
    } else {
        pos
    }
}

/// The end of the token starting at `s`: the next whitespace or the end of input.
pub open spec fn token_end(b: Seq<u8>, s: int) -> int
    decreases b.len() - s,
{
    if 0 <= s < b.len() && !is_ascii_ws(b[s]) { token_end(b, s + 1) } else { s }
}

/// The span of the next header token at or after `pos`.
pub open spec fn next_token_span(b: Seq<u8>, pos: int) -> Option<(int, int)> {
    let s = skip_filler(b, pos, false);
    if s >= b.len() { None } else { Some((s, token_end(b, s))) }
}

/// Whether `c` is an ASCII decimal digit.
pub open spec fn is_digit(c: u8) -> bool {
    0x30 <= c <= 0x39
}

/// The value of a string of decimal digits.
pub open spec fn digits_value(d: Seq<u8>) -> nat
    decreases d.len(),
{
    if d.len() == 0 { 0 } else { digits_value(d.drop_last()) * 10 + (d.last() - 0x30) as nat }
}

/// A token without its optional leading `+`.
pub open spec fn unsigned_digits(t: Seq<u8>) -> Seq<u8> {
    if t.len() > 0 && t[0] == 0x2B { t.drop_first() } else { t }
}

/// Whether every byte is a decimal digit.
pub open spec fn all_digit_seq(d: Seq<u8>) -> bool {
    forall|i: int| 0 <= i < d.len() ==> is_digit(#[trigger] d[i])
}

/// The `u32` a header token spells: an optional `+` and at least one decimal
/// digit, no larger than `u32::MAX`.
pub open spec fn parse_u32(t: Seq<u8>) -> Option<u32> {
    let d = unsigned_digits(t);
    if d.len() == 0 || !all_digit_seq(d) {
        None
    } else if digits_value(d) > u32::MAX {
        None
    } else {
        Some(digits_value(d) as u32)
    }
}

/// Whether bytes open with a binary Netpbm magic number (`P5` or `P6`).
pub open spec fn netpbm_detects(b: Seq<u8>) -> bool {
    b.len() >= 2 && b[0] == 0x50 && (b[1] == 0x35 || b[1] == 0x36)
}

/// The header facts of a Netpbm file whose header parses: the token spans
/// of width, height and maxval, and their values.
pub struct NetpbmHeader {
    pub ws: int,
    pub we: int,
    pub hs: int,
    pub he: int,
    pub ms: int,
    pub me: int,
    pub width: u32,
    pub height: u32,
    pub maxval: u32,
}

/// The outcome of reading a Netpbm header: its facts, or the error message.
pub open spec fn netpbm_header(b: Seq<u8>) -> Result<NetpbmHeader, Seq<char>> {
    match next_token_span(b, 2) {
        None => Err("missing width"@),
        Some((ws, we)) => match next_token_span(b, we) {
            None => Err("missing height"@),
            Some((hs, he)) => match next_token_span(b, he) {
                None => Err("missing maxval"@),
                Some((ms, me)) => match parse_u32(b.subrange(ws, we)) {
                    None => Err("bad width"@),
                    Some(width) => match parse_u32(b.subrange(hs, he)) {
                        None => Err("bad height"@),
                        Some(height) => match parse_u32(b.subrange(ms, me)) {
                            None => Err("bad maxval"@),
                            Some(maxval) => Ok(NetpbmHeader { ws, we, hs, he, ms, me, width, height, maxval }),
                        },
                    },
                },
            },
        },
    }
}

/// Bytes per pixel: 3 for P6, 1 for P5.
pub open spec fn netpbm_bpp(b: Seq<u8>) -> int {
    if b[1] == 0x36 { 3 } else { 1 }
}

/// Where the raster starts: one byte after the maxval token.
pub open spec fn netpbm_data_start(b: Seq<u8>, h: NetpbmHeader) -> int {
    if h.me + 1 < b.len() { h.me + 1 } else { b.len() as int }
}

/// Whether the raster arithmetic of a Netpbm file fits in `usize`.
pub open spec fn netpbm_fits(b: Seq<u8>) -> bool {
    netpbm_detects(b) ==> match netpbm_header(b) {
        Ok(h) => {
            &&& h.width * netpbm_bpp(b) <= usize::MAX
            &&& netpbm_data_start(b, h) + h.width * netpbm_bpp(b) * h.height <= usize::MAX
        },
        Err(_) => true,
    }
}

/// The end of the raster, clamped to the file.
pub open spec fn netpbm_data_end(b: Seq<u8>, h: NetpbmHeader) -> int {
    let end = netpbm_data_start(b, h) + h.width * netpbm_bpp(b) * h.height;
    if end < b.len() { end } else { b.len() as int }
}

/// The regions of a parsed Netpbm file.
pub open spec fn netpbm_regions(b: Seq<u8>, h: NetpbmHeader) -> Seq<RegionView> {
    let ds = netpbm_data_start(b, h);
    let de = netpbm_data_end(b, h);
    let header = seq![rv(0, ds, RegionKind::InfoHeader, "Netpbm header"@)];
    let with_pixels = if de > ds { header.push(rv(ds, de, RegionKind::PixelData, "Pixel data"@)) } else { header };
    if de < b.len() { with_pixels.push(rv(de, b.len() as int, RegionKind::Unknown, "Trailing data"@)) } else { with_pixels }
}

/// The fields of a parsed Netpbm file.
pub open spec fn netpbm_fields(b: Seq<u8>, h: NetpbmHeader) -> Seq<FieldView> {
    seq![
        if b[1] == 0x36 {
            fv(0, 2, "magic"@, "P6"@, "P6 — binary RGB (PPM)"@)
        } else {
            fv(0, 2, "magic"@, "P5"@, "P5 — binary grayscale (PGM)"@)
        },
        fv(h.ws, h.we, "width"@, dec(h.width as nat), "Image width in pixels."@),
        fv(h.hs, h.he, "height"@, dec(h.height as nat), "Image height in pixels."@),
        fv(h.ms, h.me, "maxval"@, dec(h.maxval as nat), "Maximum sample value (255 for 8-bit samples)."@),
    ]
}

/// The summary lines of a parsed Netpbm file.
pub open spec fn netpbm_summary(b: Seq<u8>, h: NetpbmHeader) -> Seq<(Seq<char>, Seq<char>)> {
    seq![
        ("Format"@, if b[1] == 0x36 { "Netpbm P6 (PPM, RGB)"@ } else { "Netpbm P5 (PGM, grayscale)"@ }),
        ("Dimensions"@, dec(h.width as nat) + " × "@ + dec(h.height as nat) + " px"@),
        ("Max sample value"@, dec(h.maxval as nat)),
        ("Row order"@, "top-down"@),
        ("Pixel data offset"@, dec(netpbm_data_start(b, h) as nat)),
        ("Actual file size"@, dec(b.len()) + " bytes"@),
    ]
}

/// The pixel layout of a parsed Netpbm file with 8-bit samples.
pub open spec fn netpbm_pixel_info(b: Seq<u8>, h: NetpbmHeader) -> Option<PixelInfo> {
    if h.maxval > 0 && h.maxval <= 255 && h.width > 0 && h.height > 0 {
        Some(PixelInfo {
            data_start: netpbm_data_start(b, h) as usize,
            width: h.width,
            height: h.height,
            top_down: true,
            row_stride: (h.width * netpbm_bpp(b)) as usize,
            encoding: if b[1] == 0x36 { PixelEncoding::RgbDirect { bytes: 3 } } else { PixelEncoding::Grayscale },
        })
    } else {
        None
    }
}

/// What parsing a Netpbm file yields.
pub open spec fn spec_parse_netpbm(b: Seq<u8>) -> Result<ParsedView, ParseErrorView> {
    if !netpbm_detects(b) {
        Err(ParseErrorView::NotRecognized)
    } else {
        match netpbm_header(b) {
            Err(m) => Err(ParseErrorView::Malformed(m)),
            Ok(h) => Ok(ParsedView {
                format_name: "Netpbm"@,
                regions: netpbm_regions(b, h),
                fields: netpbm_fields(b, h),
                summary: netpbm_summary(b, h),
                palette: seq![],
                palette_info: None,
                pixel_info: netpbm_pixel_info(b, h),
            }),
        }
    }
}

/// A `#` outside a comment starts a comment that runs to the end of its
/// line: skipping filler from the `#` lands where skipping from just after
/// the line's `\n` does, so a comment line between header tokens changes no
/// token.
pub proof fn lemma_comment_runs_to_line_end(b: Seq<u8>, pos: int, e: int)
    requires
        0 <= pos < e < b.len(),
        b[pos] == 0x23,
        b[e] == 0x0A,
        forall|j: int| pos < j < e ==> #[trigger] b[j] != 0x0A,
    ensures
        skip_filler(b, pos, false) == skip_filler(b, e + 1, false),
        skip_filler(b, pos, false) > e,
{
    lemma_comment_tail(b, pos + 1, e);
    lemma_skip_filler_bounds(b, e + 1, false);
}

/// Inside a comment, skipping runs on past the line's `\n`.
proof fn lemma_comment_tail(b: Seq<u8>, j: int, e: int)
    requires
        0 <= j <= e < b.len(),
        b[e] == 0x0A,
        forall|k: int| j <= k < e ==> #[trigger] b[k] != 0x0A,
    ensures
        skip_filler(b, j, true) == skip_filler(b, e + 1, false),
    decreases e - j,
{
    if j < e {
        lemma_comment_tail(b, j + 1, e);
    }
}

/// Whether `c` is ASCII whitespace.
fn ascii_ws(c: u8) -> (r: bool)
    ensures
        r == is_ascii_ws(c),
{
    c == 0x20 || c == 0x09 || c == 0x0A || c == 0x0C || c == 0x0D
}

proof fn lemma_skip_filler_bounds(b: Seq<u8>, pos: int, c: bool)
    requires
        0 <= pos <= b.len(),
    ensures
        pos <= skip_filler(b, pos, c) <= b.len(),
        skip_filler(b, pos, c) < b.len() ==> !is_ascii_ws(b[skip_filler(b, pos, c)]),
    decreases b.len() - pos,
{
    if pos < b.len() {
        if c {
            lemma_skip_filler_bounds(b, pos + 1, b[pos] != 0x0A);
        } else if is_ascii_ws(b[pos]) || b[pos] == 0x23 {
            lemma_skip_filler_bounds(b, pos + 1, b[pos] == 0x23);
        }
    }
}

proof fn lemma_token_end_bounds(b: Seq<u8>, s: int)
    requires
        0 <= s <= b.len(),
    ensures
        s <= token_end(b, s) <= b.len(),
        forall|i: int| s <= i < token_end(b, s) ==> !is_ascii_ws(#[trigger] b[i]),
    decreases b.len() - s,
{
    if s < b.len() && !is_ascii_ws(b[s]) {
        lemma_token_end_bounds(b, s + 1);
    }
}

/// Every byte of a parsed Netpbm file lies in exactly one region: the header,
/// the raster and any trailing data are non-empty, sorted, disjoint and
/// together cover the file.
pub proof fn lemma_netpbm_regions_partition(b: Seq<u8>)
    requires
        spec_parse_netpbm(b) is Ok,
    ensures
        spec_parse_netpbm(b) matches Ok(v) && partitions(v.regions, b.len()),
{
    let h = netpbm_header(b)->Ok_0;
    lemma_skip_filler_bounds(b, 2, false);
    lemma_token_end_bounds(b, h.ws);
    lemma_skip_filler_bounds(b, h.we, false);
    lemma_token_end_bounds(b, h.hs);
    lemma_skip_filler_bounds(b, h.he, false);
    lemma_token_end_bounds(b, h.ms);
    let ds = netpbm_data_start(b, h);
    let de = netpbm_data_end(b, h);
    assert(1 <= ds <= b.len());
    assert(h.width * netpbm_bpp(b) * h.height >= 0) by (nonlinear_arith)
        requires netpbm_bpp(b) >= 1;
    assert(ds <= de <= b.len());
    let header = seq![rv(0, ds, RegionKind::InfoHeader, "Netpbm header"@)];
    let empty: Seq<RegionView> = seq![];
    lemma_partitions_push(empty, 0, header[0]);
    assert(empty.push(header[0]) =~= header);
    let pixels = rv(ds, de, RegionKind::PixelData, "Pixel data"@);
    let with_pixels = if de > ds { header.push(pixels) } else { header };
    if de > ds {
        lemma_partitions_push(header, ds as nat, pixels);
    }
    if de < b.len() {
        lemma_partitions_push(with_pixels, de as nat, rv(de, b.len() as int, RegionKind::Unknown, "Trailing data"@));
    }
}

/// The fields of a parsed Netpbm file (magic number, width, height, maxval)
/// are sorted by start and pairwise disjoint.
pub proof fn lemma_netpbm_fields_disjoint(b: Seq<u8>)
    requires
        spec_parse_netpbm(b) is Ok,
    ensures
        spec_parse_netpbm(b) matches Ok(v) && fields_disjoint(v.fields),
{
    let h = netpbm_header(b)->Ok_0;
    lemma_skip_filler_bounds(b, 2, false);
    lemma_token_end_bounds(b, h.ws);
    lemma_skip_filler_bounds(b, h.we, false);
    lemma_token_end_bounds(b, h.hs);
    lemma_skip_filler_bounds(b, h.he, false);
    lemma_token_end_bounds(b, h.ms);
    assert(fields_disjoint(netpbm_fields(b, h)));
}

/// Scan the next whitespace-separated header token (skipping `#` comments)
/// starting at `pos`. Returns the token's span.
fn next_token(bytes: &[u8], pos: usize) -> (r: Option<(usize, usize)>)
    requires
        pos <= bytes.len(),
    ensures
        r matches Some((s, e)) ==> next_token_span(bytes@, pos as int) == Some((s as int, e as int)) && s < e <= bytes.len(),
        r is None ==> next_token_span(bytes@, pos as int) is None,
{
    let n = bytes.len();
    let mut p = pos;
    let mut in_comment = false;
    proof { lemma_skip_filler_bounds(bytes@, pos as int, false); }
    while p < n && (in_comment || ascii_ws(bytes[p]) || bytes[p] == 0x23)
        invariant
            pos <= p <= n,
            n == bytes.len(),
            skip_filler(bytes@, pos as int, false) == skip_filler(bytes@, p as int, in_comment),
        decreases n - p,
    {
        if in_comment {
            in_comment = bytes[p] != 0x0A;
        } else {
            in_comment = bytes[p] == 0x23;
        }
        p = p + 1;
    }
    if p >= n {
        return None;
    }
    let start = p;
    while p < n && !ascii_ws(bytes[p])
        invariant
            start <= p <= n,
            n == bytes.len(),
            token_end(bytes@, start as int) == token_end(bytes@, p as int),
        decreases n - p,
    {
        p = p + 1;
    }
    Some((start, p))
}

proof fn lemma_digits_value_prefix(d: Seq<u8>, k: int)
    requires
        0 <= k <= d.len(),
        forall|i: int| 0 <= i < d.len() ==> is_digit(#[trigger] d[i]),
    ensures
        digits_value(d.subrange(0, k)) <= digits_value(d),
    decreases d.len() - k,
{
    if k < d.len() {
        lemma_digits_value_prefix(d.drop_last(), k);
        assert(d.drop_last().subrange(0, k) =~= d.subrange(0, k));
        if k == d.len() - 1 {
            assert(d.subrange(0, k) =~= d.drop_last());
        }
    } else {
        assert(d.subrange(0, k) =~= d);
    }
}

/// The `u32` spelled by `bytes[s..e]`, as `str::parse::<u32>` reads it.
fn parse_u32_at(bytes: &[u8], s: usize, e: usize) -> (r: Option<u32>)
    requires
        s <= e <= bytes.len(),
    ensures
        r == parse_u32(bytes@.subrange(s as int, e as int)),
{
    let ghost t = bytes@.subrange(s as int, e as int);
    let mut i = s;
    if i < e && bytes[i] == 0x2B {
        i = i + 1;
    }
    let ghost d = bytes@.subrange(i as int, e as int);
    assert(d =~= unsigned_digits(t));
    if i == e {
        return None;
    }
    let start = i;
    if !all_digits(bytes, start, e) {
        proof {
            let k = choose|k: int| start <= k < e && !is_digit(#[trigger] bytes@[k]);
            assert(!is_digit(d[k - start]));
        }
        return None;
    }
    assert(forall|k: int| 0 <= k < d.len() ==> is_digit(#[trigger] d[k])) by {
        assert(forall|k: int| 0 <= k < d.len() ==> d[k] == bytes@[start + k]);
    }
    let mut v: u64 = 0;
    while i < e
        invariant
            start <= i <= e <= bytes.len(),
            d == bytes@.subrange(start as int, e as int),
            d == unsigned_digits(t),
            t == bytes@.subrange(s as int, e as int),
            v == digits_value(bytes@.subrange(start as int, i as int)),
            v <= u32::MAX,
            forall|k: int| start <= k < e ==> is_digit(#[trigger] bytes@[k]),
            forall|k: int| 0 <= k < d.len() ==> is_digit(#[trigger] d[k]),
        decreases e - i,
    {
        let c = bytes[i];
        proof {
            let next = bytes@.subrange(start as int, i + 1);
            assert(next.drop_last() =~= bytes@.subrange(start as int, i as int));
            assert(is_digit(bytes@[i as int]));
        }
        v = v * 10 + (c - 0x30) as u64;
        proof {
            let next = bytes@.subrange(start as int, i + 1);
            assert(next.last() == c);
            assert(v == digits_value(next));
        }
        i = i + 1;
        if v > 0xffff_ffff {
            proof {
                lemma_digits_value_prefix(d, i - start);
                assert(d.subrange(0, i - start) =~= bytes@.subrange(start as int, i as int));
                assert(digits_value(d) > u32::MAX);
                assert(all_digit_seq(d));
                assert(unsigned_digits(t) == d);
            }
            return None;
        }
    }
    assert(d =~= bytes@.subrange(start as int, e as int));
    Some(v as u32)
}

/// Whether `bytes[s..e]` is all decimal digits.
fn all_digits(bytes: &[u8], s: usize, e: usize) -> (r: bool)
    requires
        s <= e <= bytes.len(),
    ensures
        r == forall|k: int| s <= k < e ==> is_digit(#[trigger] bytes@[k]),
{
    let mut i = s;
    while i < e
        invariant
            s <= i <= e <= bytes.len(),
            forall|k: int| s <= k < i ==> is_digit(#[trigger] bytes@[k]),
        decreases e - i,
    {
        if bytes[i] < 0x30 || bytes[i] > 0x39 {
            return false;
        }
        i = i + 1;
    }
    true
}


/// A field with the given span and texts.
pub(crate) fn make_field(start: usize, end: usize, name: &str, value: String, description: &str) -> (f: Field)
    ensures
        f@ == fv(start as int, end as int, name@, value@, description@),
{
    Field { start, end, name: String::from_str(name), value, description: String::from_str(description) }
}

/// A region with the given span, kind and name.
pub(crate) fn make_region(start: usize, end: usize, kind: RegionKind, name: &str) -> (r: Region)
    ensures
        r@ == rv(start as int, end as int, kind, name@),
{
    Region { start, end, kind, name: String::from_str(name) }
}

/// A summary line.
pub(crate) fn make_line(key: &str, value: String) -> (p: (String, String))
    ensures
        p.0@ == key@,
        p.1@ == value@,
{
    (String::from_str(key), value)
}

/// Whether the raster arithmetic of a Netpbm file fits in `usize`.
pub(crate) fn netpbm_fits_check(bytes: &[u8]) -> (r: bool)
    ensures
        r == netpbm_fits(bytes@),
{
    let ghost b = bytes@;
    let n = bytes.len();
    if !(n >= 2 && bytes[0] == 0x50 && (bytes[1] == 0x35 || bytes[1] == 0x36)) {
        return true;
    }
    let (ws, we) = match next_token(bytes, 2) { Some(t) => t, None => { return true; } };
    let (hs, he) = match next_token(bytes, we) { Some(t) => t, None => { return true; } };
    let (ms, me) = match next_token(bytes, he) { Some(t) => t, None => { return true; } };
    let width = match parse_u32_at(bytes, ws, we) { Some(v) => v, None => { return true; } };
    let height = match parse_u32_at(bytes, hs, he) { Some(v) => v, None => { return true; } };
    let maxval = match parse_u32_at(bytes, ms, me) { Some(v) => v, None => { return true; } };
    let ghost h = NetpbmHeader {
        ws: ws as int, we: we as int, hs: hs as int, he: he as int, ms: ms as int, me: me as int,
        width, height, maxval,
    };
    assert(netpbm_header(b) == Ok::<NetpbmHeader, Seq<char>>(h));
    let bpp: u128 = if bytes[1] == 0x36 { 3 } else { 1 };
    let data_start: u128 = if me < n - 1 { (me + 1) as u128 } else { n as u128 };
    let row: u128 = (width as u128) * bpp;
    assert(row * height <= 0x3_0000_0000 * 0x1_0000_0000) by (nonlinear_arith)
        requires row <= 0x3_0000_0000, height <= 0x1_0000_0000;
    let total: u128 = data_start + row * (height as u128);
    assert(h.width * netpbm_bpp(b) * h.height == row * height);
    row <= usize::MAX as u128 && total <= usize::MAX as u128
}

/// Parse a binary Netpbm file.
pub(crate) fn parse_netpbm(bytes: &[u8]) -> (r: Result<ParsedImage, ParseError>)
    requires
        netpbm_fits(bytes@),
    ensures
        r matches Ok(img) ==> spec_parse_netpbm(bytes@) == Ok::<ParsedView, ParseErrorView>(img@) && image_ok(img),
        r matches Err(e) ==> spec_parse_netpbm(bytes@) == Err::<ParsedView, ParseErrorView>(e@),
{
    let ghost b = bytes@;
    let n = bytes.len();
    if !(n >= 2 && bytes[0] == 0x50 && (bytes[1] == 0x35 || bytes[1] == 0x36)) {
        return Err(ParseError::NotRecognized);
    }
    let is_rgb = bytes[1] == 0x36;
    let (ws, we) = match next_token(bytes, 2) {
        Some(t) => t,
        None => { return Err(ParseError::Malformed(String::from_str("missing width"))); },
    };
    let (hs, he) = match next_token(bytes, we) {
        Some(t) => t,
        None => { return Err(ParseError::Malformed(String::from_str("missing height"))); },
    };
    let (ms, me) = match next_token(bytes, he) {
        Some(t) => t,
        None => { return Err(ParseError::Malformed(String::from_str("missing maxval"))); },
    };
    let width = match parse_u32_at(bytes, ws, we) {
        Some(v) => v,
        None => { return Err(ParseError::Malformed(String::from_str("bad width"))); },
    };
    let height = match parse_u32_at(bytes, hs, he) {
        Some(v) => v,
        None => { return Err(ParseError::Malformed(String::from_str("bad height"))); },
    };
    let maxval = match parse_u32_at(bytes, ms, me) {
        Some(v) => v,
        None => { return Err(ParseError::Malformed(String::from_str("bad maxval"))); },
    };
    let ghost h = NetpbmHeader {
        ws: ws as int, we: we as int, hs: hs as int, he: he as int, ms: ms as int, me: me as int,
        width, height, maxval,
    };
    assert(netpbm_header(b) == Ok::<NetpbmHeader, Seq<char>>(h));

    let mut fields: Vec<Field> = Vec::new();
    if is_rgb {
        fields.push(make_field(0, 2, "magic", String::from_str("P6"), "P6 — binary RGB (PPM)"));
    } else {
        fields.push(make_field(0, 2, "magic", String::from_str("P5"), "P5 — binary grayscale (PGM)"));
    }
    fields.push(make_field(ws, we, "width", dec_string(width as u128), "Image width in pixels."));
    fields.push(make_field(hs, he, "height", dec_string(height as u128), "Image height in pixels."));
    fields.push(make_field(ms, me, "maxval", dec_string(maxval as u128), "Maximum sample value (255 for 8-bit samples)."));
    assert(crate::field::fields_view(fields@) =~= netpbm_fields(b, h));

    // Exactly one whitespace byte separates the header from the raster.
    let data_start = if me < n - 1 { me + 1 } else { n };
    let mut regions: Vec<Region> = Vec::new();
    regions.push(make_region(0, data_start, RegionKind::InfoHeader, "Netpbm header"));

    let bytes_per_pixel: usize = if is_rgb { 3 } else { 1 };
    let row_stride = width as usize * bytes_per_pixel;
    let computed = row_stride * height as usize;
    let data_end = if data_start + computed < n { data_start + computed } else { n };
    if data_end > data_start {
        regions.push(make_region(data_start, data_end, RegionKind::PixelData, "Pixel data"));
    }
    if data_end < n {
        regions.push(make_region(data_end, n, RegionKind::Unknown, "Trailing data"));
    }
    assert(crate::region::regions_view(regions@) =~= netpbm_regions(b, h));

    // Only 8-bit samples map cleanly to one byte per channel.
    let pixel_info = if maxval > 0 && maxval <= 255 && width > 0 && height > 0 {
        Some(PixelInfo {
            data_start,
            width,
            height,
            top_down: true,
            row_stride,
            encoding: if is_rgb { PixelEncoding::RgbDirect { bytes: 3 } } else { PixelEncoding::Grayscale },
        })
    } else {
        None
    };

    let mut summary: Vec<(String, String)> = Vec::new();
    if is_rgb {
        summary.push(make_line("Format", String::from_str("Netpbm P6 (PPM, RGB)")));
    } else {
        summary.push(make_line("Format", String::from_str("Netpbm P5 (PGM, grayscale)")));
    }
    let mut dims = String::new();
    push_dec(&mut dims, width as u128);
    dims.append(" × ");
    push_dec(&mut dims, height as u128);
    dims.append(" px");
    summary.push(make_line("Dimensions", dims));
    summary.push(make_line("Max sample value", dec_string(maxval as u128)));
    summary.push(make_line("Row order", String::from_str("top-down")));
    summary.push(make_line("Pixel data offset", dec_string(data_start as u128)));
    let mut size = dec_string(n as u128);
    size.append(" bytes");
    summary.push(make_line("Actual file size", size));
    assert(crate::model::pairs_view(summary@) =~= netpbm_summary(b, h));

    let img = ParsedImage {
        format_name: String::from_str("Netpbm"),
        regions,
        fields,
        summary,
        palette: Vec::new(),
        palette_info: None,
        pixel_info,
    };
    assert(spec_parse_netpbm(b) matches Ok(v) && img@ =~= v);
    Ok(img)
}
impl crate::format::ImageFormat for NetpbmFormat {
    open spec fn format_name(&self) -> Seq<char> {
        "Netpbm"@
    }

    open spec fn recognizes(&self, bytes: Seq<u8>) -> bool {
        netpbm_detects(bytes)
    }

    open spec fn fits(&self, bytes: Seq<u8>) -> bool {
        netpbm_fits(bytes)
    }

    open spec fn parses_to(&self, bytes: Seq<u8>) -> Result<ParsedView, ParseErrorView> {
        spec_parse_netpbm(bytes)
    }

    fn name(&self) -> (s: &'static str) {
        "Netpbm"
    }

    fn detect(&self, bytes: &[u8]) -> (b: bool) {
        bytes.len() >= 2 && bytes[0] == 0x50 && (bytes[1] == 0x35 || bytes[1] == 0x36)
    }

    fn parse(&self, bytes: &[u8]) -> (r: Result<ParsedImage, ParseError>) {
        parse_netpbm(bytes)
    }
}

} // verus!
