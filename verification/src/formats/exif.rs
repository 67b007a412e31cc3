//! EXIF metadata: the TIFF structure inside an APP1 `Exif` segment.
//!
//! The TIFF block opens with a byte-order mark (`II` little-endian, `MM`
//! big-endian), the magic number 42 and the offset of the first image file
//! directory (IFD0). Every offset inside the block is relative to its start.

use vstd::prelude::*;
use crate::field::{fields_view, fv, Field, FieldView};
use crate::formats::netpbm::{make_field, make_line};
use crate::model::pairs_view;
use crate::text::{dec, dec_string, hex_digits, lossy_text, push_dec, push_hex, utf8_lossy};

verus! {

/// The headline tags of an EXIF block, as decoded values.
pub struct ExifTags {
    pub make: Option<String>,
    pub model: Option<String>,
    pub orientation: Option<u16>,
    pub datetime: Option<String>,
}

/// The mathematical content of the headline tags.
#[verifier::ext_equal]
pub struct TagsView {
    pub make: Option<Seq<char>>,
    pub model: Option<Seq<char>>,
    pub orientation: Option<u16>,
    pub datetime: Option<Seq<char>>,
}

/// The view of an optional string.
pub open spec fn opt_text(o: Option<String>) -> Option<Seq<char>> {
    match o {
        Some(s) => Some(s@),
        None => None,
    }
}

impl View for ExifTags {
    type V = TagsView;

    open spec fn view(&self) -> TagsView {
        TagsView {
            make: opt_text(self.make),
            model: opt_text(self.model),
            orientation: self.orientation,
            datetime: opt_text(self.datetime),
        }
    }
}

/// No headline tags.
pub open spec fn no_tags() -> TagsView {
    TagsView { make: None, model: None, orientation: None, datetime: None }
}

impl ExifTags {
    /// No headline tags.
    pub fn none() -> (t: Self)
        ensures
            t@ == no_tags(),
    {
        ExifTags { make: None, model: None, orientation: None, datetime: None }
    }
}

/// What an EXIF block decodes to: its fields and headline tags.
#[verifier::ext_equal]
pub struct ExifView {
    pub fields: Seq<FieldView>,
    pub tags: TagsView,
}

/// The byte order of a TIFF block: `Some(true)` little-endian, `Some(false)`
/// big-endian, `None` unknown.
pub open spec fn byte_order(t: Seq<u8>) -> Option<bool> {
    if t[0] == 0x49 && t[1] == 0x49 {
        Some(true)
    } else if t[0] == 0x4D && t[1] == 0x4D {
        Some(false)
    } else {
        None
    }
}

/// The `u16` at offset `o`, in the given byte order.
pub open spec fn rd16(t: Seq<u8>, o: int, le: bool) -> nat {
    if le { t[o] as nat + 256 * t[o + 1] as nat } else { 256 * t[o] as nat + t[o + 1] as nat }
}

/// The `u32` at offset `o`, in the given byte order.
pub open spec fn rd32(t: Seq<u8>, o: int, le: bool) -> nat {
    if le {
        rd16(t, o, true) + 65536 * rd16(t, o + 2, true)
    } else {
        65536 * rd16(t, o, false) + rd16(t, o + 2, false)
    }
}

/// The text of a byte-order mark.
pub open spec fn order_text(o: Option<bool>) -> Seq<char> {
    match o {
        Some(true) => "II (little-endian)"@,
        Some(false) => "MM (big-endian)"@,
        None => "unknown"@,
    }
}

/// The byte-order field of a TIFF block starting at file offset `tb`.
pub open spec fn order_field(t: Seq<u8>, tb: int) -> FieldView {
    fv(tb, tb + 2, "tiff_byte_order"@, order_text(byte_order(t)),
        "TIFF byte order: II = little-endian (Intel), MM = big-endian (Motorola)."@)
}

/// The magic-number and IFD0-offset fields of a TIFF block.
pub open spec fn header_fields(t: Seq<u8>, tb: int, le: bool) -> Seq<FieldView> {
    seq![
        fv(tb + 2, tb + 4, "tiff_magic"@, dec(rd16(t, 2, le)), "TIFF magic number (always 42)."@),
        fv(tb + 4, tb + 8, "ifd0_offset"@, dec(rd32(t, 4, le)),
            "Offset of the first image file directory, from the start of the TIFF header."@),
    ]
}

/// The name of a well-known TIFF/EXIF tag.
pub open spec fn known_tag(tag: nat) -> Option<Seq<char>> {
    if tag == 0x010E { Some("ImageDescription"@) }
    else if tag == 0x010F { Some("Make"@) }
    else if tag == 0x0110 { Some("Model"@) }
    else if tag == 0x0112 { Some("Orientation"@) }
    else if tag == 0x011A { Some("XResolution"@) }
    else if tag == 0x011B { Some("YResolution"@) }
    else if tag == 0x0128 { Some("ResolutionUnit"@) }
    else if tag == 0x0131 { Some("Software"@) }
    else if tag == 0x0132 { Some("DateTime"@) }
    else if tag == 0x013B { Some("Artist"@) }
    else if tag == 0x0213 { Some("YCbCrPositioning"@) }
    else if tag == 0x8298 { Some("Copyright"@) }
    else if tag == 0x8769 { Some("ExifIFD"@) }
    else if tag == 0x8825 { Some("GPSInfo"@) }
    else if tag == 0x829A { Some("ExposureTime"@) }
    else if tag == 0x829D { Some("FNumber"@) }
    else if tag == 0x8822 { Some("ExposureProgram"@) }
    else if tag == 0x8827 { Some("ISOSpeedRatings"@) }
    else if tag == 0x9000 { Some("ExifVersion"@) }
    else if tag == 0x9003 { Some("DateTimeOriginal"@) }
    else if tag == 0x9004 { Some("DateTimeDigitized"@) }
    else if tag == 0x920A { Some("FocalLength"@) }
    else if tag == 0xA002 { Some("PixelXDimension"@) }
    else if tag == 0xA003 { Some("PixelYDimension"@) }
    else { None }
}

/// The field name of a tag: its well-known name, else `tag 0x` and its number.
pub open spec fn tag_name(tag: nat) -> Seq<char> {
    match known_tag(tag) {
        Some(n) => n,
        None => "tag 0x"@ + hex_digits(tag, 4),
    }
}

/// Bytes per value of a TIFF field type; 0 for a type this decoder does not know.
pub open spec fn type_size(typ: nat) -> nat {
    if typ == 1 || typ == 2 || typ == 6 || typ == 7 { 1 }
    else if typ == 3 || typ == 8 { 2 }
    else if typ == 4 || typ == 9 || typ == 11 { 4 }
    else if typ == 5 || typ == 10 || typ == 12 { 8 }
    else { 0 }
}

/// The facts of the 12-byte IFD entry at TIFF offset `e`.
pub struct EntryView {
    pub tag: nat,
    pub typ: nat,
    pub count: nat,
    /// The four-byte value slot read as a `u32`: an offset when out of line.
    pub slot: nat,
    /// Bytes of value data.
    pub size: nat,
    /// Where the value data starts: the slot itself when it fits in four bytes.
    pub at: nat,
}

/// The entry at TIFF offset `e`.
pub open spec fn entry_at(t: Seq<u8>, le: bool, e: int) -> EntryView {
    let typ = rd16(t, e + 2, le);
    let count = rd32(t, e + 4, le);
    let slot = rd32(t, e + 8, le);
    let size = count * type_size(typ);
    EntryView { tag: rd16(t, e, le), typ, count, slot, size, at: if size <= 4 { (e + 8) as nat } else { slot } }
}

/// Whether an entry's data size is its count times its type's value size.
pub open spec fn entry_ok(x: EntryView) -> bool {
    x.size == x.count * type_size(x.typ)
}

/// The offset of the first zero byte of `s` at or after `j`, or its length.
pub open spec fn first_nul(s: Seq<u8>, j: int) -> int
    decreases s.len() - j,
{
    if j < 0 || j >= s.len() || s[j] == 0 { j } else { first_nul(s, j + 1) }
}

/// The text of an ASCII value: its bytes up to the first zero.
pub open spec fn ascii_text(data: Seq<u8>) -> Seq<char> {
    utf8_lossy(data.subrange(0, first_nul(data, 0)))
}

/// The decoded value of an entry whose data lies within the block.
pub open spec fn value_text(t: Seq<u8>, le: bool, x: EntryView) -> Seq<char> {
    let a = x.at as int;
    if x.at + x.size > t.len() {
        "(data out of range)"@
    } else if x.typ == 2 {
        ascii_text(t.subrange(a, a + x.size))
    } else if x.count == 1 && x.typ == 3 {
        dec(rd16(t, a, le))
    } else if x.count == 1 && x.typ == 4 {
        dec(rd32(t, a, le))
    } else if x.count == 1 && x.typ == 5 {
        dec(rd32(t, a, le)) + "/"@ + dec(rd32(t, a + 4, le))
    } else if x.count == 1 && (x.typ == 1 || x.typ == 7) {
        dec(t[a] as nat)
    } else {
        dec(x.count) + " values of type "@ + dec(x.typ)
    }
}

/// The fields one IFD0 entry at offset `e` contributes: its own, then the
/// EXIF sub-IFD's when it points there.
pub open spec fn ifd0_own(t: Seq<u8>, tb: int, le: bool, e: int) -> Seq<FieldView> {
    let x = entry_at(t, le, e);
    entry_fields(t, tb, le, e) + if is_exif_pointer(x) { sub_ifd(t, tb, le, x.slot) } else { seq![] }
}

/// The fields of the entry at TIFF offset `e` of a block at file offset `tb`:
/// the 12-byte entry, and its value data when stored out of line.
#[verifier::opaque]
pub open spec fn entry_fields(t: Seq<u8>, tb: int, le: bool, e: int) -> Seq<FieldView> {
    let x = entry_at(t, le, e);
    let value = value_text(t, le, x);
    let entry = fv(tb + e, tb + e + 12, tag_name(x.tag), value,
        "IFD entry: tag 0x"@ + hex_digits(x.tag, 4) + ", type "@ + dec(x.typ) + ", count "@ + dec(x.count) + "."@);
    if x.size > 4 && x.at + x.size <= t.len() {
        seq![entry, fv(tb + x.at, tb + x.at + x.size, tag_name(x.tag), value, "Out-of-line value data of this tag."@)]
    } else {
        seq![entry]
    }
}

/// How many entries of an IFD at offset `o` declaring `n` entries lie
/// wholly within the block.
pub open spec fn entries_present(t: Seq<u8>, o: int, n: nat) -> nat {
    let avail = (t.len() - o - 2) / 12;
    if n <= avail { n } else { avail as nat }
}

/// The fields of entries `k..m` of the IFD whose entries start at `e0`.
pub open spec fn plain_entries(t: Seq<u8>, tb: int, le: bool, e0: int, k: nat, m: nat) -> Seq<FieldView>
    decreases m - k,
{
    if k >= m { seq![] } else { entry_fields(t, tb, le, e0 + 12 * k) + plain_entries(t, tb, le, e0, k + 1, m) }
}

/// The field of an IFD's entry count.
pub open spec fn count_field(t: Seq<u8>, tb: int, le: bool, o: int, name: Seq<char>) -> FieldView {
    fv(tb + o, tb + o + 2, name, dec(rd16(t, o, le)), "Number of entries in this image file directory."@)
}

/// The fields of the EXIF sub-IFD at offset `o`; its pointers are not followed.
pub open spec fn sub_ifd(t: Seq<u8>, tb: int, le: bool, o: nat) -> Seq<FieldView> {
    if o + 2 > t.len() {
        seq![]
    } else {
        let m = entries_present(t, o as int, rd16(t, o as int, le));
        seq![count_field(t, tb, le, o as int, "exif_ifd_entries"@)] + plain_entries(t, tb, le, (o + 2) as int, 0, m)
    }
}

/// Whether an entry points to the EXIF sub-IFD.
pub open spec fn is_exif_pointer(x: EntryView) -> bool {
    x.tag == 0x8769 && x.typ == 4 && x.count == 1
}

/// The headline tags after reading entry `x`.
#[verifier::opaque]
pub open spec fn note_tag(tags: TagsView, t: Seq<u8>, le: bool, x: EntryView) -> TagsView {
    let in_range = x.at + x.size <= t.len();
    let a = x.at as int;
    if !in_range {
        tags
    } else if x.tag == 0x010F && x.typ == 2 {
        TagsView { make: Some(ascii_text(t.subrange(a, a + x.size))), ..tags }
    } else if x.tag == 0x0110 && x.typ == 2 {
        TagsView { model: Some(ascii_text(t.subrange(a, a + x.size))), ..tags }
    } else if x.tag == 0x0132 && x.typ == 2 {
        TagsView { datetime: Some(ascii_text(t.subrange(a, a + x.size))), ..tags }
    } else if x.tag == 0x0112 && x.typ == 3 && x.count == 1 {
        TagsView { orientation: Some(rd16(t, a, le) as u16), ..tags }
    } else {
        tags
    }
}

/// Entries `k..m` of IFD0, whose entries start at `e0`, read after the
/// headline tags `tags`: their fields, with the EXIF sub-IFD's after its
/// pointer, and the headline tags at the end.
pub open spec fn ifd0_entries(t: Seq<u8>, tb: int, le: bool, e0: int, k: nat, m: nat, tags: TagsView) -> ExifView
    decreases m - k,
{
    if k >= m {
        ExifView { fields: seq![], tags }
    } else {
        let e = e0 + 12 * k;
        let rest = ifd0_entries(t, tb, le, e0, k + 1, m, note_tag(tags, t, le, entry_at(t, le, e)));
        ExifView { fields: ifd0_own(t, tb, le, e) + rest.fields, tags: rest.tags }
    }
}

/// IFD0 at offset `o`.
pub open spec fn ifd0(t: Seq<u8>, tb: int, le: bool, o: nat) -> ExifView {
    if o + 2 > t.len() {
        ExifView { fields: seq![], tags: no_tags() }
    } else {
        let m = entries_present(t, o as int, rd16(t, o as int, le));
        let r = ifd0_entries(t, tb, le, (o + 2) as int, 0, m, no_tags());
        ExifView { fields: seq![count_field(t, tb, le, o as int, "ifd0_entries"@)] + r.fields, tags: r.tags }
    }
}

/// What a TIFF block starting at file offset `tb` decodes to: its header,
/// IFD0, and the EXIF sub-IFD that IFD0 points to.
pub open spec fn exif_decode(t: Seq<u8>, tb: int) -> ExifView {
    if t.len() < 8 {
        ExifView { fields: seq![], tags: no_tags() }
    } else {
        match byte_order(t) {
            None => ExifView { fields: seq![order_field(t, tb)], tags: no_tags() },
            Some(le) => {
                let d = ifd0(t, tb, le, rd32(t, 4, le));
                ExifView { fields: seq![order_field(t, tb)] + header_fields(t, tb, le) + d.fields, tags: d.tags }
            },
        }
    }
}

fn known_tag_name(tag: u16) -> (r: Option<&'static str>)
    ensures
        match r {
            Some(s) => known_tag(tag as nat) == Some(s@),
            None => known_tag(tag as nat) is None,
        },
{
    if tag == 0x010E { Some("ImageDescription") }
    else if tag == 0x010F { Some("Make") }
    else if tag == 0x0110 { Some("Model") }
    else if tag == 0x0112 { Some("Orientation") }
    else if tag == 0x011A { Some("XResolution") }
    else if tag == 0x011B { Some("YResolution") }
    else if tag == 0x0128 { Some("ResolutionUnit") }
    else if tag == 0x0131 { Some("Software") }
    else if tag == 0x0132 { Some("DateTime") }
    else if tag == 0x013B { Some("Artist") }
    else if tag == 0x0213 { Some("YCbCrPositioning") }
    else if tag == 0x8298 { Some("Copyright") }
    else if tag == 0x8769 { Some("ExifIFD") }
    else if tag == 0x8825 { Some("GPSInfo") }
    else if tag == 0x829A { Some("ExposureTime") }
    else if tag == 0x829D { Some("FNumber") }
    else if tag == 0x8822 { Some("ExposureProgram") }
    else if tag == 0x8827 { Some("ISOSpeedRatings") }
    else if tag == 0x9000 { Some("ExifVersion") }
    else if tag == 0x9003 { Some("DateTimeOriginal") }
    else if tag == 0x9004 { Some("DateTimeDigitized") }
    else if tag == 0x920A { Some("FocalLength") }
    else if tag == 0xA002 { Some("PixelXDimension") }
    else if tag == 0xA003 { Some("PixelYDimension") }
    else { None }
}

fn tag_name_string(tag: u16) -> (s: String)
    ensures
        s@ == tag_name(tag as nat),
{
    match known_tag_name(tag) {
        Some(n) => String::from_str(n),
        None => {
            let mut s = String::new();
            s.append("tag 0x");
            push_hex(&mut s, tag as u128, 4);
            assert(s@ =~= tag_name(tag as nat));
            s
        },
    }
}

fn type_size_of(typ: u16) -> (n: u64)
    ensures
        n == type_size(typ as nat),
{
    if typ == 1 || typ == 2 || typ == 6 || typ == 7 { 1 }
    else if typ == 3 || typ == 8 { 2 }
    else if typ == 4 || typ == 9 || typ == 11 { 4 }
    else if typ == 5 || typ == 10 || typ == 12 { 8 }
    else { 0 }
}

fn rd16_at(t: &[u8], o: usize, le: bool) -> (v: u16)
    requires
        o + 2 <= t.len(),
    ensures
        v == rd16(t@, o as int, le),
{
    if le { (t[o] as u16) + 256 * (t[o + 1] as u16) } else { 256 * (t[o] as u16) + (t[o + 1] as u16) }
}

fn rd32_at(t: &[u8], o: usize, le: bool) -> (v: u32)
    requires
        o + 4 <= t.len(),
    ensures
        v == rd32(t@, o as int, le),
{
    let a = rd16_at(t, o, le) as u32;
    let b = rd16_at(t, o + 2, le) as u32;
    if le { a + 65536 * b } else { 65536 * a + b }
}

/// An IFD entry as read from the block.
struct Entry {
    tag: u16,
    typ: u16,
    count: u32,
    slot: u32,
    size: u64,
    at: u64,
}

impl View for Entry {
    type V = EntryView;

    closed spec fn view(&self) -> EntryView {
        EntryView {
            tag: self.tag as nat,
            typ: self.typ as nat,
            count: self.count as nat,
            slot: self.slot as nat,
            size: self.size as nat,
            at: self.at as nat,
        }
    }
}

fn read_entry(t: &[u8], le: bool, e: usize) -> (x: Entry)
    requires
        e + 12 <= t.len(),
    ensures
        x@ == entry_at(t@, le, e as int),
        entry_ok(x@),
{
    let tag = rd16_at(t, e, le);
    let typ = rd16_at(t, e + 2, le);
    let count = rd32_at(t, e + 4, le);
    let slot = rd32_at(t, e + 8, le);
    let unit = type_size_of(typ);
    assert(count * unit <= 0xFFFF_FFFF * 8) by (nonlinear_arith)
        requires count <= 0xFFFF_FFFF, unit <= 8;
    let size = (count as u64) * unit;
    let at: u64 = if size <= 4 { (e + 8) as u64 } else { slot as u64 };
    let x = Entry { tag, typ, count, slot, size, at };
    assert(x@ == entry_at(t@, le, e as int));
    x
}

/// The text of the ASCII value `t[a .. a + size]`: its bytes up to the first zero.
fn ascii_string(t: &[u8], a: usize, size: usize) -> (s: String)
    requires
        a + size <= t.len(),
    ensures
        s@ == ascii_text(t@.subrange(a as int, a + size)),
{
    let ghost data = t@.subrange(a as int, a + size);
    let mut j: usize = 0;
    while j < size && t[a + j] != 0
        invariant
            j <= size,
            a + size <= t.len(),
            data == t@.subrange(a as int, a + size),
            first_nul(data, j as int) == first_nul(data, 0),
        decreases size - j,
    {
        assert(data[j as int] == t@[a + j]);
        j = j + 1;
    }
    if j < size {
        assert(data[j as int] == t@[a + j]);
    }
    assert(first_nul(data, j as int) == j);
    let text = lossy_text(&t[a..a + j]);
    assert(t@.subrange(a as int, a + j) =~= data.subrange(0, j as int));
    text
}

/// The decoded value of an entry.
fn value_string(t: &[u8], le: bool, x: &Entry) -> (s: String)
    requires
        entry_ok(x@),
    ensures
        s@ == value_text(t@, le, x@),
{
    if x.at > t.len() as u64 || x.size > t.len() as u64 - x.at {
        return String::from_str("(data out of range)");
    }
    let a = x.at as usize;
    let size = x.size as usize;
    if x.count == 1 {
        assert(x.size == type_size(x.typ as nat)) by (nonlinear_arith)
            requires x.count == 1, x.size == x.count * type_size(x.typ as nat);
    }
    if x.typ == 2 {
        ascii_string(t, a, size)
    } else if x.count == 1 && x.typ == 3 {
        dec_string(rd16_at(t, a, le) as u128)
    } else if x.count == 1 && x.typ == 4 {
        dec_string(rd32_at(t, a, le) as u128)
    } else if x.count == 1 && x.typ == 5 {
        let mut s = dec_string(rd32_at(t, a, le) as u128);
        s.append("/");
        push_dec(&mut s, rd32_at(t, a + 4, le) as u128);
        assert(s@ =~= value_text(t@, le, x@));
        s
    } else if x.count == 1 && (x.typ == 1 || x.typ == 7) {
        dec_string(t[a] as u128)
    } else {
        let mut s = dec_string(x.count as u128);
        s.append(" values of type ");
        push_dec(&mut s, x.typ as u128);
        assert(s@ =~= value_text(t@, le, x@));
        s
    }
}

/// The fields of the entry at TIFF offset `e`.
fn entry_field_list(t: &[u8], base: usize, le: bool, e: usize) -> (out: (Vec<Field>, Entry))
    requires
        e + 12 <= t.len(),
        base + t.len() <= usize::MAX,
    ensures
        fields_view(out.0@) == entry_fields(t@, base as int, le, e as int),
        out.1@ == entry_at(t@, le, e as int),
        entry_ok(out.1@),
{
    let x = read_entry(t, le, e);
    let value = value_string(t, le, &x);
    let mut desc = String::new();
    desc.append("IFD entry: tag 0x");
    push_hex(&mut desc, x.tag as u128, 4);
    desc.append(", type ");
    push_dec(&mut desc, x.typ as u128);
    desc.append(", count ");
    push_dec(&mut desc, x.count as u128);
    desc.append(".");
    let mut out: Vec<Field> = Vec::new();
    out.push(Field { start: base + e, end: base + e + 12, name: tag_name_string(x.tag), value: value.clone(), description: desc });
    if x.size > 4 && x.at <= t.len() as u64 && x.size <= t.len() as u64 - x.at {
        let a = x.at as usize;
        let size = x.size as usize;
        out.push(Field { start: base + a, end: base + a + size, name: tag_name_string(x.tag), value,
            description: String::from_str("Out-of-line value data of this tag.") });
    }
    assert(fields_view(out@) =~= entry_fields(t@, base as int, le, e as int)) by {
        reveal(entry_fields);
    }
    (out, x)
}

/// Append the fields of one field list to another.
fn append_fields(out: &mut Vec<Field>, more: Vec<Field>)
    ensures
        fields_view(final(out)@) == fields_view(old(out)@) + fields_view(more@),
{
    let mut more = more;
    let ghost m = more@;
    out.append(&mut more);
    assert(fields_view(final(out)@) =~= fields_view(old(out)@) + fields_view(m));
}

/// The entry count of the IFD at `o`, and how many of its entries lie wholly
/// within the block.
fn present(t: &[u8], le: bool, o: usize) -> (r: (u16, usize))
    requires
        o + 2 <= t.len(),
    ensures
        r.0 == rd16(t@, o as int, le),
        r.1 == entries_present(t@, o as int, r.0 as nat),
        o + 2 + 12 * r.1 <= t.len(),
{
    let n = rd16_at(t, o, le);
    let avail = (t.len() - o - 2) / 12;
    let m: usize = if (n as usize) <= avail { n as usize } else { avail };
    (n, m)
}

/// The fields of the EXIF sub-IFD at offset `o`.
fn sub_ifd_fields(t: &[u8], base: usize, le: bool, o: u64) -> (out: Vec<Field>)
    requires
        base + t.len() <= usize::MAX,
    ensures
        fields_view(out@) == sub_ifd(t@, base as int, le, o as nat),
{
    let mut out: Vec<Field> = Vec::new();
    if o > t.len() as u64 || 2 > t.len() as u64 - o {
        assert(fields_view(out@) =~= sub_ifd(t@, base as int, le, o as nat));
        return out;
    }
    let ou = o as usize;
    let (n, m) = present(t, le, ou);
    out.push(make_field(base + ou, base + ou + 2, "exif_ifd_entries", dec_string(n as u128),
        "Number of entries in this image file directory."));
    let ghost head = fields_view(out@);
    let e0 = ou + 2;
    let mut k: usize = 0;
    while k < m
        invariant
            k <= m,
            e0 + 12 * m <= t.len(),
            base + t.len() <= usize::MAX,
            fields_view(out@) + plain_entries(t@, base as int, le, e0 as int, k as nat, m as nat)
                == head + plain_entries(t@, base as int, le, e0 as int, 0, m as nat),
        decreases m - k,
    {
        let (f, _x) = entry_field_list(t, base, le, e0 + 12 * k);
        let ghost before = fields_view(out@);
        append_fields(&mut out, f);
        assert(fields_view(out@) + plain_entries(t@, base as int, le, e0 as int, (k + 1) as nat, m as nat)
            =~= before + plain_entries(t@, base as int, le, e0 as int, k as nat, m as nat));
        k = k + 1;
    }
    assert(fields_view(out@) =~= sub_ifd(t@, base as int, le, o as nat));
    out
}

/// Note a headline tag read from entry `x`.
fn note_entry(tags: &mut ExifTags, t: &[u8], le: bool, x: &Entry)
    requires
        entry_ok(x@),
    ensures
        final(tags)@ == note_tag(old(tags)@, t@, le, x@),
{
    if x.at > t.len() as u64 || x.size > t.len() as u64 - x.at {
        assert(tags@ == note_tag(old(tags)@, t@, le, x@)) by {
            reveal(note_tag);
        }
        return;
    }
    let a = x.at as usize;
    let size = x.size as usize;
    if x.count == 1 {
        assert(x.size == type_size(x.typ as nat)) by (nonlinear_arith)
            requires x.count == 1, x.size == x.count * type_size(x.typ as nat);
    }
    if x.tag == 0x010F && x.typ == 2 {
        tags.make = Some(ascii_string(t, a, size));
    } else if x.tag == 0x0110 && x.typ == 2 {
        tags.model = Some(ascii_string(t, a, size));
    } else if x.tag == 0x0132 && x.typ == 2 {
        tags.datetime = Some(ascii_string(t, a, size));
    } else if x.tag == 0x0112 && x.typ == 3 && x.count == 1 {
        tags.orientation = Some(rd16_at(t, a, le));
    }
    assert(tags@ =~= note_tag(old(tags)@, t@, le, x@)) by {
        reveal(note_tag);
    }
}

/// Read the IFD0 entry at offset `e`.
fn ifd0_step(t: &[u8], base: usize, le: bool, e: usize, out: &mut Vec<Field>, tags: &mut ExifTags)
    requires
        e + 12 <= t.len(),
        base + t.len() <= usize::MAX,
    ensures
        fields_view(final(out)@) == fields_view(old(out)@) + ifd0_own(t@, base as int, le, e as int),
        final(tags)@ == note_tag(old(tags)@, t@, le, entry_at(t@, le, e as int)),
{
    let (f, x) = entry_field_list(t, base, le, e);
    append_fields(out, f);
    let ghost mid = fields_view(out@);
    if x.tag == 0x8769 && x.typ == 4 && x.count == 1 {
        let sub = sub_ifd_fields(t, base, le, x.slot as u64);
        append_fields(out, sub);
    }
    note_entry(tags, t, le, &x);
    assert(fields_view(out@) =~= fields_view(old(out)@) + ifd0_own(t@, base as int, le, e as int));
}

/// IFD0 at offset `o`: its fields, the sub-IFD's, and the headline tags.
fn ifd0_fields(t: &[u8], base: usize, le: bool, o: u64) -> (r: (Vec<Field>, ExifTags))
    requires
        base + t.len() <= usize::MAX,
    ensures
        fields_view(r.0@) == ifd0(t@, base as int, le, o as nat).fields,
        r.1@ == ifd0(t@, base as int, le, o as nat).tags,
{
    let mut out: Vec<Field> = Vec::new();
    let mut tags = ExifTags::none();
    if o > t.len() as u64 || 2 > t.len() as u64 - o {
        assert(fields_view(out@) =~= ifd0(t@, base as int, le, o as nat).fields);
        return (out, tags);
    }
    let ou = o as usize;
    let (n, m) = present(t, le, ou);
    out.push(make_field(base + ou, base + ou + 2, "ifd0_entries", dec_string(n as u128),
        "Number of entries in this image file directory."));
    let ghost head = fields_view(out@);
    let ghost total = ifd0_entries(t@, base as int, le, (ou + 2) as int, 0, m as nat, no_tags());
    let e0 = ou + 2;
    let mut k: usize = 0;
    while k < m
        invariant
            k <= m,
            e0 == ou + 2,
            e0 + 12 * m <= t.len(),
            base + t.len() <= usize::MAX,
            total == ifd0_entries(t@, base as int, le, e0 as int, 0, m as nat, no_tags()),
            fields_view(out@) + ifd0_entries(t@, base as int, le, e0 as int, k as nat, m as nat, tags@).fields
                == head + total.fields,
            ifd0_entries(t@, base as int, le, e0 as int, k as nat, m as nat, tags@).tags == total.tags,
        decreases m - k,
    {
        let ghost before = fields_view(out@);
        let ghost tags0 = tags@;
        ifd0_step(t, base, le, e0 + 12 * k, &mut out, &mut tags);
        assert(fields_view(out@) + ifd0_entries(t@, base as int, le, e0 as int, (k + 1) as nat, m as nat, tags@).fields
            =~= before + ifd0_entries(t@, base as int, le, e0 as int, k as nat, m as nat, tags0).fields);
        k = k + 1;
    }
    assert(fields_view(out@) =~= ifd0(t@, base as int, le, o as nat).fields);
    (out, tags)
}

/// Decode a TIFF block that starts at file offset `base`.
pub(crate) fn decode_exif(t: &[u8], base: usize) -> (r: (Vec<Field>, ExifTags))
    requires
        base + t.len() <= usize::MAX,
    ensures
        fields_view(r.0@) == exif_decode(t@, base as int).fields,
        r.1@ == exif_decode(t@, base as int).tags,
{
    let mut out: Vec<Field> = Vec::new();
    if t.len() < 8 {
        assert(fields_view(out@) =~= seq![]);
        return (out, ExifTags::none());
    }
    let le = t[0] == 0x49 && t[1] == 0x49;
    let be = t[0] == 0x4D && t[1] == 0x4D;
    let order = if le { "II (little-endian)" } else if be { "MM (big-endian)" } else { "unknown" };
    out.push(make_field(base, base + 2, "tiff_byte_order", String::from_str(order),
        "TIFF byte order: II = little-endian (Intel), MM = big-endian (Motorola)."));
    if !le && !be {
        assert(fields_view(out@) =~= exif_decode(t@, base as int).fields);
        return (out, ExifTags::none());
    }
    out.push(make_field(base + 2, base + 4, "tiff_magic", dec_string(rd16_at(t, 2, le) as u128),
        "TIFF magic number (always 42)."));
    let ifd0_off = rd32_at(t, 4, le);
    out.push(make_field(base + 4, base + 8, "ifd0_offset", dec_string(ifd0_off as u128),
        "Offset of the first image file directory, from the start of the TIFF header."));
    let ghost head = fields_view(out@);
    let (f, tags) = ifd0_fields(t, base, le, ifd0_off as u64);
    append_fields(&mut out, f);
    assert(fields_view(out@) =~= exif_decode(t@, base as int).fields);
    (out, tags)
}

// --- Summary lines --------------------------------------------------------------

/// The meaning of an EXIF orientation value, when it is one of the eight
/// defined ones.
pub open spec fn orientation_name(o: u16) -> Option<Seq<char>> {
    if o == 1 { Some("normal"@) }
    else if o == 2 { Some("mirrored horizontally"@) }
    else if o == 3 { Some("rotated 180°"@) }
    else if o == 4 { Some("mirrored vertically"@) }
    else if o == 5 { Some("mirrored horizontally, rotated 270° CW"@) }
    else if o == 6 { Some("rotated 90° CW"@) }
    else if o == 7 { Some("mirrored horizontally, rotated 90° CW"@) }
    else if o == 8 { Some("rotated 270° CW"@) }
    else { None }
}

/// The summary text of an orientation value: the number, then its meaning.
pub open spec fn orientation_text(o: u16) -> Seq<char> {
    match orientation_name(o) {
        Some(n) => dec(o as nat) + " ("@ + n + ")"@,
        None => dec(o as nat),
    }
}

/// The summary lines of the headline tags.
pub open spec fn tag_lines(t: TagsView) -> Seq<(Seq<char>, Seq<char>)> {
    let s0: Seq<(Seq<char>, Seq<char>)> = seq![];
    let s1 = match t.make { Some(v) => s0.push(("Camera make"@, v)), None => s0 };
    let s2 = match t.model { Some(v) => s1.push(("Camera model"@, v)), None => s1 };
    let s3 = match t.orientation { Some(o) => s2.push(("Orientation"@, orientation_text(o))), None => s2 };
    match t.datetime { Some(v) => s3.push(("DateTime"@, v)), None => s3 }
}

fn orientation_meaning(o: u16) -> (r: Option<&'static str>)
    ensures
        match r {
            Some(s) => orientation_name(o) == Some(s@),
            None => orientation_name(o) is None,
        },
{
    if o == 1 { Some("normal") }
    else if o == 2 { Some("mirrored horizontally") }
    else if o == 3 { Some("rotated 180°") }
    else if o == 4 { Some("mirrored vertically") }
    else if o == 5 { Some("mirrored horizontally, rotated 270° CW") }
    else if o == 6 { Some("rotated 90° CW") }
    else if o == 7 { Some("mirrored horizontally, rotated 90° CW") }
    else if o == 8 { Some("rotated 270° CW") }
    else { None }
}

fn orientation_string(o: u16) -> (s: String)
    ensures
        s@ == orientation_text(o),
{
    let mut s = String::new();
    push_dec(&mut s, o as u128);
    match orientation_meaning(o) {
        Some(n) => {
            s.append(" (");
            s.append(n);
            s.append(")");
        },
        None => {},
    }
    assert(s@ =~= orientation_text(o));
    s
}

/// Append the summary lines of the headline tags.
pub(crate) fn push_tag_lines(t: &ExifTags, out: &mut Vec<(String, String)>)
    ensures
        pairs_view(final(out)@) == pairs_view(old(out)@) + tag_lines(t@),
{
    let ghost start = pairs_view(out@);
    match &t.make {
        Some(v) => { out.push(make_line("Camera make", v.clone())); },
        None => {},
    }
    let ghost a = pairs_view(out@);
    match &t.model {
        Some(v) => { out.push(make_line("Camera model", v.clone())); },
        None => {},
    }
    let ghost b = pairs_view(out@);
    match t.orientation {
        Some(o) => { out.push(make_line("Orientation", orientation_string(o))); },
        None => {},
    }
    let ghost c = pairs_view(out@);
    match &t.datetime {
        Some(v) => { out.push(make_line("DateTime", v.clone())); },
        None => {},
    }
    proof {
        let tv = t@;
        let s0: Seq<(Seq<char>, Seq<char>)> = seq![];
        let s1 = match tv.make { Some(v) => s0.push(("Camera make"@, v)), None => s0 };
        let s2 = match tv.model { Some(v) => s1.push(("Camera model"@, v)), None => s1 };
        let s3 = match tv.orientation { Some(o) => s2.push(("Orientation"@, orientation_text(o))), None => s2 };
        assert(a =~= start + s1);
        assert(b =~= start + s2);
        assert(c =~= start + s3);
        assert(pairs_view(out@) =~= start + tag_lines(tv));
    }
}

} // verus!
