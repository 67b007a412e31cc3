//! Coarse, colored byte regions used to tint the hex view.
//!
//! A [`Region`] spans a half-open byte range `[start, end)` and carries a
//! [`RegionKind`] that decides its highlight color and legend label. Every
//! format maps its structure onto this shared vocabulary.

use vstd::prelude::*;
use crate::color::Rgba;

verus! {

/// The semantic category of a region.
#[derive(Clone, Copy, PartialEq, Eq, Debug, Hash, Structural)]
pub enum RegionKind {
    /// A fixed file header / magic-number block.
    FileHeader,
    /// A header describing dimensions, depth, compression and the like.
    InfoHeader,
    /// Bit-field masks or other auxiliary header extensions.
    ColorMasks,
    /// A color table.
    Palette,
    /// Metadata segments that carry no pixel data.
    Metadata,
    /// Coding tables that parameterize compression.
    Table,
    /// The raw pixel / sample data, or an entropy-coded stream.
    PixelData,
    /// Bytes of the file that belong to no structure (padding).
    Gap,
    /// Bytes the parser could not account for.
    Unknown,
}

/// The legend label of a region kind.
pub open spec fn kind_label(k: RegionKind) -> Seq<char> {
    match k {
        RegionKind::FileHeader => "File header"@,
        RegionKind::InfoHeader => "Info header"@,
        RegionKind::ColorMasks => "Color masks"@,
        RegionKind::Palette => "Palette"@,
        RegionKind::Metadata => "Metadata"@,
        RegionKind::Table => "Coding tables"@,
        RegionKind::PixelData => "Pixel data"@,
        RegionKind::Gap => "Gap / padding"@,
        RegionKind::Unknown => "Unknown"@,
    }
}

/// The highlight color of a region kind.
pub open spec fn kind_color(k: RegionKind) -> Rgba {
    match k {
        RegionKind::FileHeader => Rgba { r: 0x8E, g: 0xC0, b: 0x7C, a: 255 },
        RegionKind::InfoHeader => Rgba { r: 0x7C, g: 0xA7, b: 0xC0, a: 255 },
        RegionKind::ColorMasks => Rgba { r: 0xC0, g: 0xA7, b: 0x7C, a: 255 },
        RegionKind::Palette => Rgba { r: 0xC0, g: 0x7C, b: 0xB8, a: 255 },
        RegionKind::Metadata => Rgba { r: 0xB0, g: 0x8C, b: 0xC8, a: 255 },
        RegionKind::Table => Rgba { r: 0x6C, g: 0xC0, b: 0xB4, a: 255 },
        RegionKind::PixelData => Rgba { r: 0xC0, g: 0xB0, b: 0x60, a: 255 },
        RegionKind::Gap => Rgba { r: 0x88, g: 0x88, b: 0x88, a: 255 },
        RegionKind::Unknown => Rgba { r: 0x66, g: 0x66, b: 0x66, a: 255 },
    }
}

impl RegionKind {
    /// A short, human-readable label for legends and the sidebar.
    pub fn label(&self) -> (s: &'static str)
        ensures
            s@ == kind_label(*self),
    {
        match self {
            RegionKind::FileHeader => "File header",
            RegionKind::InfoHeader => "Info header",
            RegionKind::ColorMasks => "Color masks",
            RegionKind::Palette => "Palette",
            RegionKind::Metadata => "Metadata",
            RegionKind::Table => "Coding tables",
            RegionKind::PixelData => "Pixel data",
            RegionKind::Gap => "Gap / padding",
            RegionKind::Unknown => "Unknown",
        }
    }

    /// The highlight color used to render bytes of this kind.
    pub fn color(&self) -> (c: Rgba)
        ensures
            c == kind_color(*self),
    {
        match self {
            RegionKind::FileHeader => Rgba::rgb(0x8E, 0xC0, 0x7C),
            RegionKind::InfoHeader => Rgba::rgb(0x7C, 0xA7, 0xC0),
            RegionKind::ColorMasks => Rgba::rgb(0xC0, 0xA7, 0x7C),
            RegionKind::Palette => Rgba::rgb(0xC0, 0x7C, 0xB8),
            RegionKind::Metadata => Rgba::rgb(0xB0, 0x8C, 0xC8),
            RegionKind::Table => Rgba::rgb(0x6C, 0xC0, 0xB4),
            RegionKind::PixelData => Rgba::rgb(0xC0, 0xB0, 0x60),
            RegionKind::Gap => Rgba::rgb(0x88, 0x88, 0x88),
            RegionKind::Unknown => Rgba::rgb(0x66, 0x66, 0x66),
        }
    }
}

/// A contiguous, half-open `[start, end)` byte range of one [`RegionKind`].
#[derive(Clone, PartialEq, Eq, Debug)]
pub struct Region {
    pub start: usize,
    pub end: usize,
    pub kind: RegionKind,
    /// A specific name for this instance (e.g. "BITMAPINFOHEADER").
    pub name: String,
}

/// The mathematical content of a region.
#[verifier::ext_equal]
pub struct RegionView {
    pub start: nat,
    pub end: nat,
    pub kind: RegionKind,
    pub name: Seq<char>,
}

/// The region view with the given content.
pub open spec fn rv(start: int, end: int, kind: RegionKind, name: Seq<char>) -> RegionView {
    RegionView { start: start as nat, end: end as nat, kind, name }
}

impl View for Region {
    type V = RegionView;

    open spec fn view(&self) -> RegionView {
        RegionView { start: self.start as nat, end: self.end as nat, kind: self.kind, name: self.name@ }
    }
}

/// The views of a sequence of regions.
pub open spec fn regions_view(rs: Seq<Region>) -> Seq<RegionView> {
    rs.map_values(|r: Region| r@)
}

/// Regions ordered by start and pairwise disjoint.
pub open spec fn sorted_disjoint(rs: Seq<RegionView>) -> bool {
    forall|i: int, j: int| 0 <= i < j < rs.len() ==> rs[i].end <= rs[j].start
}

/// Regions ordered by start.
pub open spec fn sorted_by_start(rs: Seq<RegionView>) -> bool {
    forall|i: int, j: int| 0 <= i < j < rs.len() ==> rs[i].start <= rs[j].start
}

/// Whether offset `o` lies in one of the regions.
pub open spec fn in_some_region(rs: Seq<RegionView>, o: int) -> bool {
    exists|i: int| 0 <= i < rs.len() && #[trigger] rs[i].start <= o && o < rs[i].end
}

/// The regions partition `[0, len)`: each is non-empty and ends within it,
/// they are sorted and pairwise disjoint, and every offset lies in one.
pub open spec fn partitions(rs: Seq<RegionView>, len: nat) -> bool {
    &&& sorted_disjoint(rs)
    &&& forall|i: int| 0 <= i < rs.len() ==> #[trigger] rs[i].start < rs[i].end && rs[i].end <= len
    &&& forall|o: int| 0 <= o < len ==> #[trigger] in_some_region(rs, o)
}

/// A partition of `[0, len)` extended by a non-empty region starting at
/// `len` is a partition up to that region's end.
pub proof fn lemma_partitions_push(rs: Seq<RegionView>, len: nat, r: RegionView)
    requires
        partitions(rs, len),
        r.start == len,
        r.start < r.end,
    ensures
        partitions(rs.push(r), r.end),
{
    let t = rs.push(r);
    assert forall|i: int, j: int| 0 <= i < j < t.len() implies t[i].end <= t[j].start by {
        if j < rs.len() {
            assert(t[i] == rs[i] && t[j] == rs[j]);
        } else {
            assert(t[i] == rs[i]);
            assert(rs[i].start < rs[i].end && rs[i].end <= len);
            assert(t[j] == r);
        }
    }
    assert forall|i: int| 0 <= i < t.len() implies #[trigger] t[i].start < t[i].end && t[i].end <= r.end by {
        if i < rs.len() {
            assert(t[i] == rs[i]);
        }
    }
    assert forall|o: int| 0 <= o < r.end implies #[trigger] in_some_region(t, o) by {
        if o < len {
            assert(in_some_region(rs, o));
            let i = choose|i: int| 0 <= i < rs.len() && #[trigger] rs[i].start <= o && o < rs[i].end;
            assert(t[i] == rs[i]);
        } else {
            assert(t[rs.len() as int] == r);
        }
    }
}

/// Partitioning regions are sorted by start.
pub proof fn lemma_partitions_sorted(rs: Seq<RegionView>, len: nat)
    requires
        partitions(rs, len),
    ensures
        sorted_by_start(rs),
{
    assert forall|i: int, j: int| 0 <= i < j < rs.len() implies rs[i].start <= rs[j].start by {
        assert(rs[i].start < rs[i].end);
    }
}

impl Region {
    /// A region `[start, end)` of the given kind and name.
    pub fn new(start: usize, end: usize, kind: RegionKind, name: &str) -> (r: Self)
        requires
            start <= end,
        ensures
            r@ == rv(start as int, end as int, kind, name@),
    {
        Region { start, end, kind, name: String::from_str(name) }
    }

    /// Number of bytes covered by this region.
    pub fn len(&self) -> (n: usize)
        requires
            self.start <= self.end,
        ensures
            n == self.end - self.start,
    {
        self.end - self.start
    }

    /// Whether the region covers no byte.
    pub fn is_empty(&self) -> (b: bool)
        ensures
            b == (self.start == self.end),
    {
        self.start == self.end
    }

    /// Whether `offset` falls within `[start, end)`.
    pub fn contains(&self, offset: usize) -> (b: bool)
        ensures
            b == (self.start <= offset && offset < self.end),
    {
        offset >= self.start && offset < self.end
    }
}

} // verus!
