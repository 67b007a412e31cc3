//! The pluggable image-format interface.
//!
//! Each supported format implements [`ImageFormat`]. [`registry`] returns
//! every known format; [`parse_auto`] picks the first one that recognizes the
//! bytes.

use vstd::prelude::*;
use crate::formats::bmp::{bmp_detects, bmp_fits, bmp_fits_check, spec_parse_bmp, BmpFormat};
use crate::formats::jpeg::{jpeg_detects, spec_parse_jpeg, JpegFormat};
use crate::formats::netpbm::{netpbm_detects, netpbm_fits, netpbm_fits_check, spec_parse_netpbm, NetpbmFormat};
use crate::model::{image_ok, ParsedImage, ParsedView};
use crate::text::{dec, push_dec};

verus! {

/// An error produced while parsing a file.
#[derive(Clone, Debug, PartialEq, Eq)]
pub enum ParseError {
    /// The bytes are not (or not enough of) this format.
    NotRecognized,
    /// The file is truncated: needed at least `needed` bytes but had `got`.
    Truncated { needed: usize, got: usize },
    /// A field held a value the parser cannot handle.
    Unsupported(String),
    /// A structural inconsistency (e.g. a header pointing outside the file).
    Malformed(String),
}

/// The mathematical content of a parse error.
pub enum ParseErrorView {
    NotRecognized,
    Truncated { needed: nat, got: nat },
    Unsupported(Seq<char>),
    Malformed(Seq<char>),
}

impl View for ParseError {
    type V = ParseErrorView;

    open spec fn view(&self) -> ParseErrorView {
        match self {
            ParseError::NotRecognized => ParseErrorView::NotRecognized,
            ParseError::Truncated { needed, got } => ParseErrorView::Truncated { needed: *needed as nat, got: *got as nat },
            ParseError::Unsupported(m) => ParseErrorView::Unsupported(m@),
            ParseError::Malformed(m) => ParseErrorView::Malformed(m@),
        }
    }
}

/// The message of a parse error.
pub open spec fn error_text(e: ParseErrorView) -> Seq<char> {
    match e {
        ParseErrorView::NotRecognized => "not recognized as this format"@,
        ParseErrorView::Truncated { needed, got } => "file truncated: needed "@ + dec(needed) + " bytes, got "@ + dec(got),
        ParseErrorView::Unsupported(m) => "unsupported: "@ + m,
        ParseErrorView::Malformed(m) => "malformed: "@ + m,
    }
}

impl ParseError {
    /// A human-readable message for the error.
    pub fn message(&self) -> (s: String)
        ensures
            s@ == error_text(self@),
    {
        let mut s = String::new();
        match self {
            ParseError::NotRecognized => {
                s.append("not recognized as this format");
            },
            ParseError::Truncated { needed, got } => {
                s.append("file truncated: needed ");
                push_dec(&mut s, *needed as u128);
                s.append(" bytes, got ");
                push_dec(&mut s, *got as u128);
            },
            ParseError::Unsupported(m) => {
                s.append("unsupported: ");
                s.append(m.as_str());
            },
            ParseError::Malformed(m) => {
                s.append("malformed: ");
                s.append(m.as_str());
            },
        }
        assert(s@ =~= error_text(self@));
        s
    }
}

/// A parser for one image format.
pub trait ImageFormat {
    /// The format's name.
    spec fn format_name(&self) -> Seq<char>;

    /// Whether bytes carry this format's magic number.
    spec fn recognizes(&self, bytes: Seq<u8>) -> bool;

    /// Whether the parser's arithmetic on these bytes stays within `usize`.
    spec fn fits(&self, bytes: Seq<u8>) -> bool;

    /// What parsing these bytes yields.
    spec fn parses_to(&self, bytes: Seq<u8>) -> Result<ParsedView, ParseErrorView>;

    /// A stable, human-readable name (e.g. "BMP").
    fn name(&self) -> (s: &'static str)
        ensures
            s@ == self.format_name(),
    ;

    /// Cheaply test whether `bytes` look like this format (magic number check).
    fn detect(&self, bytes: &[u8]) -> (b: bool)
        ensures
            b == self.recognizes(bytes@),
    ;

    /// Fully parse `bytes` into a [`ParsedImage`]. Bytes without the magic
    /// number are not recognized.
    fn parse(&self, bytes: &[u8]) -> (r: Result<ParsedImage, ParseError>)
        requires
            self.fits(bytes@),
        ensures
            r matches Ok(img) ==> self.parses_to(bytes@) == Ok::<ParsedView, ParseErrorView>(img@) && image_ok(img),
            r matches Err(e) ==> self.parses_to(bytes@) == Err::<ParsedView, ParseErrorView>(e@),
            !self.recognizes(bytes@) ==> r == Err::<ParsedImage, ParseError>(ParseError::NotRecognized),
    ;
}

/// Every format the core knows about.
#[derive(Clone, Copy, PartialEq, Eq, Debug, Structural)]
pub enum Format {
    Bmp,
    Netpbm,
    Jpeg,
}

impl ImageFormat for Format {
    open spec fn format_name(&self) -> Seq<char> {
        match self {
            Format::Bmp => "BMP"@,
            Format::Netpbm => "Netpbm"@,
            Format::Jpeg => "JPEG"@,
        }
    }

    open spec fn recognizes(&self, bytes: Seq<u8>) -> bool {
        match self {
            Format::Bmp => bmp_detects(bytes),
            Format::Netpbm => netpbm_detects(bytes),
            Format::Jpeg => jpeg_detects(bytes),
        }
    }

    open spec fn fits(&self, bytes: Seq<u8>) -> bool {
        match self {
            Format::Bmp => bmp_fits(bytes),
            Format::Netpbm => netpbm_fits(bytes),
            Format::Jpeg => true,
        }
    }

    open spec fn parses_to(&self, bytes: Seq<u8>) -> Result<ParsedView, ParseErrorView> {
        match self {
            Format::Bmp => spec_parse_bmp(bytes),
            Format::Netpbm => spec_parse_netpbm(bytes),
            Format::Jpeg => spec_parse_jpeg(bytes),
        }
    }

    fn name(&self) -> (s: &'static str) {
        match self {
            Format::Bmp => BmpFormat.name(),
            Format::Netpbm => NetpbmFormat.name(),
            Format::Jpeg => JpegFormat.name(),
        }
    }

    fn detect(&self, bytes: &[u8]) -> (b: bool) {
        match self {
            Format::Bmp => BmpFormat.detect(bytes),
            Format::Netpbm => NetpbmFormat.detect(bytes),
            Format::Jpeg => JpegFormat.detect(bytes),
        }
    }

    fn parse(&self, bytes: &[u8]) -> (r: Result<ParsedImage, ParseError>) {
        match self {
            Format::Bmp => BmpFormat.parse(bytes),
            Format::Netpbm => NetpbmFormat.parse(bytes),
            Format::Jpeg => JpegFormat.parse(bytes),
        }
    }
}

/// The known formats, in detection priority order.
pub open spec fn known_formats() -> Seq<Format> {
    seq![Format::Bmp, Format::Netpbm, Format::Jpeg]
}

/// Every format the core knows about, in detection priority order.
pub fn registry() -> (r: Vec<Format>)
    ensures
        r@ == known_formats(),
{
    let r = vec![Format::Bmp, Format::Netpbm, Format::Jpeg];
    assert(r@ =~= known_formats());
    r
}

/// The first known format, from index `i` on, that recognizes the bytes.
pub open spec fn first_from(b: Seq<u8>, i: int) -> Option<Format>
    decreases 3 - i,
{
    if i < 0 || i >= 3 {
        None
    } else if known_formats()[i].recognizes(b) {
        Some(known_formats()[i])
    } else {
        first_from(b, i + 1)
    }
}

/// The first known format that recognizes the bytes.
pub open spec fn first_format(b: Seq<u8>) -> Option<Format> {
    first_from(b, 0)
}

/// Whether parsing the bytes with the format that recognizes them stays
/// within `usize`.
pub open spec fn auto_fits(b: Seq<u8>) -> bool {
    match first_format(b) {
        Some(f) => f.fits(b),
        None => true,
    }
}

/// What automatic parsing yields: the first recognizing format's parse.
pub open spec fn spec_parse_auto(b: Seq<u8>) -> Result<ParsedView, ParseErrorView> {
    match first_format(b) {
        Some(f) => f.parses_to(b),
        None => Err(ParseErrorView::NotRecognized),
    }
}

proof fn lemma_first_format(b: Seq<u8>, f: Format)
    requires
        f.recognizes(b),
    ensures
        first_format(b) == Some(f),
        forall|g: Format| g != f ==> !(#[trigger] g.recognizes(b)),
{
    assert(known_formats()[0] == Format::Bmp);
    assert(known_formats()[1] == Format::Netpbm);
    assert(known_formats()[2] == Format::Jpeg);
    reveal_with_fuel(first_from, 4);
}

/// No two known formats recognize the same bytes (their magic numbers
/// differ), so bytes that a known format recognizes are parsed by that
/// format, whatever the order of the registry.
pub proof fn lemma_auto_uses_recognizer(b: Seq<u8>, f: Format)
    requires
        f.recognizes(b),
    ensures
        spec_parse_auto(b) == f.parses_to(b),
        auto_fits(b) == f.fits(b),
        forall|g: Format| g != f ==> !(#[trigger] g.recognizes(b)),
{
    lemma_first_format(b, f);
}

/// Automatic parsing answers `NotRecognized` exactly for bytes that no known
/// format recognizes; otherwise it answers with the recognizing format's parse.
pub proof fn lemma_auto_not_recognized(b: Seq<u8>)
    ensures
        (spec_parse_auto(b) == Err::<ParsedView, ParseErrorView>(ParseErrorView::NotRecognized))
            <==> (forall|f: Format| !(#[trigger] f.recognizes(b))),
        (forall|f: Format| !(#[trigger] f.recognizes(b))) <==> first_format(b) is None,
{
    assert(known_formats()[0] == Format::Bmp);
    assert(known_formats()[1] == Format::Netpbm);
    assert(known_formats()[2] == Format::Jpeg);
    reveal_with_fuel(first_from, 4);
    if Format::Bmp.recognizes(b) {
        lemma_first_format(b, Format::Bmp);
    } else if Format::Netpbm.recognizes(b) {
        lemma_first_format(b, Format::Netpbm);
    } else if Format::Jpeg.recognizes(b) {
        lemma_first_format(b, Format::Jpeg);
    } else {
        assert forall|f: Format| !(#[trigger] f.recognizes(b)) by {
            match f {
                Format::Bmp => {},
                Format::Netpbm => {},
                Format::Jpeg => {},
            }
        }
    }
}

/// Whether the arithmetic of parsing `bytes` stays within `usize`, as
/// [`parse_auto`] requires.
pub fn parse_fits(bytes: &[u8]) -> (r: bool)
    ensures
        r == auto_fits(bytes@),
{
    if BmpFormat.detect(bytes) {
        proof { lemma_first_format(bytes@, Format::Bmp); }
        bmp_fits_check(bytes)
    } else if NetpbmFormat.detect(bytes) {
        proof { lemma_first_format(bytes@, Format::Netpbm); }
        netpbm_fits_check(bytes)
    } else {
        proof {
            if JpegFormat.recognizes(bytes@) {
                lemma_first_format(bytes@, Format::Jpeg);
            } else {
                reveal_with_fuel(first_from, 4);
            }
        }
        true
    }
}

/// Parse `bytes` with the first registered format that recognizes them.
///
/// Returns [`ParseError::NotRecognized`] if no format matches.
pub fn parse_auto(bytes: &[u8]) -> (r: Result<ParsedImage, ParseError>)
    requires
        auto_fits(bytes@),
    ensures
        r matches Ok(img) ==> spec_parse_auto(bytes@) == Ok::<ParsedView, ParseErrorView>(img@) && image_ok(img),
        r matches Err(e) ==> spec_parse_auto(bytes@) == Err::<ParsedView, ParseErrorView>(e@),
{
    let formats = registry();
    let mut i: usize = 0;
    while i < formats.len()
        invariant
            formats@ == known_formats(),
            i <= formats.len(),
            first_format(bytes@) == first_from(bytes@, i as int),
            auto_fits(bytes@),
        decreases formats.len() - i,
    {
        let f = formats[i];
        if f.detect(bytes) {
            return f.parse(bytes);
        }
        i = i + 1;
    }
    Err(ParseError::NotRecognized)
}

} // verus!
