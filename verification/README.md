# imghex_core

The verified core of an image-aware hex editor. It parses BMP, binary Netpbm
(P5/P6) and JPEG marker structure into coarse colored regions, named decoded
fields and summary lines, and answers what any byte offset means: its region,
its field, and, inside pixel data, the pixels it encodes and their colors.

Every function under `src/` carries a Verus contract stating its result over
mathematical models (`Seq`, `nat`, views of the library's types); Verus proves
the code against them, free of panics and overflow.

## Layout

```
src/
  color.rs       Rgba
  region.rs      Region, RegionKind, partitions of a file
  field.rs       Field, ordering and disjointness of fields
  model.rs       ParsedImage, PixelInfo: describe(), locate(), samples(),
                 color_at(), byte_offset_of(), render(), bit planes, legend
  format.rs      ImageFormat, the format registry, parse_auto()
  formats/       bmp.rs, netpbm.rs, jpeg.rs, exif.rs: the parsers
  search.rs      hex and go-to query parsing, byte-pattern search
  stats.rs       integer byte statistics (counts, histogram, most common)
  edit.rs        single-byte overwrites
  cursor.rs      the hex view's selection and typing, as a state machine
  text.rs        decimal and hex text, lossy UTF-8 text
  fixtures.rs    builders of well-formed images for tests and demos
tests/           integration tests over the public API
app/             the egui/eframe GUI, floating-point statistics and I/O
```

## Laws

Besides each function's contract, `src/` proves properties that span
functions, among them: the regions of a Netpbm or JPEG file partition it;
BMP regions are sorted and disjoint (pixel data declared back inside the
headers is shown from their end on); fields are sorted, and disjoint for BMP, Netpbm and
JPEG files without an EXIF block (whose value offsets may point anywhere);
jumping to a pixel's byte and locating that byte comes back to the pixel,
and every sample a byte lists is a pixel it encodes, with `color_at`'s
color; images built by the
fixtures read back their pixels; an overwrite is idempotent and writing the
old byte back undoes it; typing two hex digits writes the byte they spell,
and every caret step keeps its offsets inside the file; the legend lists
each region kind once; `find_next` gives the least match at or after its
start, else wraps to the least; `parse_auto` answers with the first format
that recognizes the data, and `NotRecognized` exactly when none does.

## Trusted code

One item is trusted: the wrapper around `String::from_utf8_lossy`, whose
result is named (`utf8_lossy`) rather than restated.
