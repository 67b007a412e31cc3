//! A format-aware model of image files for a hex editor.
//!
//! The crate turns a byte stream into:
//!
//! * [`region::Region`]s: coarse, colored sections (header, palette, pixels),
//! * [`field::Field`]s: fine-grained, decoded named values,
//! * a [`model::ParsedImage`] that, given any byte offset, describes exactly
//!   what that byte means, including resolving a pixel byte of an indexed
//!   image to its palette color.
//!
//! Formats implement [`format::ImageFormat`] and are listed in
//! [`format::registry`].

pub mod color;
pub mod cursor;
pub mod edit;
pub mod field;
pub mod fixtures;
pub mod format;
pub mod formats;
pub mod model;
pub mod region;
pub mod search;
pub mod stats;
pub mod text;

pub use color::Rgba;
pub use field::Field;
pub use format::{parse_auto, ImageFormat, ParseError};
pub use model::{Channel, ParsedImage, PixelInfo, PixelSample, RenderedImage, SelectionInfo, Swatch};
pub use region::{Region, RegionKind};
