//! Format parsers. Each submodule implements [`crate::format::ImageFormat`].

pub mod bmp;
pub mod exif;
pub mod jpeg;
pub mod netpbm;
