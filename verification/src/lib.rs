//! Verified core of a DICOM primitive-value codec.
//!
//! The crate covers three independent subsystems:
//! - byte-order aware readers for the DICOM numeric primitives (`basic`),
//! - parsers for the textual date/time value representations DA, TM and DT
//!   (`deserialize`, with the value types in `calendar` and `partial`),
//! - a decoder for the RLE Lossless pixel-data encoding (`rle_lossless`).

pub mod basic;
pub mod calendar;
pub mod deserialize;
pub mod partial;
pub mod rle_lossless;
