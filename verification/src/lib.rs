//! Reading text off page images.
//!
//! A page whose native text is thin, or that holds pictures, is rendered and handed to
//! an OCR server; what comes back is cleaned and merged into the page's text items.
//! This crate holds the decisions and the data: which pages to read, what to send, how
//! a reply becomes results, and which results become text items.

pub mod arithmetic;
pub mod engine;
pub mod merge;
pub mod ocr;
pub mod raster;
pub mod response;
pub mod rounding;
pub mod scalar;
pub mod survey;
pub mod text;
