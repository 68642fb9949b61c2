//! What an OCR engine is asked and what it answers.
use crate::scalar::Scalar;
use image::ImageError;
use vstd::prelude::*;

verus! {

/// What a caller may ask of an engine.
#[derive(Debug)]
pub struct OcrOptions {
    /// The language of the text, as the engine names it.
    pub language: String,
}

/// One piece of recognised text.
#[derive(Debug)]
pub struct OcrResult {
    pub text: String,
    /// The upright box around the text, as `[x1, y1, x2, y2]` in image pixels.
    pub bbox: [Scalar; 4],
    pub confidence: Scalar,
    /// The four corners of the text, which may be rotated: top left, top right, bottom
    /// right and bottom left in the text's own reading frame.
    pub polygon: Option<[[Scalar; 2]; 4]>,
}

/// Why text could not be read off an image.
#[derive(Debug)]
pub enum OcrError {
    /// What went wrong, in words.
    Message(String),
    /// The error that the `image` crate reported.
    Image(ImageError),
}

} // verus!
