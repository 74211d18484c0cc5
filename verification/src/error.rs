//! The ways in which making a contact sheet can fail.

use vstd::prelude::*;

verus! {

/// A failure that ends the work on one input file.
#[derive(Clone, Copy, Debug, PartialEq, Eq, Structural)]
pub enum SheetError {
    /// The input could not be opened.
    OpenFailed,
    /// The input holds no video stream.
    NoVideoStream,
    /// No source told how long the stream with this index lasts.
    UnknownDuration { stream_index: usize },
    /// A seek failed, and failed again over the widest range.
    SeekFailed,
    /// The decoder or the scaler refused its input.
    DecodeOrScaleFailed,
    /// A frame came with more than one image plane.
    UnsupportedPixelLayout,
    /// The font for the labels could not be loaded.
    FontLoadFailed,
    /// The finished sheet could not be encoded.
    EncodeFailed,
    /// No frame was sampled, so there is nothing to lay out.
    EmptyFrameSet,
    /// The frames do not all have the size of the first one.
    FrameSizeMismatch,
    /// The sheet would be larger than an image can be.
    CanvasTooLarge,
    /// The input path names no file.
    MissingFileName,
    /// A text would reach beyond the edge of the sheet.
    TextOutsideCanvas,
}

} // verus!
