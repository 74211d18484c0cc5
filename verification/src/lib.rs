//! Contact-sheet core: exact rational timing, sample scheduling, frame
//! normalisation and grid composition for video thumbnails.

pub mod chars;
pub mod cli;
pub mod error;
pub mod frame_extractor;
pub mod image_maker;
pub mod info;
pub mod process;
pub mod rational;
pub mod text;
pub mod utils;
