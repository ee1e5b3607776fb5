//! What each tagger computes from what it reads.
pub mod audio;
pub mod code;
pub mod exif;
pub mod image;
pub mod content;
pub mod std_mime;
pub mod text;
