//! Verified building blocks for merging fragmented MP4 streams into one
//! progressive ("hybrid") MP4 that embeds the original files verbatim.
pub mod ascii;
pub mod binary;
pub mod digest;
pub mod mp4_box;
pub mod cmd;
pub mod helpers;
