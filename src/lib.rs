//! Real-time audio decode-and-mix core: a bit reader, a decoder for a
//! restricted subset of a lossless block codec, a raw 8-bit sample source,
//! a fixed-capacity channel pool with its mixer, and the double-buffered
//! playback scheduler, together with the small tile and palette helpers used
//! by the asset tooling.
pub mod bits;
pub mod flac;
pub mod raw_pcm;
pub mod sound_info;
pub mod audio;
pub mod palette;
pub mod pattern;
pub mod map;
pub mod driver;
