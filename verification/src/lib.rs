//! Decoder for a compact binary glyph-stream format.
//!
//! The format packs a sequence of records: 7-bit control codes and 64x64
//! one-bit-per-pixel glyph bitmaps with placement offsets.  A hidden
//! continuation bit sits at the start of every physical byte, and bitmap
//! bodies are compressed with a quadtree run-length scheme.

pub mod codec;
pub mod laws;
pub mod reader;

pub use codec::decode;
pub use codec::Character;
pub use codec::ControlCode;
pub use codec::Record;
pub use reader::BitReaderWrapper;
