//! Steganography codec: hides a message in the low two bits of an image's
//! color-channel bytes and recovers it later.
//!
//! The crate works on plain byte streams. Reading and writing the PNG
//! container, as well as the command line, live outside the library; the
//! library receives decoded pixel bytes and hands back pixel bytes.

pub mod channels;
pub mod codec;
pub mod frame;
pub mod symbols;
