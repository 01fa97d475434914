//! MessagePack encoding and decoding, with the wire format stated as spec
//! functions and every reader and writer proved against it.

pub mod bytes;
pub mod convert;
pub mod error;
pub mod value;
pub mod format;
pub mod text;
pub mod encoder;
pub mod decoder;
pub mod laws;
