//! A bit-level stream reader (least-significant bit first within each byte,
//! as in DEFLATE) and a Golomb-Rice decoder built on it.

pub mod bit_reader;
pub mod error;
pub mod rice;
