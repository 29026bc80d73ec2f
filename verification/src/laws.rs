//! What holds of values, of decoding and of encoding, proved from their
//! definitions.

pub mod decode;
pub mod round_trip;
pub mod value;
