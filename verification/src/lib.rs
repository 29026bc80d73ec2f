//! Bencode values.
//!
//! [`Value`] is an untyped value tree: byte strings, integers, lists and
//! dictionaries. [`from_slice`] decodes one from bytes and [`to_vec`] encodes
//! one; [`event::reduce`] builds one from the events of any other decoder.
//! Every failure is an [`Error`].
//!
//! What the functions return is stated over [`value::Term`], the
//! mathematical value that a `Value` stands for, and over the grammar in
//! [`de`]. The module [`laws`] holds what follows from those definitions.

pub mod bytes;
pub mod de;
pub mod error;
pub mod event;
pub mod laws;
pub mod ser;
pub mod value;

pub use de::from_slice;
pub use error::{Error, Result};
pub use ser::to_vec;
pub use value::{Dict, Number, Value};
