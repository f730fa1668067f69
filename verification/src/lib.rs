//! A tag-length-value message format whose decoder also hashes what it reads.
//!
//! A message is a run of fields in strictly ascending tag order. Every field
//! is a header (tag, wire type, critical flag) followed by a value. Decoding
//! folds each consumed field into a running digest, so a decoder built for an
//! older definition still authenticates fields that it skips.
//!
//! The modules, from the bytes up:
//!
//! - [`vint64`] and [`zigzag`]: integers in variable length.
//! - [`header`]: the header of a field.
//! - [`wire`]: the format as mathematics, which the contracts speak of.
//! - [`length`]: how long a field is once encoded.
//! - [`encoder`] and [`decoder`]: the cursors that write and read fields.
//! - [`digest`]: the hashing capability that a decoder feeds.
//! - [`sequence`] and [`nested`]: fields that hold messages.
//! - [`message`]: what a message type provides, and [`entry`]: the smallest
//!   message type with a digest, which provides it.
//! - [`field`], [`value`] and [`codec`]: definitions of fields, values that
//!   are not known before the program runs, and the codecs of whole
//!   messages that follow from definitions.
//! - [`laws`]: what holds of all of it, proved.

pub mod message;
pub mod entry;
pub mod error;
pub mod vint64;
pub mod field;
pub mod header;
pub mod zigzag;
pub mod wire;
pub mod digest;
pub mod sequence;
pub mod decoder;
pub mod encoder;
pub mod nested;
pub mod length;
pub mod value;
pub mod codec;
pub mod laws;
