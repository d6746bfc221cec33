//! Encoded words for ASCII-only header fields.
//!
//! [`rfc2047_encode`] turns arbitrary text into 7-bit ASCII: runs of
//! non-whitespace characters that hold a non-ASCII character are written as
//! `=?utf-8?q?...?=` segments of at most 75 characters, everything else is
//! copied through.
//!
//! * [`ascii`]: the character classes the encoder distinguishes.
//! * [`escape`]: the byte-escape rule used inside a segment.
//! * [`text`]: text held as a vector of characters.
//! * [`word`]: splitting one payload into segments.
//! * [`encode`]: walking the input token by token.
//! * [`decode`]: the reading of encoded text that the encoder is built
//!   for, and the proof that it gives the input back.
pub mod ascii;
pub mod escape;
pub mod text;
pub mod word;
pub mod encode;
pub mod decode;

pub use encode::rfc2047_encode;
pub use word::rfc2047_encode_word;
