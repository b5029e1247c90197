//! Markdown encoder / decoder
//!
//! A [`Decoder`] turns Markdown text into a sequence of [`Md`] tokens, one
//! line at a time; an [`Encoder`] writes such a sequence as Markdown text and
//! an [`html::HtmlEncoder`] writes it as HTML. Everything works in memory:
//! the decoder reads a byte buffer, the encoders append to a `String`.
//!
//! What each function returns is stated in its contract, over the values of
//! the tokens ([`MdView`]) and over sequences of characters and bytes. The
//! module [`proofs`] holds theorems about decoding and encoding together.

pub mod decode;
pub mod decoder;
pub mod encoder;
pub mod html;
pub mod line_reader;
pub mod md;
pub mod proofs;
pub mod reader;

pub use self::{
    decoder::Decoder,
    encoder::Encoder,
    md::{Md, MdView},
};
