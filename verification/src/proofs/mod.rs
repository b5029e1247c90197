//! Theorems about the decoder and the encoders

pub mod blocks;
pub mod decoding;
pub mod html;
pub mod lines;
pub mod roundtrip;
pub mod text;
