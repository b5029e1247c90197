//! Markdown file decoding

mod error;
mod warning;

pub use self::{
    error::{Error, Fault},
    warning::{Warning, WarningKind},
};
