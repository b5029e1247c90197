use vstd::prelude::*;

use crate::decode::Warning;

verus! {

/// Why a line could not be handed out as text
#[derive(Clone, Copy, Eq, PartialEq, Debug)]
pub enum Fault {
    /// The bytes of the line are not valid UTF-8
    InvalidData,
}

/// A read fault or Markdown decoding warning
#[derive(Debug)]
pub enum Error<'a> {
    /// The line source failed, or a line is not valid UTF-8
    Io(Fault),
    /// Recoverable warning parsing the markdown
    Warning(Warning<'a>),
}

} // verus!
