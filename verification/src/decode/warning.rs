use vstd::prelude::*;

verus! {

/// A markdown warning
#[non_exhaustive]
#[derive(Clone, Eq, PartialEq, Debug)]
pub enum WarningKind {
    /// Depending on markdown flavor may be a heading, may not
    ///
    /// `#Ambiguous Heading`
    ///
    /// To disambiguate, use either
    ///
    ///  - `# My Heading`
    ///  - `\# Line that starts with a #`
    AmbiguousHeading,
}

/// Markdown warning
#[derive(Clone, Eq, PartialEq, Debug)]
pub struct Warning<'a> {
    /// The line as it stands in the input
    pub line_text: &'a str,
    /// Number of the line, counted from 1
    pub line_number: u16,
    /// What the line is ambiguous about
    pub warning: WarningKind,
}

} // verus!
