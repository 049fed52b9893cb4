use vstd::prelude::*;

verus! {

/// Why the markdown given could not be turned into a document.
#[derive(Debug, Clone, Copy, PartialEq, Eq, Structural)]
pub enum MarkdownParseError {
    InvalidMarkdownError,
}

impl MarkdownParseError {
    /// The message shown for this error.
    pub fn message(&self) -> (m: String)
        ensures
            m@ == "unable to parse markdown"@,
    {
        match self {
            MarkdownParseError::InvalidMarkdownError => "unable to parse markdown".to_owned(),
        }
    }
}

/// The errors reported while parsing HTML.
#[derive(Debug)]
pub struct HtmlParseError {
    pub parse_errors: Vec<String>,
}

impl HtmlParseError {
    /// An error holding the given parser messages.
    pub fn new(parse_errors: Vec<String>) -> (e: Self)
        ensures
            e.parse_errors@ == parse_errors@,
    {
        HtmlParseError { parse_errors }
    }
}

/// Why a document could not be created.
#[derive(Debug)]
pub enum DomCreationError {
    HtmlParseError(HtmlParseError),
    MarkdownParseError(MarkdownParseError),
}

/// A mention's URI was not one that the mention parser accepts.
#[derive(Debug, Clone, Copy, PartialEq, Eq, Structural)]
pub struct UriParseError;

} // verus!
