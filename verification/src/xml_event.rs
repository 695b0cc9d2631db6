//! The XML events that the XML-RPC reader works on.
use vstd::prelude::*;

verus! {

/// One event of an XML reader.
#[derive(Debug, PartialEq)]
pub enum XmlEvent {
    /// A start tag, with its name.
    Start(String),
    /// An end tag, with its name.
    End(String),
    /// Character data, unescaped; `None` where it could not be unescaped.
    Text(Option<String>),
    /// A comment.
    Comment,
    /// A declaration, processing instruction, CDATA section or doctype.
    Other,
    /// The end of the input.
    Eof,
    /// A syntax error.
    Error,
}

} // verus!
