//! The errors of extraction and of building and querying a graph.

use crate::text::concat;
use vstd::prelude::*;

verus! {

/// Why a source file could not be turned into a file node.
#[derive(Debug, Clone, PartialEq, Eq)]
pub enum ParseError {
    /// A pattern could not be compiled; the message says why.
    Regex(String),
    /// The file could not be read; the message gives the cause.
    Io(String),
    /// The file does not hold text.
    InvalidUtf8 { file: String },
}

impl ParseError {
    /// The error as one line of text.
    pub fn message(&self) -> (r: String)
        ensures
            r@ == match *self {
                ParseError::Regex(m) => "Regex match failed: "@ + m@,
                ParseError::Io(m) => "IO error: "@ + m@,
                ParseError::InvalidUtf8 { file } => "Invalid UTF-8 in file "@ + file@,
            },
    {
        match self {
            ParseError::Regex(m) => concat("Regex match failed: ", m.as_str()),
            ParseError::Io(m) => concat("IO error: ", m.as_str()),
            ParseError::InvalidUtf8 { file } => concat("Invalid UTF-8 in file ", file.as_str()),
        }
    }
}

/// Why a graph could not be built, loaded, queried or drawn.
#[derive(Debug, Clone, PartialEq, Eq)]
pub enum KnowledgeGraphError {
    /// Extraction failed for `file`.
    ParseError { file: String, source: ParseError },
    /// Reading, writing, encoding or decoding failed.
    Io(String),
    /// A query was given arguments it cannot use.
    Query(String),
    /// A drawing could not be made.
    Visualization(String),
}

impl KnowledgeGraphError {
    /// The error as one line of text.
    pub fn message(&self) -> (r: String)
        ensures
            r@ == match *self {
                KnowledgeGraphError::ParseError { file, source } => "Parse error in file "@ + file@
                    + ": "@ + match source {
                    ParseError::Regex(m) => "Regex match failed: "@ + m@,
                    ParseError::Io(m) => "IO error: "@ + m@,
                    ParseError::InvalidUtf8 { file } => "Invalid UTF-8 in file "@ + file@,
                },
                KnowledgeGraphError::Io(m) => "IO error: "@ + m@,
                KnowledgeGraphError::Query(m) => "Invalid query: "@ + m@,
                KnowledgeGraphError::Visualization(m) => "Visualization error: "@ + m@,
            },
    {
        match self {
            KnowledgeGraphError::ParseError { file, source } => {
                let head = concat("Parse error in file ", file.as_str());
                let head = concat(head.as_str(), ": ");
                let tail = source.message();
                concat(head.as_str(), tail.as_str())
            },
            KnowledgeGraphError::Io(m) => concat("IO error: ", m.as_str()),
            KnowledgeGraphError::Query(m) => concat("Invalid query: ", m.as_str()),
            KnowledgeGraphError::Visualization(m) => concat("Visualization error: ", m.as_str()),
        }
    }
}

} // verus!
