//! Error types emitted by the parser.

use vstd::prelude::*;

use crate::text::dec_rep;
use crate::text::usize_to_string;
use vstd::string::StringExecFns;

verus! {

/// Classification of semantic parsing problems: the grammar matched but a
/// domain rule was violated afterwards.
#[derive(Debug, Copy, Clone, Eq, PartialEq, Structural)]
pub enum ParseErrorKind {
    /// Duplicate key encountered inside a section.
    DuplicateKey,
    /// Value failed validation after the grammar matched.
    InvalidValue,
}

impl ParseErrorKind {
    /// Short human-readable label for this error kind.
    pub fn label(&self) -> (r: &'static str)
        ensures
            *self is DuplicateKey ==> r@ == "duplicate key"@,
            *self is InvalidValue ==> r@ == "invalid value"@,
    {
        match self {
            Self::DuplicateKey => "duplicate key",
            Self::InvalidValue => "invalid value",
        }
    }
}

/// Errors produced while parsing MiniConf documents.
#[derive(Debug, Clone)]
pub enum MiniConfError {
    /// The input does not match the grammar at some position.
    Syntax {
        /// 1-based line of the first position where no grammar alternative matches.
        line: usize,
        /// 1-based column of that position.
        column: usize,
        /// Description of the token kinds that would have been accepted there.
        expected: String,
    },
    /// Higher-level semantic issue surfaced after the grammar matched.
    Semantic {
        /// Classification of the problem.
        kind: ParseErrorKind,
        /// 1-based line number where the issue originated.
        line: usize,
        /// Human-friendly description.
        message: String,
    },
}

/// The display text of an error kind.
pub open spec fn kind_label_spec(kind: ParseErrorKind) -> Seq<char> {
    match kind {
        ParseErrorKind::DuplicateKey => "duplicate key"@,
        ParseErrorKind::InvalidValue => "invalid value"@,
    }
}

/// The human-readable rendering of an error.
pub open spec fn error_message_spec(e: MiniConfError) -> Seq<char> {
    match e {
        MiniConfError::Syntax { line, column, expected } => "parse error: expected "@ + expected@
            + " at line "@ + dec_rep(line as int) + ", column "@ + dec_rep(column as int),
        MiniConfError::Semantic { kind, line, message } => kind_label_spec(kind) + " on line "@
            + dec_rep(line as int) + ": "@ + message@,
    }
}

impl MiniConfError {
    /// Renders the error as human-readable text.
    pub fn message(&self) -> (r: String)
        ensures
            r@ == error_message_spec(*self),
    {
        match self {
            Self::Syntax { line, column, expected } => {
                let mut m = String::from_str("parse error: expected ");
                m.append(expected.as_str());
                m.append(" at line ");
                let ls = usize_to_string(*line);
                m.append(ls.as_str());
                m.append(", column ");
                let cs = usize_to_string(*column);
                m.append(cs.as_str());
                proof {
                    assert(m@ =~= error_message_spec(*self));
                }
                m
            },
            Self::Semantic { kind, line, message } => {
                let mut m = String::from_str(kind.label());
                m.append(" on line ");
                let ls = usize_to_string(*line);
                m.append(ls.as_str());
                m.append(": ");
                m.append(message.as_str());
                proof {
                    assert(m@ =~= error_message_spec(*self));
                }
                m
            },
        }
    }

    /// Creates a semantic error.
    pub fn semantic(kind: ParseErrorKind, line: usize, message: String) -> (r: Self)
        ensures
            r == (MiniConfError::Semantic { kind, line, message }),
    {
        Self::Semantic { kind, line, message }
    }
}

} // verus!
