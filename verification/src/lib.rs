//! MiniConf: a small INI/TOML-like configuration language.
//!
//! The library parses MiniConf source text into a [`Document`]: named
//! sections holding ordered key/value entries with typed values. The
//! pipeline is grammar engine (parse tree), literal decoder (typed
//! values) and document builder (sections with duplicate-key checking
//! and line-accurate diagnostics).

use vstd::prelude::*;

pub mod ast;
pub mod cli;
pub mod error;
pub mod grammar;
pub mod parser;
pub mod text;

pub use ast::Document;
pub use ast::Entry;
pub use ast::Section;
pub use ast::Value;
pub use error::MiniConfError;
pub use error::ParseErrorKind;

use ast::SectionModel;
use ast::has_section;
use grammar::text_spec;
use grammar::wf_nodes;
use parser::DupModel;
use parser::build_spec;
use parser::root_name;

verus! {

/// Convenience function that parses `source` into a [`Document`]: it
/// returns exactly what [`parser::parse_document`] returns — the build of
/// the source's parse tree, or the first syntax or duplicate-key error.
pub fn parse_str(source: &str) -> (r: Result<Document, MiniConfError>)
    requires
        source@.len() < usize::MAX,
    ensures
        match r {
            Ok(doc) => {
                &&& doc.wf()
                &&& has_section(doc.model(), root_name())
                &&& (text_spec(source@, 0, 1, 0) matches Ok(ns) && wf_nodes(ns) && build_spec(
                    ns,
                ) == Ok::<Seq<SectionModel>, DupModel>(doc.model()))
            },
            Err(e) => match e {
                MiniConfError::Syntax { line, column, .. } => (text_spec(
                    source@,
                    0,
                    1,
                    0,
                ) matches Err(p) && p.line == line as int && p.column == column as int),
                MiniConfError::Semantic { kind, line, message } => kind
                    == ParseErrorKind::DuplicateKey && (text_spec(source@, 0, 1, 0) matches Ok(
                    ns,
                ) && (build_spec(ns) matches Err(d) && d.line == line && message@
                    == parser::dup_message(d.key, d.section))),
            },
        },
{
    parser::parse_document(source)
}

} // verus!
