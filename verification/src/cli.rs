//! The computing side of the command-line interface: runs a command over
//! already-read source text and yields what should be printed, written or
//! serialized. Reading files, writing output and serializing to an
//! interchange format are the callers' business.

use vstd::prelude::*;
use vstd::string::StringExecFns;

use crate::ast::Document;
use crate::ast::EntryModel;
use crate::ast::SectionModel;
use crate::ast::Value;
use crate::ast::ValueModel;
use crate::ast::has_section;
use crate::error::MiniConfError;
use crate::error::ParseErrorKind;
use crate::grammar::text_spec;
use crate::parser::build_spec;
use crate::parser::dup_message;
use crate::parser::parse_document;
use crate::parser::root_name;
use crate::text::chars_of;
use crate::text::string_from_chars;

verus! {

/// How a parsed document is rendered.
#[derive(Debug, Clone, Copy, Eq, PartialEq, Structural)]
pub enum OutputFormat {
    /// The plain text rendering produced by this library.
    Pretty,
    /// A structured interchange rendering, produced by the caller from the
    /// returned [`Document`].
    Json,
}

/// A command over one source text.
#[derive(Debug)]
pub enum Command {
    /// Parse the source and render the resulting document.
    Parse {
        /// The MiniConf source text.
        source: String,
        /// Selects how the parsed document is rendered.
        format: OutputFormat,
    },
    /// Validate the source without rendering its contents.
    Check {
        /// The MiniConf source text.
        source: String,
    },
}

/// Command-line interface for the MiniConf parser, minus the I/O: the
/// caller reads the input file and disposes of the result.
#[derive(Debug)]
pub struct Cli {
    /// The command to run.
    pub command: Command,
}

/// What running a command produces.
#[derive(Debug)]
pub enum RunOutput {
    /// Text to print or write.
    Rendered(String),
    /// A parsed document for the caller to serialize.
    Parsed(Document),
    /// The source is valid.
    Valid,
}

/// The rendering of one value in the plain text output. The numeric
/// literal prints exactly as it was written.
pub open spec fn format_value_spec(v: ValueModel) -> Seq<char>
    decreases v,
{
    match v {
        ValueModel::Text(s) => s,
        ValueModel::Num(t) => t,
        ValueModel::Flag(b) => if b {
            "true"@
        } else {
            "false"@
        },
        ValueModel::List(items) => "["@ + join_values_spec(items) + "]"@,
    }
}

/// Comma-separated renderings of a list of values.
pub open spec fn join_values_spec(items: Seq<ValueModel>) -> Seq<char>
    decreases items,
{
    if items.len() == 0 {
        Seq::empty()
    } else if items.len() == 1 {
        format_value_spec(items[0])
    } else {
        format_value_spec(items[0]) + ", "@ + join_values_spec(items.drop_first())
    }
}

/// Extending a list extends its joined rendering on the right.
pub proof fn lemma_join_push(items: Seq<ValueModel>, x: ValueModel)
    ensures
        join_values_spec(items.push(x)) == if items.len() == 0 {
            format_value_spec(x)
        } else {
            join_values_spec(items) + ", "@ + format_value_spec(x)
        },
    decreases items.len(),
{
    let p = items.push(x);
    if items.len() == 0 {
        assert(p.len() == 1);
        assert(p[0] == x);
    } else {
        assert(p[0] == items[0]);
        assert(p.drop_first() =~= items.drop_first().push(x));
        lemma_join_push(items.drop_first(), x);
        if items.len() == 1 {
            assert(items.drop_first().len() == 0);
            assert(join_values_spec(p) == format_value_spec(p[0]) + ", "@ + join_values_spec(
                p.drop_first(),
            ));
            assert(join_values_spec(items) == format_value_spec(items[0]));
        } else {
            assert(join_values_spec(items) == format_value_spec(items[0]) + ", "@
                + join_values_spec(items.drop_first()));
            assert((format_value_spec(items[0]) + ", "@ + join_values_spec(items.drop_first()))
                + ", "@ + format_value_spec(x) =~= format_value_spec(items[0]) + ", "@ + (
            join_values_spec(items.drop_first()) + ", "@ + format_value_spec(x)));
        }
    }
}

/// Renders one value as plain text.
pub fn format_value(value: &Value) -> (r: String)
    ensures
        r@ == format_value_spec(value.model()),
    decreases value,
{
    match value {
        Value::String(s) => s.clone(),
        Value::Number(t) => t.clone(),
        Value::Bool(b) => {
            if *b {
                String::from_str("true")
            } else {
                String::from_str("false")
            }
        },
        Value::Array(vs) => {
            let mut out = String::from_str("[");
            let joined = join_values(vs);
            out.append(joined.as_str());
            out.append("]");
            proof {
                assert(out@ =~= format_value_spec(value.model()));
            }
            out
        },
    }
}

fn join_values(vs: &Vec<Value>) -> (r: String)
    ensures
        r@ == join_values_spec(crate::ast::models_of(vs@)),
    decreases vs,
{
    let ghost models = crate::ast::models_of(vs@);
    let mut out = String::new();
    let mut i: usize = 0;
    proof {
        assert(models.take(0) =~= Seq::<ValueModel>::empty());
    }
    while i < vs.len()
        invariant
            models == crate::ast::models_of(vs@),
            0 <= i <= vs@.len(),
            models.len() == vs@.len(),
            out@ == join_values_spec(models.take(i as int)),
        decreases vs@.len() - i,
    {
        if i > 0 {
            out.append(", ");
        }
        let fv = format_value(&vs[i]);
        out.append(fv.as_str());
        proof {
            assert(models[i as int] == vs@[i as int].model());
            assert(models.take(i as int + 1) =~= models.take(i as int).push(models[i as int]));
            lemma_join_push(models.take(i as int), models[i as int]);
            if i == 0 {
                assert(models.take(0).len() == 0);
                assert(out@ =~= join_values_spec(models.take(1)));
            } else {
                assert(out@ =~= join_values_spec(models.take(i as int + 1)));
            }
        }
        i = i + 1;
    }
    proof {
        assert(models.take(vs@.len() as int) =~= models);
    }
    out
}

/// The rendering of one entry: `key = value` and a newline.
pub open spec fn entry_line_spec(e: EntryModel) -> Seq<char> {
    e.key + " = "@ + format_value_spec(e.value) + "\n"@
}

/// The renderings of a section's entries, in order.
pub open spec fn render_entries_spec(entries: Seq<EntryModel>) -> Seq<char>
    decreases entries.len(),
{
    if entries.len() == 0 {
        Seq::empty()
    } else {
        entry_line_spec(entries[0]) + render_entries_spec(entries.drop_first())
    }
}

/// The rendering of one section: its header (omitted for the root
/// section), its entries, and a blank line after a non-empty section.
pub open spec fn render_section_spec(sec: SectionModel) -> Seq<char> {
    (if sec.name == root_name() {
        Seq::empty()
    } else {
        "["@ + sec.name + "]\n"@
    }) + render_entries_spec(sec.entries) + (if sec.entries.len() > 0 {
        "\n"@
    } else {
        Seq::empty()
    })
}

/// The concatenated renderings of all sections, in order.
pub open spec fn render_doc_spec(secs: Seq<SectionModel>) -> Seq<char>
    decreases secs.len(),
{
    if secs.len() == 0 {
        Seq::empty()
    } else {
        render_section_spec(secs[0]) + render_doc_spec(secs.drop_first())
    }
}

/// Whitespace trimmed from the end of the rendering.
pub open spec fn is_trim_char(c: char) -> bool {
    c == ' ' || c == '\t' || c == '\n' || c == '\r'
}

/// `s` without its trailing whitespace.
pub open spec fn trim_end_spec(s: Seq<char>) -> Seq<char>
    decreases s.len(),
{
    if s.len() > 0 && is_trim_char(s[s.len() - 1]) {
        trim_end_spec(s.drop_last())
    } else {
        s
    }
}

/// The whole plain text rendering of a document.
pub open spec fn pretty_spec(secs: Seq<SectionModel>) -> Seq<char> {
    trim_end_spec(render_doc_spec(secs))
}

/// Extending the section list extends the rendering on the right.
proof fn lemma_render_doc_push(secs: Seq<SectionModel>, x: SectionModel)
    ensures
        render_doc_spec(secs.push(x)) == render_doc_spec(secs) + render_section_spec(x),
    decreases secs.len(),
{
    let p = secs.push(x);
    if secs.len() == 0 {
        assert(p[0] == x);
        assert(p.drop_first() =~= Seq::<SectionModel>::empty());
        assert(render_doc_spec(p) == render_section_spec(x) + render_doc_spec(p.drop_first()));
        assert(render_doc_spec(p.drop_first()) == Seq::<char>::empty());
        assert(render_doc_spec(secs) == Seq::<char>::empty());
        assert(render_section_spec(x) + Seq::<char>::empty() =~= render_section_spec(x));
        assert(Seq::<char>::empty() + render_section_spec(x) =~= render_section_spec(x));
    } else {
        assert(p[0] == secs[0]);
        assert(p.drop_first() =~= secs.drop_first().push(x));
        lemma_render_doc_push(secs.drop_first(), x);
        assert(render_section_spec(secs[0]) + (render_doc_spec(secs.drop_first())
            + render_section_spec(x)) =~= (render_section_spec(secs[0]) + render_doc_spec(
            secs.drop_first(),
        )) + render_section_spec(x));
    }
}

/// Extending the entry list extends the rendering on the right.
proof fn lemma_render_entries_push(entries: Seq<EntryModel>, x: EntryModel)
    ensures
        render_entries_spec(entries.push(x)) == render_entries_spec(entries) + entry_line_spec(
            x,
        ),
    decreases entries.len(),
{
    let p = entries.push(x);
    if entries.len() == 0 {
        assert(p[0] == x);
        assert(p.drop_first() =~= Seq::<EntryModel>::empty());
        assert(render_entries_spec(p) == entry_line_spec(x) + render_entries_spec(
            p.drop_first(),
        ));
        assert(render_entries_spec(p.drop_first()) == Seq::<char>::empty());
        assert(render_entries_spec(entries) == Seq::<char>::empty());
        assert(entry_line_spec(x) + Seq::<char>::empty() =~= entry_line_spec(x));
        assert(Seq::<char>::empty() + entry_line_spec(x) =~= entry_line_spec(x));
    } else {
        assert(p[0] == entries[0]);
        assert(p.drop_first() =~= entries.drop_first().push(x));
        lemma_render_entries_push(entries.drop_first(), x);
        assert(entry_line_spec(entries[0]) + (render_entries_spec(entries.drop_first())
            + entry_line_spec(x)) =~= (entry_line_spec(entries[0]) + render_entries_spec(
            entries.drop_first(),
        )) + entry_line_spec(x));
    }
}

/// Renders a document as plain text: sections in name order, entries in
/// declaration order, with trailing whitespace trimmed.
pub fn render_pretty(document: &Document) -> (r: String)
    ensures
        r@ == pretty_spec(document.model()),
{
    let secs = document.sections();
    let ghost m = document.model();
    let mut out = String::new();
    let mut i: usize = 0;
    proof {
        assert(m.take(0) =~= Seq::<SectionModel>::empty());
    }
    while i < secs.len()
        invariant
            secs@.len() == m.len(),
            forall|t: int| 0 <= t < secs@.len() ==> (#[trigger] secs@[t]).model() == m[t],
            0 <= i <= m.len(),
            out@ == render_doc_spec(m.take(i as int)),
        decreases m.len() - i,
    {
        let sec = &secs[i];
        let ghost sec_m = m[i as int];
        let ghost before = out@;
        let is_root = crate::text::str_compare(sec.name.as_str(), "root") == 1;
        if !is_root {
            out.append("[");
            out.append(sec.name.as_str());
            out.append("]\n");
        }
        proof {
            assert(sec_m.name == sec.name@);
            if is_root {
                assert(sec.name@ == "root"@);
                assert(out@ =~= before + (if sec_m.name == root_name() {
                    Seq::<char>::empty()
                } else {
                    "["@ + sec_m.name + "]\n"@
                }));
            } else {
                assert(out@ =~= before + (if sec_m.name == root_name() {
                    Seq::<char>::empty()
                } else {
                    "["@ + sec_m.name + "]\n"@
                }));
            }
            assert(sec_m.entries.take(0) =~= Seq::<EntryModel>::empty());
        }
        let ghost after_header = out@;
        let mut k: usize = 0;
        while k < sec.entries.len()
            invariant
                sec.model() == sec_m,
                sec_m.entries.len() == sec.entries@.len(),
                0 <= k <= sec.entries@.len(),
                out@ == after_header + render_entries_spec(sec_m.entries.take(k as int)),
            decreases sec.entries@.len() - k,
        {
            let entry = &sec.entries[k];
            out.append(entry.key.as_str());
            out.append(" = ");
            let fv = format_value(&entry.value);
            out.append(fv.as_str());
            out.append("\n");
            proof {
                assert(sec_m.entries[k as int] == sec.entries@[k as int].model());
                assert(entry.value.model() == sec_m.entries[k as int].value);
                assert(sec_m.entries.take(k as int + 1) =~= sec_m.entries.take(k as int).push(
                    sec_m.entries[k as int],
                ));
                lemma_render_entries_push(sec_m.entries.take(k as int), sec_m.entries[k as int]);
                assert(out@ =~= after_header + render_entries_spec(
                    sec_m.entries.take(k as int + 1),
                ));
            }
            k = k + 1;
        }
        if sec.entries.len() > 0 {
            out.append("\n");
        }
        proof {
            assert(sec_m.entries.take(sec_m.entries.len() as int) =~= sec_m.entries);
            assert(out@ =~= before + render_section_spec(sec_m));
            assert(m.take(i as int + 1) =~= m.take(i as int).push(sec_m));
            lemma_render_doc_push(m.take(i as int), sec_m);
            assert(out@ =~= render_doc_spec(m.take(i as int + 1)));
        }
        i = i + 1;
    }
    proof {
        assert(m.take(m.len() as int) =~= m);
    }
    let mut chars = chars_of(out.as_str());
    let ghost full = chars@;
    let mut t: usize = chars.len();
    proof {
        assert(full.take(full.len() as int) =~= full);
    }
    while t > 0 && ch_is_trim(chars[t - 1])
        invariant
            chars@ == full,
            0 <= t <= full.len(),
            trim_end_spec(full) == trim_end_spec(full.take(t as int)),
        decreases t,
    {
        proof {
            let cur = full.take(t as int);
            assert(cur[cur.len() - 1] == full[t - 1]);
            assert(is_trim_char(cur[cur.len() - 1]));
            assert(trim_end_spec(cur) == trim_end_spec(cur.drop_last()));
            assert(cur.drop_last() =~= full.take(t as int - 1));
        }
        t = t - 1;
    }
    chars.truncate(t);
    proof {
        assert(chars@ =~= full.take(t as int));
        let cur = full.take(t as int);
        if cur.len() > 0 {
            assert(cur[cur.len() - 1] == full[t - 1]);
            assert(!is_trim_char(cur[cur.len() - 1]));
        }
        assert(trim_end_spec(cur) == cur);
    }
    string_from_chars(&chars)
}

fn ch_is_trim(c: char) -> (r: bool)
    ensures
        r == is_trim_char(c),
{
    c == ' ' || c == '\t' || c == '\n' || c == '\r'
}

impl Cli {
    /// Executes the selected command over its source text: validates for
    /// `Check`, parses and renders for `Parse`. The output is fixed by the
    /// source: the parse tree's build, rendered as plain text for
    /// `Pretty`, handed back whole for `Json`, or discarded for `Check`;
    /// errors are the source's first syntax or duplicate-key failure.
    pub fn run(self) -> (r: Result<RunOutput, MiniConfError>)
        requires
            match self.command {
                Command::Parse { source, format } => source@.len() < usize::MAX,
                Command::Check { source } => source@.len() < usize::MAX,
            },
        ensures
            ({
                let src = match self.command {
                    Command::Parse { source, .. } => source@,
                    Command::Check { source } => source@,
                };
                match r {
                    Ok(out) => (text_spec(src, 0, 1, 0) matches Ok(ns) && (build_spec(
                        ns,
                    ) matches Ok(m) && (match out {
                        RunOutput::Valid => self.command is Check,
                        RunOutput::Parsed(doc) => {
                            &&& self.command matches Command::Parse {
                                format: OutputFormat::Json,
                                ..
                            }
                            &&& doc.wf()
                            &&& doc.model() == m
                            &&& has_section(m, root_name())
                        },
                        RunOutput::Rendered(s) => {
                            &&& self.command matches Command::Parse {
                                format: OutputFormat::Pretty,
                                ..
                            }
                            &&& s@ == pretty_spec(m)
                        },
                    }))),
                    Err(e) => match e {
                        MiniConfError::Syntax { line, column, .. } => (text_spec(
                            src,
                            0,
                            1,
                            0,
                        ) matches Err(p) && p.line == line as int && p.column == column as int),
                        MiniConfError::Semantic { kind, line, message } => kind
                            == ParseErrorKind::DuplicateKey && (text_spec(
                            src,
                            0,
                            1,
                            0,
                        ) matches Ok(ns) && (build_spec(ns) matches Err(d) && d.line == line
                            && message@ == dup_message(d.key, d.section))),
                    },
                }
            }),
{
        match self.command {
            Command::Parse { source, format } => {
                let parsed = parse_document(source.as_str());
                match parsed {
                    Ok(document) => match format {
                        OutputFormat::Pretty => {
                            let rendered = render_pretty(&document);
                            Ok(RunOutput::Rendered(rendered))
                        },
                        OutputFormat::Json => Ok(RunOutput::Parsed(document)),
                    },
                    Err(e) => Err(e),
                }
            },
            Command::Check { source } => {
                let parsed = parse_document(source.as_str());
                match parsed {
                    Ok(_) => Ok(RunOutput::Valid),
                    Err(e) => Err(e),
                }
            },
        }
    }
}

} // verus!
