//! The literal decoder and the document builder: converts matched literal
//! nodes into typed values, folds the parse tree into a [`Document`], and
//! carries the laws that govern building.

use vstd::prelude::*;
use vstd::string::StringExecFns;

use crate::ast::Document;
use crate::ast::Entry;
use crate::ast::EntryModel;
use crate::ast::SectionModel;
use crate::ast::Value;
use crate::ast::ValueModel;
use crate::ast::append_entry_spec;
use crate::ast::entries_has_key;
use crate::ast::empty_section;
use crate::ast::has_section;
use crate::ast::insert_section_spec;
use crate::ast::lemma_append_entry_at;
use crate::ast::lemma_section_entries_at;
use crate::ast::section_entries;
use crate::ast::sorted_names;
use crate::error::MiniConfError;
use crate::error::ParseErrorKind;
use crate::grammar::MiniConfParser;
use crate::grammar::Node;
use crate::grammar::NodeModel;
use crate::grammar::ValueNode;
use crate::grammar::ValueNodeModel;
use crate::grammar::node_models;
use crate::grammar::text_spec;
use crate::grammar::vnode_models;
use crate::grammar::wf_nodes;
use crate::text::chars_of;
use crate::text::string_from_chars;

verus! {

/// What one escaped character decodes to: `\n` and `\t` become control
/// characters; anything else is copied through literally.
pub open spec fn escape_char(c: char) -> char {
    if c == 'n' {
        '\n'
    } else if c == 't' {
        '\t'
    } else {
        c
    }
}

/// The decoded form of a quoted-string body: each backslash consumes the
/// following character, which decodes by [`escape_char`]; a trailing lone
/// backslash contributes nothing.
pub open spec fn unescape_spec(s: Seq<char>) -> Seq<char>
    decreases s.len(),
{
    if s.len() == 0 {
        Seq::empty()
    } else if s[0] == '\\' {
        if s.len() == 1 {
            Seq::empty()
        } else {
            seq![escape_char(s[1])] + unescape_spec(s.skip(2))
        }
    } else {
        seq![s[0]] + unescape_spec(s.skip(1))
    }
}

fn unescape_chars(body: &Vec<char>) -> (r: String)
    ensures
        r@ == unescape_spec(body@),
{
    let n = body.len();
    let mut out: Vec<char> = Vec::new();
    let mut i: usize = 0;
    proof {
        assert(body@.skip(0) =~= body@);
        assert(out@ + unescape_spec(body@) =~= unescape_spec(body@));
    }
    while i < n
        invariant
            n == body@.len(),
            0 <= i <= n,
            unescape_spec(body@) == out@ + unescape_spec(body@.skip(i as int)),
        decreases n - i,
    {
        let ghost rest = body@.skip(i as int);
        let c = body[i];
        proof {
            assert(rest[0] == c);
        }
        if c == '\\' {
            if i + 1 < n {
                let c2 = body[i + 1];
                let e: char = if c2 == 'n' {
                    '\n'
                } else if c2 == 't' {
                    '\t'
                } else {
                    c2
                };
                proof {
                    assert(rest[1] == c2);
                    assert(e == escape_char(c2));
                    assert(rest.len() >= 2);
                    assert(unescape_spec(rest) == seq![escape_char(rest[1])] + unescape_spec(
                        rest.skip(2),
                    ));
                    assert(rest.skip(2) =~= body@.skip(i as int + 2));
                    assert(out@ + (seq![e] + unescape_spec(body@.skip(i as int + 2))) =~= (out@
                        + seq![e]) + unescape_spec(body@.skip(i as int + 2)));
                    assert(out@.push(e) =~= out@ + seq![e]);
                }
                out.push(e);
                i = i + 2;
            } else {
                proof {
                    assert(rest.len() == 1);
                    assert(unescape_spec(rest) =~= Seq::<char>::empty());
                    assert(out@ + unescape_spec(rest) =~= out@);
                    assert(body@.skip(i as int + 1) =~= rest.skip(1));
                    assert(unescape_spec(body@.skip(i as int + 1)) =~= Seq::<char>::empty());
                    assert(out@ + unescape_spec(body@.skip(i as int + 1)) =~= out@);
                }
                i = i + 1;
            }
        } else {
            proof {
                assert(unescape_spec(rest) == seq![rest[0]] + unescape_spec(rest.skip(1)));
                assert(rest.skip(1) =~= body@.skip(i as int + 1));
                assert(out@ + (seq![c] + unescape_spec(body@.skip(i as int + 1))) =~= (out@
                    + seq![c]) + unescape_spec(body@.skip(i as int + 1)));
                assert(out@.push(c) =~= out@ + seq![c]);
            }
            out.push(c);
            i = i + 1;
        }
    }
    proof {
        assert(body@.skip(n as int).len() == 0);
        assert(unescape_spec(body@.skip(n as int)) =~= Seq::<char>::empty());
        assert(out@ =~= unescape_spec(body@));
    }
    string_from_chars(&out)
}

/// Law: decoding is the identity on content that uses no escapes, so
/// text that needs none survives a decode unchanged.
pub proof fn lemma_unescape_plain(s: Seq<char>)
    requires
        forall|i: int| 0 <= i < s.len() ==> s[i] != '\\',
    ensures
        unescape_spec(s) == s,
    decreases s.len(),
{
    if s.len() == 0 {
        assert(unescape_spec(s) =~= s);
    } else {
        assert(s.drop_first() =~= s.skip(1));
        assert forall|i: int| 0 <= i < s.skip(1).len() implies s.skip(1)[i] != '\\' by {
            assert(s.skip(1)[i] == s[i + 1]);
        }
        lemma_unescape_plain(s.skip(1));
        assert(seq![s[0]] + s.skip(1) =~= s);
    }
}

/// Strips the surrounding quotes from a quoted-string token and decodes
/// its backslash escapes.
pub fn unescape(raw: &str) -> (r: String)
    requires
        raw@.len() >= 2,
    ensures
        r@ == unescape_spec(raw@.subrange(1, raw@.len() - 1)),
{
    let cs = chars_of(raw);
    let end = cs.len() - 1;
    let mut body: Vec<char> = Vec::new();
    let mut i: usize = 1;
    while i < end
        invariant
            cs@ == raw@,
            cs@.len() >= 2,
            end == cs@.len() - 1,
            1 <= i <= end,
            body@ =~= cs@.subrange(1, i as int),
        decreases end - i,
    {
        let c = cs[i];
        proof {
            assert(cs@.subrange(1, i as int + 1) =~= cs@.subrange(1, i as int).push(
                cs@[i as int],
            ));
        }
        body.push(c);
        i = i + 1;
    }
    proof {
        assert(body@ =~= raw@.subrange(1, raw@.len() - 1));
    }
    unescape_chars(&body)
}

/// The typed value that a matched literal node decodes to.
pub open spec fn decode_node(v: ValueNodeModel) -> ValueModel
    decreases v,
{
    match v {
        ValueNodeModel::Quoted { body, line } => ValueModel::Text(unescape_spec(body)),
        ValueNodeModel::Bare { text } => ValueModel::Text(text),
        ValueNodeModel::Num { text, line } => ValueModel::Num(text),
        ValueNodeModel::Word { text } => ValueModel::Flag(text == "true"@ || text == "yes"@),
        ValueNodeModel::Arr { items } => ValueModel::List(decode_list(items)),
    }
}

/// The decoded values of a list of nodes, in order. The range guard
/// keeps the recursion well-founded; an out-of-range index is never read.
pub open spec fn decode_list(items: Seq<ValueNodeModel>) -> Seq<ValueModel>
    decreases items,
{
    Seq::new(
        items.len(),
        |i: int|
            if 0 <= i < items.len() {
                decode_node(items[i])
            } else {
                ValueModel::Flag(false)
            },
    )
}

/// Decodes one matched literal node into a typed [`Value`]. Decoding is
/// total over every node the grammar can produce, so the result is always
/// `Ok`; the `Result` shape mirrors the rest of the pipeline.
pub fn parse_value(node: &ValueNode) -> (r: Result<Value, MiniConfError>)
    ensures
        r matches Ok(v) && v.model() == decode_node(node.model()),
    decreases node,
{
    match node {
        ValueNode::Quoted { body, line } => Ok(Value::String(unescape_chars(body))),
        ValueNode::Bare { text } => Ok(Value::String(string_from_chars(text))),
        ValueNode::Num { text, line } => Ok(Value::Number(string_from_chars(text))),
        ValueNode::Word { text } => {
            let b = crate::grammar::token_eq(text, "true") || crate::grammar::token_eq(
                text,
                "yes",
            );
            Ok(Value::Bool(b))
        },
        ValueNode::Arr { items } => parse_array(items),
    }
}

/// Decodes each element of an array node in order.
pub fn parse_array(items: &Vec<ValueNode>) -> (r: Result<Value, MiniConfError>)
    ensures
        r matches Ok(v) && v.model() == ValueModel::List(decode_list(vnode_models(items@))),
    decreases items,
{
    let mut values: Vec<Value> = Vec::new();
    let mut i: usize = 0;
    while i < items.len()
        invariant
            0 <= i <= items@.len(),
            values@.len() == i,
            forall|t: int|
                0 <= t < i ==> (#[trigger] values@[t]).model() == decode_node(
                    vnode_models(items@)[t],
                ),
        decreases items@.len() - i,
    {
        let parsed = parse_value(&items[i]);
        let v = match parsed {
            Ok(v) => v,
            Err(e) => {
                proof {
                    assert(false);
                }
                return Err(e);
            },
        };
        proof {
            assert(vnode_models(items@)[i as int] == items@[i as int].model());
        }
        values.push(v);
        i = i + 1;
    }
    let r = Value::Array(values);
    proof {
        assert(r.model() matches ValueModel::List(l) && l =~= decode_list(vnode_models(items@)));
    }
    Ok(r)
}


/// Specification-level record of a duplicate-key failure.
pub struct DupModel {
    /// Line of the offending (second) occurrence.
    pub line: usize,
    /// The re-declared key.
    pub key: Seq<char>,
    /// The section in which the key was re-declared.
    pub section: Seq<char>,
}

/// The name of the implicit root section.
pub open spec fn root_name() -> Seq<char> {
    "root"@
}

/// The error message reported for a duplicate key.
pub open spec fn dup_message(key: Seq<char>, section: Seq<char>) -> Seq<char> {
    "key `"@ + key + "` already defined in ["@ + section + "]"@
}

fn dup_key_message(key: &str, section: &str) -> (r: String)
    ensures
        r@ == dup_message(key@, section@),
{
    let mut m = String::from_str("key `");
    m.append(key);
    m.append("` already defined in [");
    m.append(section);
    m.append("]");
    proof {
        assert(m@ =~= dup_message(key@, section@));
    }
    m
}

/// Folding one parse tree into sections, left to right: a header switches
/// the current section (creating it when absent), a key/value pair appends
/// an entry or stops with the first duplicate key.
pub open spec fn build_from(
    secs: Seq<SectionModel>,
    cur: Seq<char>,
    nodes: Seq<NodeModel>,
) -> Result<Seq<SectionModel>, DupModel>
    decreases nodes.len(),
{
    if nodes.len() == 0 {
        Ok(secs)
    } else {
        match nodes[0] {
            NodeModel::Header { name, line } => build_from(
                insert_section_spec(secs, name),
                name,
                nodes.drop_first(),
            ),
            NodeModel::Pair { key, value, line } => {
                let s1 = insert_section_spec(secs, cur);
                if entries_has_key(section_entries(s1, cur), key) {
                    Err(DupModel { line, key, section: cur })
                } else {
                    build_from(
                        append_entry_spec(
                            s1,
                            cur,
                            EntryModel { key, value: decode_node(value), line },
                        ),
                        cur,
                        nodes.drop_first(),
                    )
                }
            },
        }
    }
}

/// Building a whole parse tree: starts in an (initially empty) root
/// section.
pub open spec fn build_spec(nodes: Seq<NodeModel>) -> Result<Seq<SectionModel>, DupModel> {
    build_from(insert_section_spec(Seq::empty(), root_name()), root_name(), nodes)
}

/// Decodes one key/value pair into the current section, or reports a
/// duplicate key within that section.
pub fn handle_key_value(
    document: &mut Document,
    current_section: &str,
    key: String,
    value: &ValueNode,
    line: usize,
) -> (r: Result<(), MiniConfError>)
    requires
        old(document).wf(),
    ensures
        final(document).wf(),
        ({
            let s1 = insert_section_spec(old(document).model(), current_section@);
            if entries_has_key(section_entries(s1, current_section@), key@) {
                &&& r matches Err(e)
                &&& e matches MiniConfError::Semantic { kind, line: l, message } && kind
                    == ParseErrorKind::DuplicateKey && l == line && message@ == dup_message(
                    key@,
                    current_section@,
                )
                &&& final(document).model() == s1
            } else {
                &&& r is Ok
                &&& final(document).model() == append_entry_spec(
                    s1,
                    current_section@,
                    EntryModel { key: key@, value: decode_node(value.model()), line },
                )
            }
        }),
{
    let parsed = parse_value(value);
    let decoded = match parsed {
        Ok(v) => v,
        Err(e) => {
            proof {
                assert(false);
            }
            return Err(e);
        },
    };
    let idx = document.ensure_section_mut(current_section);
    proof {
        lemma_section_entries_at(document.model(), current_section@, idx as int);
    }
    if document.entry_key_exists(idx, key.as_str()) {
        return Err(
            MiniConfError::semantic(
                ParseErrorKind::DuplicateKey,
                line,
                dup_key_message(key.as_str(), current_section),
            ),
        );
    }
    let ghost before_push = document.model();
    let entry = Entry::new(key, decoded, line);
    document.push_entry(idx, entry);
    proof {
        assert forall|k: int| 0 <= k < idx implies before_push[k].name != current_section@ by {}
        lemma_append_entry_at(before_push, current_section@, entry.model(), idx as int);
    }
    Ok(())
}

/// Parses MiniConf input into a [`Document`]: the result is exactly the
/// build of the source's parse tree, with syntax errors at the grammar's
/// first failing position and duplicate keys reported with the second
/// occurrence's line.
pub fn parse_document(source: &str) -> (r: Result<Document, MiniConfError>)
    requires
        source@.len() < usize::MAX,
    ensures
        match r {
            Ok(doc) => {
                &&& doc.wf()
                &&& has_section(doc.model(), root_name())
                &&& (text_spec(source@, 0, 1, 0) matches Ok(ns) && wf_nodes(ns) && build_spec(
                    ns,
                ) == Ok::<Seq<SectionModel>, DupModel>(doc.model()))
            },
            Err(e) => match e {
                MiniConfError::Syntax { line, column, .. } => (text_spec(
                    source@,
                    0,
                    1,
                    0,
                ) matches Err(p) && p.line == line as int && p.column == column as int),
                MiniConfError::Semantic { kind, line, message } => kind
                    == ParseErrorKind::DuplicateKey && (text_spec(source@, 0, 1, 0) matches Ok(
                    ns,
                ) && (build_spec(ns) matches Err(d) && d.line == line && message@ == dup_message(
                    d.key,
                    d.section,
                ))),
            },
        },
{
    let parsed = MiniConfParser::parse_text(source);
    let nodes = match parsed {
        Ok(n) => n,
        Err(e) => {
            return Err(e);
        },
    };
    let built = build_document(&nodes);
    match built {
        Ok(doc) => {
            proof {
                lemma_build_keeps_sections(
                    insert_section_spec(Seq::empty(), root_name()),
                    root_name(),
                    node_models(nodes@),
                    root_name(),
                );
            }
            Ok(doc)
        },
        Err(e) => Err(e),
    }
}

/// Folds a parse tree into a [`Document`], stopping at the first
/// duplicate key.
pub fn build_document(nodes: &Vec<Node>) -> (r: Result<Document, MiniConfError>)
    ensures
        match build_spec(node_models(nodes@)) {
            Ok(m) => r matches Ok(doc) && doc.model() == m && doc.wf(),
            Err(d) => r matches Err(e) && e matches MiniConfError::Semantic {
                kind,
                line,
                message,
            } && kind == ParseErrorKind::DuplicateKey && line == d.line && message@
                == dup_message(d.key, d.section),
        },
{
    let ghost nodes_m = node_models(nodes@);
    let mut document = Document::new();
    let mut current_section = String::from_str("root");
    document.ensure_section_mut(current_section.as_str());
    proof {
        assert(current_section@ == root_name());
        assert(document.model() == insert_section_spec(Seq::empty(), root_name()));
        assert(nodes_m.skip(0) =~= nodes_m);
    }
    let mut i: usize = 0;
    while i < nodes.len()
        invariant
            nodes_m == node_models(nodes@),
            0 <= i <= nodes@.len(),
            document.wf(),
            build_spec(nodes_m) == build_from(
                document.model(),
                current_section@,
                nodes_m.skip(i as int),
            ),
        decreases nodes@.len() - i,
    {
        let ghost rest = nodes_m.skip(i as int);
        proof {
            assert(rest[0] == nodes_m[i as int]);
            assert(nodes_m[i as int] == nodes@[i as int].model());
            assert(rest.drop_first() =~= nodes_m.skip(i as int + 1));
        }
        match &nodes[i] {
            Node::Header { name, line } => {
                let name_s = string_from_chars(name);
                current_section = name_s;
                document.ensure_section_mut(current_section.as_str());
            },
            Node::Pair { key, value, line } => {
                let key_s = string_from_chars(key);
                let res = handle_key_value(
                    &mut document,
                    current_section.as_str(),
                    key_s,
                    value,
                    *line,
                );
                match res {
                    Ok(()) => {},
                    Err(e) => {
                        return Err(e);
                    },
                }
            },
        }
        i = i + 1;
    }
    proof {
        assert(nodes_m.skip(nodes@.len() as int).len() == 0);
    }
    Ok(document)
}

/// Building never removes a section: whatever sections the fold starts
/// with are still present when it succeeds.
pub proof fn lemma_build_keeps_sections(
    secs: Seq<SectionModel>,
    cur: Seq<char>,
    nodes: Seq<NodeModel>,
    name: Seq<char>,
)
    requires
        has_section(secs, name),
    ensures
        build_from(secs, cur, nodes) matches Ok(res) ==> has_section(res, name),
    decreases nodes.len(),
{
    if nodes.len() == 0 {
    } else {
        match nodes[0] {
            NodeModel::Header { name: n2, line } => {
                lemma_insert_has(secs, n2, name);
                lemma_build_keeps_sections(
                    insert_section_spec(secs, n2),
                    n2,
                    nodes.drop_first(),
                    name,
                );
            },
            NodeModel::Pair { key, value, line } => {
                let s1 = insert_section_spec(secs, cur);
                lemma_insert_has(secs, cur, name);
                if !entries_has_key(section_entries(s1, cur), key) {
                    let e = EntryModel { key, value: decode_node(value), line };
                    lemma_append_has(s1, cur, e, name);
                    lemma_build_keeps_sections(
                        append_entry_spec(s1, cur, e),
                        cur,
                        nodes.drop_first(),
                        name,
                    );
                }
            },
        }
    }
}

/// Inserting a section leaves every present section present, and makes
/// the inserted name present.
pub proof fn lemma_insert_has(secs: Seq<SectionModel>, n2: Seq<char>, name: Seq<char>)
    ensures
        has_section(insert_section_spec(secs, n2), name) == (has_section(secs, name) || name
            == n2),
    decreases secs.len(),
{
    let res = insert_section_spec(secs, n2);
    if secs.len() == 0 {
        assert(res[0].name == n2);
        if has_section(res, name) {
            let i = choose|i: int| 0 <= i < res.len() && res[i].name == name;
            assert(i == 0);
        }
        assert(!has_section(secs, name));
    } else if secs[0].name == n2 {
        if name == n2 {
            assert(secs[0].name == name);
        }
    } else if crate::text::lex_lt(n2, secs[0].name) {
        assert(res == seq![empty_section(n2)] + secs);
        if has_section(secs, name) {
            let i = choose|i: int| 0 <= i < secs.len() && secs[i].name == name;
            assert(res[i + 1].name == name);
        }
        if name == n2 {
            assert(res[0].name == name);
        }
        if has_section(res, name) {
            let i = choose|i: int| 0 <= i < res.len() && res[i].name == name;
            if i == 0 {
                assert(name == n2);
            } else {
                assert(secs[i - 1].name == name);
            }
        }
    } else {
        let rest = secs.drop_first();
        lemma_insert_has(rest, n2, name);
        assert(res == seq![secs[0]] + insert_section_spec(rest, n2));
        let sub = insert_section_spec(rest, n2);
        if has_section(secs, name) {
            let i = choose|i: int| 0 <= i < secs.len() && secs[i].name == name;
            if i == 0 {
                assert(res[0].name == name);
            } else {
                assert(rest[i - 1].name == name);
                let t = choose|t: int| 0 <= t < sub.len() && sub[t].name == name;
                assert(res[t + 1].name == name);
            }
        }
        if name == n2 {
            let t = choose|t: int| 0 <= t < sub.len() && sub[t].name == name;
            assert(res[t + 1].name == name);
        }
        if has_section(res, name) {
            let i = choose|i: int| 0 <= i < res.len() && res[i].name == name;
            if i == 0 {
                assert(secs[0].name == name);
            } else {
                assert(sub[i - 1].name == name);
                if has_section(rest, name) {
                    let t = choose|t: int| 0 <= t < rest.len() && rest[t].name == name;
                    assert(secs[t + 1].name == name);
                }
            }
        }
    }
}

/// Appending an entry changes no section's presence.
pub proof fn lemma_append_has(
    secs: Seq<SectionModel>,
    n2: Seq<char>,
    e: EntryModel,
    name: Seq<char>,
)
    ensures
        has_section(append_entry_spec(secs, n2, e), name) == has_section(secs, name),
    decreases secs.len(),
{
    let res = append_entry_spec(secs, n2, e);
    if secs.len() == 0 {
    } else if secs[0].name == n2 {
        assert(res.len() == secs.len());
        assert(forall|i: int| 0 <= i < secs.len() ==> res[i].name == secs[i].name);
        if has_section(secs, name) {
            let i = choose|i: int| 0 <= i < secs.len() && secs[i].name == name;
            assert(res[i].name == name);
        }
        if has_section(res, name) {
            let i = choose|i: int| 0 <= i < res.len() && res[i].name == name;
            assert(secs[i].name == name);
        }
    } else {
        let rest = secs.drop_first();
        lemma_append_has(rest, n2, e, name);
        let sub = append_entry_spec(rest, n2, e);
        assert(res == seq![secs[0]] + sub);
        assert(sub.len() == rest.len()) by {
            lemma_append_len(rest, n2, e);
        }
        if has_section(secs, name) {
            let i = choose|i: int| 0 <= i < secs.len() && secs[i].name == name;
            if i == 0 {
                assert(res[0].name == name);
            } else {
                assert(rest[i - 1].name == name);
                let t = choose|t: int| 0 <= t < sub.len() && sub[t].name == name;
                assert(res[t + 1].name == name);
            }
        }
        if has_section(res, name) {
            let i = choose|i: int| 0 <= i < res.len() && res[i].name == name;
            if i == 0 {
                assert(secs[0].name == name);
            } else {
                assert(sub[i - 1].name == name);
                let t = choose|t: int| 0 <= t < rest.len() && rest[t].name == name;
                assert(secs[t + 1].name == name);
            }
        }
    }
}

/// Appending an entry keeps the number of sections and every name.
pub proof fn lemma_append_len(secs: Seq<SectionModel>, n2: Seq<char>, e: EntryModel)
    ensures
        append_entry_spec(secs, n2, e).len() == secs.len(),
        forall|i: int|
            0 <= i < secs.len() ==> (#[trigger] append_entry_spec(secs, n2, e)[i]).name
                == secs[i].name,
    decreases secs.len(),
{
    if secs.len() == 0 {
    } else if secs[0].name == n2 {
    } else {
        lemma_append_len(secs.drop_first(), n2, e);
        let res = append_entry_spec(secs, n2, e);
        let sub = append_entry_spec(secs.drop_first(), n2, e);
        assert forall|i: int| 0 <= i < secs.len() implies (#[trigger] res[i]).name
            == secs[i].name by {
            if i > 0 {
                assert(res[i] == sub[i - 1]);
                assert(secs.drop_first()[i - 1] == secs[i]);
            }
        }
    }
}


/// Appending to an entry list adds exactly that key.
pub proof fn lemma_has_key_push(entries: Seq<EntryModel>, e: EntryModel, k: Seq<char>)
    ensures
        entries_has_key(entries.push(e), k) == (entries_has_key(entries, k) || e.key == k),
{
    if entries_has_key(entries, k) {
        let i = choose|i: int| 0 <= i < entries.len() && entries[i].key == k;
        assert(entries.push(e)[i].key == k);
    }
    if e.key == k {
        assert(entries.push(e)[entries.len() as int].key == k);
    }
    if entries_has_key(entries.push(e), k) {
        let i = choose|i: int| 0 <= i < entries.push(e).len() && entries.push(e)[i].key == k;
        if i < entries.len() {
            assert(entries[i].key == k);
        }
    }
}

/// A name that no section bears has no entries.
pub proof fn lemma_section_entries_absent(secs: Seq<SectionModel>, name: Seq<char>)
    requires
        forall|i: int| 0 <= i < secs.len() ==> (#[trigger] secs[i]).name != name,
    ensures
        section_entries(secs, name) == Seq::<EntryModel>::empty(),
    decreases secs.len(),
{
    if secs.len() == 0 {
    } else {
        let rest = secs.drop_first();
        assert forall|i: int| 0 <= i < rest.len() implies (#[trigger] rest[i]).name != name by {
            assert(rest[i] == secs[i + 1]);
        }
        lemma_section_entries_absent(rest, name);
    }
}

/// Inserting a section preserves sortedness.
pub proof fn lemma_insert_sorted(secs: Seq<SectionModel>, n2: Seq<char>)
    requires
        sorted_names(secs),
    ensures
        sorted_names(insert_section_spec(secs, n2)),
    decreases secs.len(),
{
    let res = insert_section_spec(secs, n2);
    if secs.len() == 0 {
        assert(sorted_names(res));
    } else if secs[0].name == n2 {
    } else if crate::text::lex_lt(n2, secs[0].name) {
        assert(res == seq![empty_section(n2)] + secs);
        assert forall|i: int| 0 <= i && i + 1 < res.len() implies #[trigger] crate::text::lex_lt(
            res[i].name,
            res[i + 1].name,
        ) by {
            if i == 0 {
                assert(res[0].name == n2 && res[1] == secs[0]);
            } else {
                assert(res[i] == secs[i - 1] && res[i + 1] == secs[i]);
                let k = i - 1;
                assert(crate::text::lex_lt(secs[k].name, secs[k + 1].name));
            }
        }
    } else {
        let rest = secs.drop_first();
        assert forall|i: int| 0 <= i && i + 1 < rest.len() implies #[trigger] crate::text::lex_lt(
            rest[i].name,
            rest[i + 1].name,
        ) by {
            assert(rest[i] == secs[i + 1] && rest[i + 1] == secs[i + 2]);
            assert(crate::text::lex_lt(secs[i + 1].name, secs[i + 2].name));
        }
        lemma_insert_sorted(rest, n2);
        let sub = insert_section_spec(rest, n2);
        assert(res == seq![secs[0]] + sub);
        assert(sub.len() > 0);
        assert(crate::text::lex_lt(secs[0].name, sub[0].name)) by {
            if rest.len() == 0 {
                assert(sub[0] == empty_section(n2));
                crate::text::lemma_lex_trichotomy(n2, secs[0].name);
            } else if rest[0].name == n2 {
                assert(sub[0] == rest[0]);
                assert(crate::text::lex_lt(secs[0].name, secs[1].name));
                assert(rest[0] == secs[1]);
            } else if crate::text::lex_lt(n2, rest[0].name) {
                assert(sub[0] == empty_section(n2));
                crate::text::lemma_lex_trichotomy(n2, secs[0].name);
            } else {
                assert(sub[0] == rest[0]);
                assert(crate::text::lex_lt(secs[0].name, secs[1].name));
                assert(rest[0] == secs[1]);
            }
        }
        assert forall|i: int| 0 <= i && i + 1 < res.len() implies #[trigger] crate::text::lex_lt(
            res[i].name,
            res[i + 1].name,
        ) by {
            if i == 0 {
                assert(res[0] == secs[0] && res[1] == sub[0]);
            } else {
                assert(res[i] == sub[i - 1] && res[i + 1] == sub[i]);
                let k = i - 1;
                assert(crate::text::lex_lt(sub[k].name, sub[k + 1].name));
            }
        }
    }
}

/// Appending an entry preserves sortedness.
pub proof fn lemma_append_sorted(secs: Seq<SectionModel>, n2: Seq<char>, e: EntryModel)
    requires
        sorted_names(secs),
    ensures
        sorted_names(append_entry_spec(secs, n2, e)),
{
    lemma_append_len(secs, n2, e);
    let res = append_entry_spec(secs, n2, e);
    assert forall|i: int| 0 <= i && i + 1 < res.len() implies #[trigger] crate::text::lex_lt(
        res[i].name,
        res[i + 1].name,
    ) by {
        assert(res[i].name == secs[i].name && res[i + 1].name == secs[i + 1].name);
        assert(crate::text::lex_lt(secs[i].name, secs[i + 1].name));
    }
}

/// In a sorted sequence, inserting a section changes no section's entries.
pub proof fn lemma_insert_entries(secs: Seq<SectionModel>, n2: Seq<char>)
    requires
        sorted_names(secs),
    ensures
        forall|name: Seq<char>| #[trigger]
            section_entries(insert_section_spec(secs, n2), name) == section_entries(secs, name),
    decreases secs.len(),
{
    let res = insert_section_spec(secs, n2);
    if secs.len() == 0 {
        assert(res == seq![empty_section(n2)]);
        assert forall|name: Seq<char>| #[trigger]
            section_entries(res, name) == section_entries(secs, name) by {
            if name == n2 {
                assert(res[0].name == name);
                assert(section_entries(res, name) == empty_section(n2).entries);
            } else {
                assert(res[0].name != name);
                assert(section_entries(res, name) == section_entries(res.drop_first(), name));
                assert(res.drop_first() =~= Seq::<SectionModel>::empty());
            }
        }
    } else if secs[0].name == n2 {
        assert(res == secs);
    } else if crate::text::lex_lt(n2, secs[0].name) {
        assert(res == seq![empty_section(n2)] + secs);
        assert(res.drop_first() =~= secs);
        assert(res[0] == empty_section(n2));
        crate::ast::lemma_sorted_global(secs);
        assert forall|i: int| 0 <= i < secs.len() implies (#[trigger] secs[i]).name != n2 by {
            if i == 0 {
                crate::text::lemma_lex_trichotomy(n2, secs[0].name);
            } else {
                crate::text::lemma_lex_trans(n2, secs[0].name, secs[i].name);
                crate::text::lemma_lex_trichotomy(n2, secs[i].name);
            }
        }
        lemma_section_entries_absent(secs, n2);
        assert forall|name: Seq<char>| #[trigger]
            section_entries(res, name) == section_entries(secs, name) by {
            if name == n2 {
                assert(res[0].name == name);
                assert(section_entries(res, name) == empty_section(n2).entries);
            } else {
                assert(res[0].name != name);
                assert(section_entries(res, name) == section_entries(res.drop_first(), name));
            }
        }
    } else {
        let rest = secs.drop_first();
        assert forall|i: int|
            0 <= i && i + 1 < rest.len() implies #[trigger] crate::text::lex_lt(
            rest[i].name,
            rest[i + 1].name,
        ) by {
            assert(rest[i] == secs[i + 1] && rest[i + 1] == secs[i + 2]);
            let k = i + 1;
            assert(crate::text::lex_lt(secs[k].name, secs[k + 1].name));
        }
        lemma_insert_entries(rest, n2);
        let sub = insert_section_spec(rest, n2);
        assert(res == seq![secs[0]] + sub);
        assert(res[0] == secs[0]);
        assert(res.drop_first() =~= sub);
        assert forall|name: Seq<char>| #[trigger]
            section_entries(res, name) == section_entries(secs, name) by {
            if name == secs[0].name {
                assert(section_entries(res, name) == secs[0].entries);
                assert(section_entries(secs, name) == secs[0].entries);
            } else {
                assert(section_entries(res, name) == section_entries(res.drop_first(), name));
                assert(section_entries(sub, name) == section_entries(rest, name));
                assert(section_entries(secs, name) == section_entries(rest, name));
            }
        }
    }
}

/// Appending an entry extends exactly the named section's entries.
pub proof fn lemma_append_entries(secs: Seq<SectionModel>, n2: Seq<char>, e: EntryModel)
    ensures
        forall|name: Seq<char>| #[trigger]
            section_entries(append_entry_spec(secs, n2, e), name) == if name == n2
                && has_section(secs, n2) {
                section_entries(secs, n2).push(e)
            } else {
                section_entries(secs, name)
            },
    decreases secs.len(),
{
    let res = append_entry_spec(secs, n2, e);
    assert forall|name: Seq<char>| #[trigger]
        section_entries(res, name) == (if name == n2 && has_section(secs, n2) {
            section_entries(secs, n2).push(e)
        } else {
            section_entries(secs, name)
        }) by {
        if secs.len() == 0 {
            if has_section(secs, n2) {
                let i = choose|i: int| 0 <= i < secs.len() && secs[i].name == n2;
                assert(false);
            }
        } else if secs[0].name == n2 {
            assert(secs[0].name == n2);
            assert(has_section(secs, n2));
            let upd = SectionModel { name: secs[0].name, entries: secs[0].entries.push(e) };
            assert(res == seq![upd] + secs.drop_first());
            assert(res[0] == upd);
            if name == n2 {
                assert(section_entries(res, name) == upd.entries);
                assert(section_entries(secs, n2) == secs[0].entries);
            } else {
                assert(res.drop_first() =~= secs.drop_first());
            }
        } else {
            let rest = secs.drop_first();
            lemma_append_entries(rest, n2, e);
            let sub = append_entry_spec(rest, n2, e);
            assert(res == seq![secs[0]] + sub);
            assert(res[0] == secs[0]);
            assert(has_section(secs, n2) == has_section(rest, n2)) by {
                if has_section(secs, n2) {
                    let i = choose|i: int| 0 <= i < secs.len() && secs[i].name == n2;
                    assert(i != 0);
                    assert(rest[i - 1].name == n2);
                }
                if has_section(rest, n2) {
                    let i = choose|i: int| 0 <= i < rest.len() && rest[i].name == n2;
                    assert(secs[i + 1].name == n2);
                }
            }
            if name == secs[0].name {
                assert(name != n2);
                assert(section_entries(res, name) == secs[0].entries);
                assert(section_entries(secs, name) == secs[0].entries);
            } else {
                assert(res.drop_first() =~= sub);
                assert(section_entries(res, name) == section_entries(sub, name));
                assert(section_entries(secs, name) == section_entries(rest, name));
                if name == n2 {
                    assert(section_entries(secs, n2) == section_entries(rest, n2));
                }
            }
        }
    }
}


/// Specification-level record of one key declaration: the section it
/// lands in, the key, its decoded value and its source line.
pub struct DeclModel {
    /// The section the declaration lands in.
    pub section: Seq<char>,
    /// The declared key.
    pub key: Seq<char>,
    /// The decoded value.
    pub value: ValueModel,
    /// 1-based source line of the key token.
    pub line: usize,
}

/// The key declarations of a parse tree, in order, each resolved to the
/// section it lands in (`cur` being the section in effect at the start).
pub open spec fn decls(cur: Seq<char>, nodes: Seq<NodeModel>) -> Seq<DeclModel>
    decreases nodes.len(),
{
    if nodes.len() == 0 {
        Seq::empty()
    } else {
        match nodes[0] {
            NodeModel::Header { name, line } => decls(name, nodes.drop_first()),
            NodeModel::Pair { key, value, line } => seq![
                DeclModel { section: cur, key, value: decode_node(value), line },
            ] + decls(cur, nodes.drop_first()),
        }
    }
}

/// Whether the declaration at `j` re-declares an earlier declaration's
/// key in the same section.
pub open spec fn dup_at(ds: Seq<DeclModel>, j: int) -> bool {
    exists|i: int| 0 <= i < j && ds[i].section == ds[j].section && ds[i].key == ds[j].key
}

/// Whether any declaration re-declares a key in its section.
pub open spec fn has_dup(ds: Seq<DeclModel>) -> bool {
    exists|j: int| 0 <= j < ds.len() && dup_at(ds, j)
}

/// The entries that the declarations for section `name` contribute, in
/// declaration order.
pub open spec fn decl_entries(name: Seq<char>, cur: Seq<char>, nodes: Seq<NodeModel>) -> Seq<
    EntryModel,
>
    decreases nodes.len(),
{
    if nodes.len() == 0 {
        Seq::empty()
    } else {
        match nodes[0] {
            NodeModel::Header { name: n2, line } => decl_entries(name, n2, nodes.drop_first()),
            NodeModel::Pair { key, value, line } => {
                if cur == name {
                    seq![EntryModel { key, value: decode_node(value), line }] + decl_entries(
                        name,
                        cur,
                        nodes.drop_first(),
                    )
                } else {
                    decl_entries(name, cur, nodes.drop_first())
                }
            },
        }
    }
}

proof fn lemma_build_ok(secs: Seq<SectionModel>, cur: Seq<char>, nodes: Seq<NodeModel>)
    requires
        sorted_names(secs),
        forall|j: int|
            0 <= j < decls(cur, nodes).len() ==> !entries_has_key(
                section_entries(secs, (#[trigger] decls(cur, nodes)[j]).section),
                decls(cur, nodes)[j].key,
            ) && !dup_at(decls(cur, nodes), j),
    ensures
        build_from(secs, cur, nodes) is Ok,
        forall|name: Seq<char>| #[trigger]
            section_entries(build_from(secs, cur, nodes)->Ok_0, name) == section_entries(
                secs,
                name,
            ) + decl_entries(name, cur, nodes),
    decreases nodes.len(),
{
    let ds = decls(cur, nodes);
    if nodes.len() == 0 {
        assert forall|name: Seq<char>| #[trigger]
            section_entries(build_from(secs, cur, nodes)->Ok_0, name) == section_entries(
                secs,
                name,
            ) + decl_entries(name, cur, nodes) by {
            assert(section_entries(secs, name) + Seq::<EntryModel>::empty() =~= section_entries(
                secs,
                name,
            ));
        }
    } else {
        match nodes[0] {
            NodeModel::Header { name: n2, line } => {
                let secs2 = insert_section_spec(secs, n2);
                lemma_insert_sorted(secs, n2);
                lemma_insert_entries(secs, n2);
                assert(decls(n2, nodes.drop_first()) == ds);
                assert forall|j: int|
                    0 <= j < decls(n2, nodes.drop_first()).len() implies !entries_has_key(
                    section_entries(
                        secs2,
                        (#[trigger] decls(n2, nodes.drop_first())[j]).section,
                    ),
                    decls(n2, nodes.drop_first())[j].key,
                ) && !dup_at(decls(n2, nodes.drop_first()), j) by {
                    assert(section_entries(secs2, ds[j].section) == section_entries(
                        secs,
                        ds[j].section,
                    ));
                }
                lemma_build_ok(secs2, n2, nodes.drop_first());
                assert forall|name: Seq<char>| #[trigger]
                    section_entries(build_from(secs, cur, nodes)->Ok_0, name)
                    == section_entries(secs, name) + decl_entries(name, cur, nodes) by {
                    assert(section_entries(build_from(secs2, n2, nodes.drop_first())->Ok_0, name)
                        == section_entries(secs2, name) + decl_entries(
                        name,
                        n2,
                        nodes.drop_first(),
                    ));
                    assert(section_entries(secs2, name) == section_entries(secs, name));
                    assert(decl_entries(name, cur, nodes) == decl_entries(
                        name,
                        n2,
                        nodes.drop_first(),
                    ));
                }
            },
            NodeModel::Pair { key, value, line } => {
                let d0 = DeclModel { section: cur, key, value: decode_node(value), line };
                let rest = nodes.drop_first();
                let ds2 = decls(cur, rest);
                assert(ds == seq![d0] + ds2);
                assert(ds[0] == d0);
                let s1 = insert_section_spec(secs, cur);
                lemma_insert_sorted(secs, cur);
                lemma_insert_entries(secs, cur);
                assert(section_entries(s1, cur) == section_entries(secs, cur));
                assert(!entries_has_key(section_entries(secs, cur), key));
                let e0 = EntryModel { key, value: decode_node(value), line };
                let secs2 = append_entry_spec(s1, cur, e0);
                lemma_append_sorted(s1, cur, e0);
                lemma_append_entries(s1, cur, e0);
                lemma_insert_has(secs, cur, cur);
                assert(has_section(s1, cur));
                assert forall|j: int|
                    0 <= j < decls(cur, rest).len() implies !entries_has_key(
                    section_entries(secs2, (#[trigger] decls(cur, rest)[j]).section),
                    decls(cur, rest)[j].key,
                ) && !dup_at(decls(cur, rest), j) by {
                    assert(ds2[j] == ds[j + 1]);
                    assert(!entries_has_key(section_entries(secs, ds[j + 1].section), ds[j
                        + 1].key));
                    assert(!dup_at(ds, j + 1));
                    if dup_at(ds2, j) {
                        let i = choose|i: int|
                            0 <= i < j && ds2[i].section == ds2[j].section && ds2[i].key
                                == ds2[j].key;
                        assert(ds[i + 1].section == ds[j + 1].section && ds[i + 1].key == ds[j
                            + 1].key);
                        assert(dup_at(ds, j + 1));
                    }
                    if ds2[j].section == cur {
                        assert(section_entries(secs2, cur) == section_entries(s1, cur).push(e0));
                        lemma_has_key_push(section_entries(s1, cur), e0, ds2[j].key);
                        if ds2[j].key == e0.key {
                            assert(ds[0].section == ds[j + 1].section && ds[0].key == ds[j
                                + 1].key);
                            assert(dup_at(ds, j + 1));
                        }
                    } else {
                        assert(section_entries(secs2, ds2[j].section) == section_entries(
                            s1,
                            ds2[j].section,
                        ));
                        assert(section_entries(s1, ds2[j].section) == section_entries(
                            secs,
                            ds2[j].section,
                        ));
                    }
                }
                lemma_build_ok(secs2, cur, rest);
                assert(build_from(secs, cur, nodes) == build_from(secs2, cur, rest));
                assert forall|name: Seq<char>| #[trigger]
                    section_entries(build_from(secs, cur, nodes)->Ok_0, name)
                    == section_entries(secs, name) + decl_entries(name, cur, nodes) by {
                    assert(section_entries(build_from(secs2, cur, rest)->Ok_0, name)
                        == section_entries(secs2, name) + decl_entries(name, cur, rest));
                    if name == cur {
                        assert(section_entries(secs2, cur) == section_entries(s1, cur).push(e0));
                        assert(section_entries(s1, name) == section_entries(secs, name));
                        assert(decl_entries(name, cur, nodes) == seq![e0] + decl_entries(
                            name,
                            cur,
                            rest,
                        ));
                        assert(section_entries(secs, name).push(e0) + decl_entries(
                            name,
                            cur,
                            rest,
                        ) =~= section_entries(secs, name) + (seq![e0] + decl_entries(
                            name,
                            cur,
                            rest,
                        )));
                    } else {
                        assert(section_entries(secs2, name) == section_entries(s1, name));
                        assert(section_entries(s1, name) == section_entries(secs, name));
                        assert(decl_entries(name, cur, nodes) == decl_entries(name, cur, rest));
                    }
                }
            },
        }
    }
}

proof fn lemma_build_err(secs: Seq<SectionModel>, cur: Seq<char>, nodes: Seq<NodeModel>, j: int)
    requires
        sorted_names(secs),
        0 <= j < decls(cur, nodes).len(),
        forall|t: int|
            0 <= t < j ==> !entries_has_key(
                section_entries(secs, (#[trigger] decls(cur, nodes)[t]).section),
                decls(cur, nodes)[t].key,
            ) && !dup_at(decls(cur, nodes), t),
        entries_has_key(
            section_entries(secs, decls(cur, nodes)[j].section),
            decls(cur, nodes)[j].key,
        ) || dup_at(decls(cur, nodes), j),
    ensures
        build_from(secs, cur, nodes) matches Err(d) && d.line == decls(cur, nodes)[j].line
            && d.key == decls(cur, nodes)[j].key && d.section == decls(cur, nodes)[j].section,
    decreases nodes.len(),
{
    let ds = decls(cur, nodes);
    assert(nodes.len() > 0);
    match nodes[0] {
        NodeModel::Header { name: n2, line } => {
            let secs2 = insert_section_spec(secs, n2);
            lemma_insert_sorted(secs, n2);
            lemma_insert_entries(secs, n2);
            assert(decls(n2, nodes.drop_first()) == ds);
            assert forall|t: int|
                0 <= t < j implies !entries_has_key(
                section_entries(secs2, (#[trigger] decls(n2, nodes.drop_first())[t]).section),
                decls(n2, nodes.drop_first())[t].key,
            ) && !dup_at(decls(n2, nodes.drop_first()), t) by {
                assert(section_entries(secs2, ds[t].section) == section_entries(
                    secs,
                    ds[t].section,
                ));
            }
            assert(section_entries(secs2, ds[j].section) == section_entries(secs, ds[j].section));
            lemma_build_err(secs2, n2, nodes.drop_first(), j);
        },
        NodeModel::Pair { key, value, line } => {
            let d0 = DeclModel { section: cur, key, value: decode_node(value), line };
            let rest = nodes.drop_first();
            let ds2 = decls(cur, rest);
            assert(ds == seq![d0] + ds2);
            assert(ds[0] == d0);
            let s1 = insert_section_spec(secs, cur);
            lemma_insert_sorted(secs, cur);
            lemma_insert_entries(secs, cur);
            assert(section_entries(s1, cur) == section_entries(secs, cur));
            if j == 0 {
                assert(!dup_at(ds, 0));
                assert(entries_has_key(section_entries(secs, cur), key));
                assert(entries_has_key(section_entries(s1, cur), key));
                assert(build_from(secs, cur, nodes) == Err::<Seq<SectionModel>, DupModel>(
                    DupModel { line, key, section: cur },
                ));
            } else {
                assert(!entries_has_key(section_entries(secs, ds[0].section), ds[0].key));
                assert(!entries_has_key(section_entries(s1, cur), key));
                let e0 = EntryModel { key, value: decode_node(value), line };
                let secs2 = append_entry_spec(s1, cur, e0);
                lemma_append_sorted(s1, cur, e0);
                lemma_append_entries(s1, cur, e0);
                lemma_insert_has(secs, cur, cur);
                assert(has_section(s1, cur));
                assert(build_from(secs, cur, nodes) == build_from(secs2, cur, rest));
                assert(ds2[j - 1] == ds[j]);
                assert forall|t: int|
                    0 <= t < j - 1 implies !entries_has_key(
                    section_entries(secs2, (#[trigger] decls(cur, rest)[t]).section),
                    decls(cur, rest)[t].key,
                ) && !dup_at(decls(cur, rest), t) by {
                    assert(ds2[t] == ds[t + 1]);
                    assert(!entries_has_key(section_entries(secs, ds[t + 1].section), ds[t
                        + 1].key));
                    assert(!dup_at(ds, t + 1));
                    if dup_at(ds2, t) {
                        let i = choose|i: int|
                            0 <= i < t && ds2[i].section == ds2[t].section && ds2[i].key
                                == ds2[t].key;
                        assert(ds[i + 1].section == ds[t + 1].section && ds[i + 1].key == ds[t
                            + 1].key);
                        assert(dup_at(ds, t + 1));
                    }
                    if ds2[t].section == cur {
                        assert(section_entries(secs2, cur) == section_entries(s1, cur).push(e0));
                        lemma_has_key_push(section_entries(s1, cur), e0, ds2[t].key);
                        if ds2[t].key == e0.key {
                            assert(ds[0].section == ds[t + 1].section && ds[0].key == ds[t
                                + 1].key);
                            assert(dup_at(ds, t + 1));
                        }
                    } else {
                        assert(section_entries(secs2, ds2[t].section) == section_entries(
                            s1,
                            ds2[t].section,
                        ));
                    }
                }
                assert(entries_has_key(section_entries(secs2, ds2[j - 1].section), ds2[j
                    - 1].key) || dup_at(ds2, j - 1)) by {
                    if entries_has_key(section_entries(secs, ds[j].section), ds[j].key) {
                        if ds[j].section == cur {
                            assert(section_entries(secs2, cur) == section_entries(s1, cur).push(
                                e0,
                            ));
                            lemma_has_key_push(section_entries(s1, cur), e0, ds[j].key);
                        } else {
                            assert(section_entries(secs2, ds[j].section) == section_entries(
                                s1,
                                ds[j].section,
                            ));
                            assert(section_entries(s1, ds[j].section) == section_entries(
                                secs,
                                ds[j].section,
                            ));
                        }
                    } else {
                        assert(dup_at(ds, j));
                        let i = choose|i: int|
                            0 <= i < j && ds[i].section == ds[j].section && ds[i].key
                                == ds[j].key;
                        if i == 0 {
                            assert(ds[j].section == cur && ds[j].key == e0.key);
                            assert(section_entries(secs2, cur) == section_entries(s1, cur).push(
                                e0,
                            ));
                            lemma_has_key_push(section_entries(s1, cur), e0, ds[j].key);
                        } else {
                            assert(ds2[i - 1].section == ds2[j - 1].section && ds2[i - 1].key
                                == ds2[j - 1].key);
                            assert(dup_at(ds2, j - 1));
                        }
                    }
                }
                lemma_build_err(secs2, cur, rest, j - 1);
            }
        },
    }
}

/// Law: while no section header has appeared, every declaration lands in
/// the section in effect at the start; a whole input without headers
/// therefore puts every entry in the root section the build begins with.
pub proof fn lemma_no_headers_all_in_current(cur: Seq<char>, nodes: Seq<NodeModel>)
    requires
        forall|t: int| 0 <= t < nodes.len() ==> !((#[trigger] nodes[t]) is Header),
    ensures
        forall|j: int|
            0 <= j < decls(cur, nodes).len() ==> (#[trigger] decls(cur, nodes)[j]).section
                == cur,
    decreases nodes.len(),
{
    if nodes.len() == 0 {
    } else {
        let rest = nodes.drop_first();
        assert(!(nodes[0] is Header));
        assert forall|t: int| 0 <= t < rest.len() implies !((#[trigger] rest[t]) is Header) by {
            assert(rest[t] == nodes[t + 1]);
        }
        lemma_no_headers_all_in_current(cur, rest);
        match nodes[0] {
            NodeModel::Header { .. } => {
                assert(false);
            },
            NodeModel::Pair { key, value, line } => {
                let ds = decls(cur, nodes);
                let ds2 = decls(cur, rest);
                assert forall|j: int| 0 <= j < ds.len() implies (#[trigger] ds[j]).section
                    == cur by {
                    if j > 0 {
                        assert(ds[j] == ds2[j - 1]);
                    }
                }
            },
        }
    }
}

/// Law: when no key is declared twice in the same section, building
/// succeeds, and each section holds exactly the entries declared for it,
/// in declaration order.
pub proof fn lemma_unique_keys_build_ok(nodes: Seq<NodeModel>)
    requires
        !has_dup(decls(root_name(), nodes)),
    ensures
        build_spec(nodes) is Ok,
        forall|name: Seq<char>| #[trigger]
            section_entries(build_spec(nodes)->Ok_0, name) == decl_entries(
                name,
                root_name(),
                nodes,
            ),
{
    let secs0 = insert_section_spec(Seq::empty(), root_name());
    assert(secs0 == seq![empty_section(root_name())]);
    assert(sorted_names(secs0));
    assert forall|name: Seq<char>| #[trigger]
        section_entries(secs0, name) == Seq::<EntryModel>::empty() by {
        if name == root_name() {
            assert(secs0[0].name == name);
            assert(section_entries(secs0, name) == empty_section(root_name()).entries);
        } else {
            assert(secs0[0].name != name);
            assert(section_entries(secs0, name) == section_entries(secs0.drop_first(), name));
            assert(secs0.drop_first() =~= Seq::<SectionModel>::empty());
        }
    }
    let ds = decls(root_name(), nodes);
    assert forall|j: int|
        0 <= j < ds.len() implies !entries_has_key(
        section_entries(secs0, (#[trigger] ds[j]).section),
        ds[j].key,
    ) && !dup_at(ds, j) by {
        assert(section_entries(secs0, ds[j].section) == Seq::<EntryModel>::empty());
        if entries_has_key(Seq::<EntryModel>::empty(), ds[j].key) {
            let i = choose|i: int|
                0 <= i < Seq::<EntryModel>::empty().len() && Seq::<EntryModel>::empty()[i].key
                    == ds[j].key;
            assert(false);
        }
    }
    lemma_build_ok(secs0, root_name(), nodes);
    assert forall|name: Seq<char>| #[trigger]
        section_entries(build_spec(nodes)->Ok_0, name) == decl_entries(
            name,
            root_name(),
            nodes,
        ) by {
        assert(section_entries(build_from(secs0, root_name(), nodes)->Ok_0, name)
            == section_entries(secs0, name) + decl_entries(name, root_name(), nodes));
        assert(Seq::<EntryModel>::empty() + decl_entries(name, root_name(), nodes)
            =~= decl_entries(name, root_name(), nodes));
    }
}

/// Law: the first re-declaration of a key in its section stops the build
/// with the duplicate-key failure, reporting that occurrence's section,
/// key and line.
pub proof fn lemma_duplicate_key_detected(nodes: Seq<NodeModel>, j: int)
    requires
        0 <= j < decls(root_name(), nodes).len(),
        dup_at(decls(root_name(), nodes), j),
        forall|t: int| 0 <= t < j ==> !dup_at(decls(root_name(), nodes), t),
    ensures
        build_spec(nodes) matches Err(d) && d.line == decls(root_name(), nodes)[j].line && d.key
            == decls(root_name(), nodes)[j].key && d.section == decls(
            root_name(),
            nodes,
        )[j].section,
{
    let secs0 = insert_section_spec(Seq::empty(), root_name());
    assert(secs0 == seq![empty_section(root_name())]);
    assert(sorted_names(secs0));
    assert forall|name: Seq<char>| #[trigger]
        section_entries(secs0, name) == Seq::<EntryModel>::empty() by {
        if name == root_name() {
            assert(secs0[0].name == name);
            assert(section_entries(secs0, name) == empty_section(root_name()).entries);
        } else {
            assert(secs0[0].name != name);
            assert(section_entries(secs0, name) == section_entries(secs0.drop_first(), name));
            assert(secs0.drop_first() =~= Seq::<SectionModel>::empty());
        }
    }
    let ds = decls(root_name(), nodes);
    assert forall|t: int|
        0 <= t < j implies !entries_has_key(
        section_entries(secs0, (#[trigger] ds[t]).section),
        ds[t].key,
    ) && !dup_at(ds, t) by {
        assert(section_entries(secs0, ds[t].section) == Seq::<EntryModel>::empty());
        if entries_has_key(Seq::<EntryModel>::empty(), ds[t].key) {
            let i = choose|i: int|
                0 <= i < Seq::<EntryModel>::empty().len() && Seq::<EntryModel>::empty()[i].key
                    == ds[t].key;
            assert(false);
        }
    }
    lemma_build_err(secs0, root_name(), nodes, j);
}


/// Law, at the source level: a source text that parses and declares no
/// key twice in the same section builds successfully, and each section
/// holds exactly the entries declared for it, in declaration order.
pub proof fn lemma_source_unique_keys_ok(src: Seq<char>)
    requires
        text_spec(src, 0, 1, 0) is Ok,
        !has_dup(decls(root_name(), text_spec(src, 0, 1, 0)->Ok_0)),
    ensures
        build_spec(text_spec(src, 0, 1, 0)->Ok_0) is Ok,
        forall|name: Seq<char>| #[trigger]
            section_entries(build_spec(text_spec(src, 0, 1, 0)->Ok_0)->Ok_0, name)
                == decl_entries(name, root_name(), text_spec(src, 0, 1, 0)->Ok_0),
{
    lemma_unique_keys_build_ok(text_spec(src, 0, 1, 0)->Ok_0);
}

/// Law, at the source level: the first re-declaration of a key in its
/// section stops the build of a parsed source with the duplicate-key
/// failure, reporting that occurrence's section, key and line.
pub proof fn lemma_source_duplicate_key(src: Seq<char>, j: int)
    requires
        text_spec(src, 0, 1, 0) is Ok,
        0 <= j < decls(root_name(), text_spec(src, 0, 1, 0)->Ok_0).len(),
        dup_at(decls(root_name(), text_spec(src, 0, 1, 0)->Ok_0), j),
        forall|t: int|
            0 <= t < j ==> !dup_at(decls(root_name(), text_spec(src, 0, 1, 0)->Ok_0), t),
    ensures
        ({
            let ds = decls(root_name(), text_spec(src, 0, 1, 0)->Ok_0);
            build_spec(text_spec(src, 0, 1, 0)->Ok_0) matches Err(d) && d.line == ds[j].line
                && d.key == ds[j].key && d.section == ds[j].section
        }),
{
    lemma_duplicate_key_detected(text_spec(src, 0, 1, 0)->Ok_0, j);
}

} // verus!
