//! The grammar engine: recognizes the MiniConf concrete syntax and produces
//! a parse tree of top-level nodes, or a syntax error for the first position
//! where no grammar alternative matches.
//!
//! The grammar, informally:
//! ```text
//! file           := (comment | section_header | key_value | blank)*
//! comment        := "#" any_char* newline
//! section_header := "[" ident ("-" ident)* "]"
//! key_value      := ident "=" value [comment]
//! value          := quoted_string | array | number | boolean | bare_string
//! quoted_string  := '"' ( '\\' any_char | not('"' | newline) )* '"'
//! number         := "-"? digit+ ("." digit+)?
//! boolean        := "true" | "false" | "yes" | "no"
//! array          := "[" (value ("," value)*)? "]"
//! bare_string    := (alnum | "_" | "-")+
//! ```
//! Spaces and tabs are insignificant between tokens; a newline ends a
//! section header or key/value line, so no value (arrays included) spans
//! lines.

use vstd::prelude::*;

use crate::error::MiniConfError;
use crate::text::chars_of;
use crate::text::string_from_chars;

verus! {

/// Specification-level model of a value node.
pub enum ValueNodeModel {
    /// A quoted string: the characters between the quotes, escapes intact.
    Quoted { body: Seq<char>, line: usize },
    /// A bare string token.
    Bare { text: Seq<char> },
    /// A numeric literal token.
    Num { text: Seq<char>, line: usize },
    /// A boolean keyword token.
    Word { text: Seq<char> },
    /// An array of nested value nodes.
    Arr { items: Seq<ValueNodeModel> },
}

/// A matched value literal in the parse tree, not yet decoded.
#[derive(Debug)]
pub enum ValueNode {
    /// A quoted string: the characters between the quotes, escapes intact.
    Quoted {
        /// Characters between the quotes.
        body: Vec<char>,
        /// 1-based source line of the literal.
        line: usize,
    },
    /// A bare string token.
    Bare {
        /// The token's characters.
        text: Vec<char>,
    },
    /// A numeric literal token.
    Num {
        /// The token's characters.
        text: Vec<char>,
        /// 1-based source line of the literal.
        line: usize,
    },
    /// A boolean keyword token.
    Word {
        /// The token's characters.
        text: Vec<char>,
    },
    /// An array of nested value nodes.
    Arr {
        /// The element nodes, in source order.
        items: Vec<ValueNode>,
    },
}

impl ValueNode {
    /// The model of this value node.
    pub open spec fn model(self) -> ValueNodeModel
        decreases self,
    {
        match self {
            ValueNode::Quoted { body, line } => ValueNodeModel::Quoted { body: body@, line },
            ValueNode::Bare { text } => ValueNodeModel::Bare { text: text@ },
            ValueNode::Num { text, line } => ValueNodeModel::Num { text: text@, line },
            ValueNode::Word { text } => ValueNodeModel::Word { text: text@ },
            ValueNode::Arr { items } => ValueNodeModel::Arr { items: vnode_models(items@) },
        }
    }
}

/// The models of a sequence of value nodes, in order. The range guard
/// keeps the recursion well-founded; an out-of-range index is never read.
pub open spec fn vnode_models(vs: Seq<ValueNode>) -> Seq<ValueNodeModel>
    decreases vs,
{
    Seq::new(
        vs.len(),
        |i: int|
            if 0 <= i < vs.len() {
                vs[i].model()
            } else {
                ValueNodeModel::Bare { text: Seq::empty() }
            },
    )
}

/// Specification-level model of a top-level node.
pub enum NodeModel {
    /// A section header.
    Header { name: Seq<char>, line: usize },
    /// A key/value line.
    Pair { key: Seq<char>, value: ValueNodeModel, line: usize },
}

/// A top-level node of the parse tree.
#[derive(Debug)]
pub enum Node {
    /// A section header.
    Header {
        /// The section name between the brackets.
        name: Vec<char>,
        /// 1-based source line of the header.
        line: usize,
    },
    /// A key/value line.
    Pair {
        /// The key token.
        key: Vec<char>,
        /// The matched value literal.
        value: ValueNode,
        /// 1-based source line of the key token.
        line: usize,
    },
}

impl Node {
    /// The model of this node.
    pub open spec fn model(self) -> NodeModel {
        match self {
            Node::Header { name, line } => NodeModel::Header { name: name@, line },
            Node::Pair { key, value, line } => NodeModel::Pair {
                key: key@,
                value: value.model(),
                line,
            },
        }
    }
}

/// The models of a sequence of nodes, in order.
pub open spec fn node_models(ns: Seq<Node>) -> Seq<NodeModel> {
    Seq::new(ns.len(), |i: int| ns[i].model())
}

/// Inline whitespace: spaces, tabs and carriage returns.
pub open spec fn is_space_char(c: char) -> bool {
    c == ' ' || c == '\t' || c == '\r'
}

/// A decimal digit.
pub open spec fn is_digit_char(c: char) -> bool {
    '0' <= c && c <= '9'
}

/// A character allowed in identifiers: letters, digits and underscores.
pub open spec fn is_ident_char(c: char) -> bool {
    is_digit_char(c) || ('a' <= c && c <= 'z') || ('A' <= c && c <= 'Z') || c == '_'
}

/// A character allowed in bare strings: identifier characters and hyphens.
pub open spec fn is_bare_char(c: char) -> bool {
    is_ident_char(c) || c == '-'
}

/// A well-formed identifier token: non-empty, identifier characters only.
pub open spec fn wf_ident(s: Seq<char>) -> bool {
    s.len() > 0 && forall|k: int| 0 <= k < s.len() ==> is_ident_char(#[trigger] s[k])
}

/// A well-formed section name: non-empty identifiers joined by single
/// hyphens, so it neither starts nor ends with a hyphen.
pub open spec fn wf_name(s: Seq<char>) -> bool {
    &&& s.len() > 0
    &&& forall|k: int| 0 <= k < s.len() ==> is_bare_char(#[trigger] s[k])
    &&& is_ident_char(s[0])
    &&& is_ident_char(s[s.len() - 1])
}

/// A well-formed bare string token: non-empty, bare characters only.
pub open spec fn wf_bare(s: Seq<char>) -> bool {
    s.len() > 0 && forall|k: int| 0 <= k < s.len() ==> is_bare_char(#[trigger] s[k])
}

/// One of the boolean keywords.
pub open spec fn is_bool_word(s: Seq<char>) -> bool {
    s == "true"@ || s == "false"@ || s == "yes"@ || s == "no"@
}

/// A non-empty run of decimal digits.
pub open spec fn digit_run(s: Seq<char>) -> bool {
    s.len() > 0 && forall|k: int| 0 <= k < s.len() ==> is_digit_char(#[trigger] s[k])
}

/// An unsigned numeric token: a digit run, optionally followed by a dot
/// and another digit run.
pub open spec fn wf_unsigned_number(u: Seq<char>) -> bool {
    exists|k: int|
        0 < k <= u.len() && digit_run(#[trigger] u.subrange(0, k)) && (k == u.len() || (k + 1
            < u.len() && u[k] == '.' && digit_run(u.subrange(k + 1, u.len() as int))))
}

/// A well-formed numeric token: an optional sign, a digit run, and an
/// optional dot followed by another digit run.
pub open spec fn wf_number(s: Seq<char>) -> bool {
    if s.len() > 0 && s[0] == '-' {
        wf_unsigned_number(s.drop_first())
    } else {
        wf_unsigned_number(s)
    }
}

/// A well-formed value node.
pub open spec fn wf_value_node(v: ValueNodeModel) -> bool
    decreases v,
{
    match v {
        ValueNodeModel::Quoted { body, line } => line >= 1,
        ValueNodeModel::Bare { text } => wf_bare(text),
        ValueNodeModel::Num { text, line } => wf_number(text) && line >= 1,
        ValueNodeModel::Word { text } => is_bool_word(text),
        ValueNodeModel::Arr { items } => wf_vnode_list(items),
    }
}

/// Every node of the list is well-formed.
pub open spec fn wf_vnode_list(items: Seq<ValueNodeModel>) -> bool
    decreases items,
{
    if items.len() == 0 {
        true
    } else {
        wf_value_node(items[0]) && wf_vnode_list(items.drop_first())
    }
}

/// Appending to a list keeps it well-formed exactly when both parts are.
pub proof fn lemma_wf_list_push(items: Seq<ValueNodeModel>, v: ValueNodeModel)
    ensures
        wf_vnode_list(items.push(v)) == (wf_vnode_list(items) && wf_value_node(v)),
    decreases items.len(),
{
    if items.len() == 0 {
        assert(items.push(v)[0] == v);
        assert(items.push(v).drop_first() =~= Seq::<ValueNodeModel>::empty());
        assert(wf_vnode_list(items.push(v).drop_first()));
        assert(wf_vnode_list(items.push(v)) == (wf_value_node(items.push(v)[0])
            && wf_vnode_list(items.push(v).drop_first())));
    } else {
        assert(items.push(v)[0] == items[0]);
        assert(items.push(v).drop_first() =~= items.drop_first().push(v));
        lemma_wf_list_push(items.drop_first(), v);
        assert(wf_vnode_list(items.push(v)) == (wf_value_node(items.push(v)[0])
            && wf_vnode_list(items.push(v).drop_first())));
        assert(wf_vnode_list(items) == (wf_value_node(items[0]) && wf_vnode_list(
            items.drop_first(),
        )));
    }
}

/// A well-formed top-level node.
pub open spec fn wf_node(n: NodeModel) -> bool {
    match n {
        NodeModel::Header { name, line } => wf_name(name) && line >= 1,
        NodeModel::Pair { key, value, line } => wf_ident(key) && line >= 1 && wf_value_node(
            value,
        ),
    }
}

/// Every node of the sequence is well-formed.
pub open spec fn wf_nodes(ns: Seq<NodeModel>) -> bool {
    forall|i: int| 0 <= i < ns.len() ==> wf_node(#[trigger] ns[i])
}


/// A source position where the grammar stopped: 1-based line and column.
pub struct SyntaxPosModel {
    /// 1-based line of the first position where no alternative matches.
    pub line: int,
    /// 1-based column of that position.
    pub column: int,
}

/// The position after the run of inline whitespace starting at `i`.
pub open spec fn skip_spaces_spec(cs: Seq<char>, i: int) -> int
    decreases cs.len() - i,
{
    if 0 <= i < cs.len() && is_space_char(cs[i]) {
        skip_spaces_spec(cs, i + 1)
    } else {
        i
    }
}

/// The position after the run of identifier characters starting at `i`.
pub open spec fn scan_ident_spec(cs: Seq<char>, i: int) -> int
    decreases cs.len() - i,
{
    if 0 <= i < cs.len() && is_ident_char(cs[i]) {
        scan_ident_spec(cs, i + 1)
    } else {
        i
    }
}

/// The position after the run of bare-string characters starting at `i`.
pub open spec fn scan_bare_spec(cs: Seq<char>, i: int) -> int
    decreases cs.len() - i,
{
    if 0 <= i < cs.len() && is_bare_char(cs[i]) {
        scan_bare_spec(cs, i + 1)
    } else {
        i
    }
}

/// The position after the run of digits starting at `i`.
pub open spec fn scan_digits_spec(cs: Seq<char>, i: int) -> int
    decreases cs.len() - i,
{
    if 0 <= i < cs.len() && is_digit_char(cs[i]) {
        scan_digits_spec(cs, i + 1)
    } else {
        i
    }
}

/// The position of the next newline at or after `i` (or the end of input).
pub open spec fn skip_newline_spec(cs: Seq<char>, i: int) -> int
    decreases cs.len() - i,
{
    if 0 <= i < cs.len() && cs[i] != '\n' {
        skip_newline_spec(cs, i + 1)
    } else {
        i
    }
}

/// The body and end position of a quoted string whose opening quote stands
/// just before `i`: characters accumulate (escapes kept) until an unescaped
/// quote; a newline or the end of input is a syntax error.
pub open spec fn scan_quoted_spec(cs: Seq<char>, i: int, line: int, line_start: int) -> Result<
    (Seq<char>, int),
    SyntaxPosModel,
>
    decreases cs.len() - i,
{
    if !(0 <= i < cs.len()) {
        Err(SyntaxPosModel { line, column: i - line_start + 1 })
    } else if cs[i] == '"' {
        Ok((Seq::empty(), i + 1))
    } else if cs[i] == '\n' {
        Err(SyntaxPosModel { line, column: i - line_start + 1 })
    } else if cs[i] == '\\' {
        if i + 1 >= cs.len() {
            Err(SyntaxPosModel { line, column: i - line_start + 1 })
        } else if cs[i + 1] == '\n' {
            Err(SyntaxPosModel { line, column: i - line_start + 2 })
        } else {
            match scan_quoted_spec(cs, i + 2, line, line_start) {
                Ok((b, j)) => Ok((seq!['\\', cs[i + 1]] + b, j)),
                Err(p) => Err(p),
            }
        }
    } else {
        match scan_quoted_spec(cs, i + 1, line, line_start) {
            Ok((b, j)) => Ok((seq![cs[i]] + b, j)),
            Err(p) => Err(p),
        }
    }
}

/// One value literal starting at `start`: what it parses to and where it
/// ends, or the syntax error. Mirrors the grammar's ordered alternatives.
pub open spec fn parse_value_at_spec(
    cs: Seq<char>,
    start: int,
    line: int,
    line_start: int,
) -> Result<(ValueNodeModel, int), SyntaxPosModel>
    decreases cs.len() - start, 0int,
{
    if !(0 <= start < cs.len()) {
        Err(SyntaxPosModel { line, column: start - line_start + 1 })
    } else if cs[start] == '"' {
        match scan_quoted_spec(cs, start + 1, line, line_start) {
            Ok((body, j)) => Ok((ValueNodeModel::Quoted { body, line: line as usize }, j)),
            Err(p) => Err(p),
        }
    } else if cs[start] == '[' {
        let a = skip_spaces_spec(cs, start + 1);
        if a < start + 1 || a > cs.len() {
            Err(SyntaxPosModel { line, column: 1 })
        } else if a < cs.len() && cs[a] == ']' {
            Ok((ValueNodeModel::Arr { items: Seq::empty() }, a + 1))
        } else {
            match parse_items_spec(cs, a, line, line_start) {
                Ok((items, j)) => Ok((ValueNodeModel::Arr { items }, j)),
                Err(p) => Err(p),
            }
        }
    } else if is_digit_char(cs[start]) || (cs[start] == '-' && start + 1 < cs.len()
        && is_digit_char(cs[start + 1])) {
        let di = if cs[start] == '-' {
            start + 1
        } else {
            start
        };
        let k = scan_digits_spec(cs, di);
        if k < cs.len() && cs[k] == '.' && k + 1 < cs.len() && is_digit_char(cs[k + 1]) {
            let e = scan_digits_spec(cs, k + 1);
            Ok((ValueNodeModel::Num { text: cs.subrange(start, e), line: line as usize }, e))
        } else {
            Ok((ValueNodeModel::Num { text: cs.subrange(start, k), line: line as usize }, k))
        }
    } else if is_bare_char(cs[start]) {
        let j = scan_bare_spec(cs, start);
        let text = cs.subrange(start, j);
        if is_bool_word(text) {
            Ok((ValueNodeModel::Word { text }, j))
        } else {
            Ok((ValueNodeModel::Bare { text }, j))
        }
    } else {
        Err(SyntaxPosModel { line, column: start - line_start + 1 })
    }
}

/// The elements of an array from the first element's position `i` to the
/// closing bracket. The never-taken arms guard the recursion: a parsed
/// value always ends strictly after it starts.
pub open spec fn parse_items_spec(cs: Seq<char>, i: int, line: int, line_start: int) -> Result<
    (Seq<ValueNodeModel>, int),
    SyntaxPosModel,
>
    decreases cs.len() - i, 1int,
{
    match parse_value_at_spec(cs, i, line, line_start) {
        Err(p) => Err(p),
        Ok((node, j)) => {
            if j <= i || j > cs.len() {
                Err(SyntaxPosModel { line, column: 1 })
            } else {
                let i2 = skip_spaces_spec(cs, j);
                if i2 >= cs.len() {
                    Err(SyntaxPosModel { line, column: i2 - line_start + 1 })
                } else if cs[i2] == ']' {
                    Ok((seq![node], i2 + 1))
                } else if cs[i2] != ',' {
                    Err(SyntaxPosModel { line, column: i2 - line_start + 1 })
                } else {
                    let nxt = skip_spaces_spec(cs, i2 + 1);
                    if nxt <= i || nxt > cs.len() {
                        Err(SyntaxPosModel { line, column: 1 })
                    } else {
                        match parse_items_spec(cs, nxt, line, line_start) {
                            Ok((rest, jj)) => Ok((seq![node] + rest, jj)),
                            Err(p) => Err(p),
                        }
                    }
                }
            }
        },
    }
}

/// The end of a section name: further `-ident` segments from `i`, which
/// must stand at the end of an identifier run. The never-taken arm guards
/// the recursion.
pub open spec fn scan_name_spec(cs: Seq<char>, i: int, line: int, line_start: int) -> Result<
    int,
    SyntaxPosModel,
>
    decreases cs.len() - i,
{
    if !(0 <= i < cs.len()) || cs[i] != '-' {
        Ok(i)
    } else {
        let j = scan_ident_spec(cs, i + 1);
        if j == i + 1 {
            Err(SyntaxPosModel { line, column: i - line_start + 2 })
        } else if j <= i + 1 || j > cs.len() {
            Err(SyntaxPosModel { line, column: 1 })
        } else {
            scan_name_spec(cs, j, line, line_start)
        }
    }
}

/// One section header whose opening bracket stands at `start`: the name
/// and the position after the closing bracket, or the syntax error.
pub open spec fn parse_header_at_spec(
    cs: Seq<char>,
    start: int,
    line: int,
    line_start: int,
) -> Result<(Seq<char>, int), SyntaxPosModel> {
    let fe = scan_ident_spec(cs, start + 1);
    if fe == start + 1 {
        Err(SyntaxPosModel { line, column: start - line_start + 2 })
    } else {
        match scan_name_spec(cs, fe, line, line_start) {
            Err(p) => Err(p),
            Ok(i) => {
                if i >= cs.len() || cs[i] != ']' {
                    Err(SyntaxPosModel { line, column: i - line_start + 1 })
                } else {
                    Ok((cs.subrange(start + 1, i), i + 1))
                }
            },
        }
    }
}

/// The rest of a line after a construct ending at `j`: inline whitespace,
/// an optional comment, then a newline or the end of input; anything else
/// is a syntax error. Yields the position of the newline or input end.
pub open spec fn eol_spec(cs: Seq<char>, j: int, line: int, line_start: int) -> Result<
    int,
    SyntaxPosModel,
> {
    let j2 = skip_spaces_spec(cs, j);
    let j3 = if j2 < cs.len() && cs[j2] == '#' {
        skip_newline_spec(cs, j2)
    } else {
        j2
    };
    if j3 < cs.len() && cs[j3] != '\n' {
        Err(SyntaxPosModel { line, column: j3 - line_start + 1 })
    } else {
        Ok(j3)
    }
}

/// The whole grammar: the sequence of top-level nodes that the source from
/// position `i` parses to, or the syntax error at the first position where
/// no alternative matches. `line` and `line_start` track 1-based lines.
/// The never-taken arms guard the recursion: every construct ends strictly
/// after it starts.
pub open spec fn text_spec(cs: Seq<char>, i: int, line: int, line_start: int) -> Result<
    Seq<NodeModel>,
    SyntaxPosModel,
>
    decreases cs.len() - i,
{
    if !(0 <= i < cs.len()) {
        Ok(Seq::empty())
    } else if cs[i] == '\n' {
        text_spec(cs, i + 1, line + 1, i + 1)
    } else if is_space_char(cs[i]) {
        text_spec(cs, i + 1, line, line_start)
    } else if cs[i] == '#' {
        let j = skip_newline_spec(cs, i);
        if j <= i || j > cs.len() {
            Err(SyntaxPosModel { line, column: 1 })
        } else {
            text_spec(cs, j, line, line_start)
        }
    } else if cs[i] == '[' {
        match parse_header_at_spec(cs, i, line, line_start) {
            Err(p) => Err(p),
            Ok((name, j)) => match eol_spec(cs, j, line, line_start) {
                Err(p) => Err(p),
                Ok(j3) => {
                    if j3 <= i || j3 > cs.len() {
                        Err(SyntaxPosModel { line, column: 1 })
                    } else {
                        match text_spec(cs, j3, line, line_start) {
                            Ok(rest) => Ok(
                                seq![NodeModel::Header { name, line: line as usize }] + rest,
                            ),
                            Err(p) => Err(p),
                        }
                    }
                },
            },
        }
    } else if is_ident_char(cs[i]) {
        let ke = scan_ident_spec(cs, i);
        let a = skip_spaces_spec(cs, ke);
        if a >= cs.len() || cs[a] != '=' {
            Err(SyntaxPosModel { line, column: a - line_start + 1 })
        } else {
            let b = skip_spaces_spec(cs, a + 1);
            match parse_value_at_spec(cs, b, line, line_start) {
                Err(p) => Err(p),
                Ok((vnode, j)) => match eol_spec(cs, j, line, line_start) {
                    Err(p) => Err(p),
                    Ok(j3) => {
                        if j3 <= i || j3 > cs.len() {
                            Err(SyntaxPosModel { line, column: 1 })
                        } else {
                            match text_spec(cs, j3, line, line_start) {
                                Ok(rest) => Ok(
                                    seq![
                                        NodeModel::Pair {
                                            key: cs.subrange(i, ke),
                                            value: vnode,
                                            line: line as usize,
                                        },
                                    ] + rest,
                                ),
                                Err(p) => Err(p),
                            }
                        }
                    },
                },
            }
        }
    } else {
        Err(SyntaxPosModel { line, column: i - line_start + 1 })
    }
}

fn ch_is_space(c: char) -> (r: bool)
    ensures
        r == is_space_char(c),
{
    c == ' ' || c == '\t' || c == '\r'
}

fn ch_is_digit(c: char) -> (r: bool)
    ensures
        r == is_digit_char(c),
{
    '0' <= c && c <= '9'
}

fn ch_is_ident(c: char) -> (r: bool)
    ensures
        r == is_ident_char(c),
{
    ('0' <= c && c <= '9') || ('a' <= c && c <= 'z') || ('A' <= c && c <= 'Z') || c == '_'
}

fn ch_is_bare(c: char) -> (r: bool)
    ensures
        r == is_bare_char(c),
{
    ch_is_ident(c) || c == '-'
}

fn skip_spaces(cs: &Vec<char>, i: usize) -> (j: usize)
    requires
        i <= cs@.len(),
    ensures
        j == skip_spaces_spec(cs@, i as int),
        i <= j <= cs@.len(),
        forall|k: int| i <= k < j ==> is_space_char(#[trigger] cs@[k]),
        j < cs@.len() ==> !is_space_char(cs@[j as int]),
{
    let mut j = i;
    while j < cs.len() && ch_is_space(cs[j])
        invariant
            i <= j <= cs@.len(),
            forall|k: int| i <= k < j ==> is_space_char(#[trigger] cs@[k]),
            skip_spaces_spec(cs@, i as int) == skip_spaces_spec(cs@, j as int),
        decreases cs@.len() - j,
    {
        j = j + 1;
    }
    j
}

fn scan_ident(cs: &Vec<char>, i: usize) -> (j: usize)
    requires
        i <= cs@.len(),
    ensures
        j == scan_ident_spec(cs@, i as int),
        i <= j <= cs@.len(),
        forall|k: int| i <= k < j ==> is_ident_char(#[trigger] cs@[k]),
        j < cs@.len() ==> !is_ident_char(cs@[j as int]),
{
    let mut j = i;
    while j < cs.len() && ch_is_ident(cs[j])
        invariant
            i <= j <= cs@.len(),
            forall|k: int| i <= k < j ==> is_ident_char(#[trigger] cs@[k]),
            scan_ident_spec(cs@, i as int) == scan_ident_spec(cs@, j as int),
        decreases cs@.len() - j,
    {
        j = j + 1;
    }
    j
}

fn scan_bare(cs: &Vec<char>, i: usize) -> (j: usize)
    requires
        i <= cs@.len(),
    ensures
        j == scan_bare_spec(cs@, i as int),
        i <= j <= cs@.len(),
        forall|k: int| i <= k < j ==> is_bare_char(#[trigger] cs@[k]),
        j < cs@.len() ==> !is_bare_char(cs@[j as int]),
{
    let mut j = i;
    while j < cs.len() && ch_is_bare(cs[j])
        invariant
            i <= j <= cs@.len(),
            forall|k: int| i <= k < j ==> is_bare_char(#[trigger] cs@[k]),
            scan_bare_spec(cs@, i as int) == scan_bare_spec(cs@, j as int),
        decreases cs@.len() - j,
    {
        j = j + 1;
    }
    j
}

fn scan_digits(cs: &Vec<char>, i: usize) -> (j: usize)
    requires
        i <= cs@.len(),
    ensures
        j == scan_digits_spec(cs@, i as int),
        i <= j <= cs@.len(),
        forall|k: int| i <= k < j ==> is_digit_char(#[trigger] cs@[k]),
        j < cs@.len() ==> !is_digit_char(cs@[j as int]),
{
    let mut j = i;
    while j < cs.len() && ch_is_digit(cs[j])
        invariant
            i <= j <= cs@.len(),
            forall|k: int| i <= k < j ==> is_digit_char(#[trigger] cs@[k]),
            scan_digits_spec(cs@, i as int) == scan_digits_spec(cs@, j as int),
        decreases cs@.len() - j,
    {
        j = j + 1;
    }
    j
}

fn skip_to_newline(cs: &Vec<char>, i: usize) -> (j: usize)
    requires
        i <= cs@.len(),
    ensures
        j == skip_newline_spec(cs@, i as int),
        i <= j <= cs@.len(),
        forall|k: int| i <= k < j ==> cs@[k] != '\n',
        j < cs@.len() ==> cs@[j as int] == '\n',
{
    let mut j = i;
    while j < cs.len() && cs[j] != '\n'
        invariant
            i <= j <= cs@.len(),
            forall|k: int| i <= k < j ==> cs@[k] != '\n',
            skip_newline_spec(cs@, i as int) == skip_newline_spec(cs@, j as int),
        decreases cs@.len() - j,
    {
        j = j + 1;
    }
    j
}

fn collect_range(cs: &Vec<char>, a: usize, b: usize) -> (v: Vec<char>)
    requires
        a <= b <= cs@.len(),
    ensures
        v@ == cs@.subrange(a as int, b as int),
{
    let mut v: Vec<char> = Vec::new();
    let mut k = a;
    while k < b
        invariant
            a <= k <= b <= cs@.len(),
            v@ =~= cs@.subrange(a as int, k as int),
        decreases b - k,
    {
        let c = cs[k];
        proof {
            assert(cs@.subrange(a as int, k as int + 1) =~= cs@.subrange(a as int, k as int).push(
                cs@[k as int],
            ));
        }
        v.push(c);
        k = k + 1;
    }
    v
}

fn syntax_err(line: usize, column: usize, expected: &str) -> (r: MiniConfError)
    ensures
        r matches MiniConfError::Syntax { line: l, column: c, .. } && l == line && c == column,
{
    MiniConfError::Syntax { line, column, expected: String::from_str(expected) }
}

/// Compares the collected characters of a token with a string slice.
pub(crate) fn token_eq(v: &Vec<char>, s: &str) -> (r: bool)
    ensures
        r == (v@ == s@),
{
    let sv = chars_of(s);
    if v.len() != sv.len() {
        proof {
            assert(v@.len() != s@.len());
        }
        return false;
    }
    let mut k: usize = 0;
    while k < v.len()
        invariant
            sv@ == s@,
            v@.len() == s@.len(),
            0 <= k <= v@.len(),
            forall|t: int| 0 <= t < k ==> v@[t] == s@[t],
        decreases v@.len() - k,
    {
        if v[k] != sv[k] {
            return false;
        }
        k = k + 1;
    }
    proof {
        assert(v@ =~= s@);
    }
    true
}


#[verifier::rlimit(80)]
fn parse_value_at(cs: &Vec<char>, start: usize, line: usize, line_start: usize) -> (r: Result<
    (ValueNode, usize),
    MiniConfError,
>)
    requires
        line_start <= start <= cs@.len(),
        cs@.len() < usize::MAX,
        line >= 1,
    ensures
        ({
            let sp = parse_value_at_spec(cs@, start as int, line as int, line_start as int);
            match r {
                Ok((node, j)) => start < j <= cs@.len() && wf_value_node(node.model()) && sp
                    == Ok::<(ValueNodeModel, int), SyntaxPosModel>((node.model(), j as int)),
                Err(e) => (e matches MiniConfError::Syntax { line: el, column: ec, .. } && (
                sp matches Err(p) && p.line == el as int && p.column == ec as int)),
            }
        }),
    decreases cs@.len() - start,
{
    if start >= cs.len() {
        return Err(syntax_err(line, start - line_start + 1, "a value"));
    }
    let c = cs[start];
    if c == '"' {
        let mut body: Vec<char> = Vec::new();
        let mut i = start + 1;
        proof {
            match scan_quoted_spec(cs@, (start + 1) as int, line as int, line_start as int) {
                Ok((b, j)) => {
                    assert(body@ + b =~= b);
                },
                Err(p) => {},
            }
        }
        while i < cs.len()
            invariant
                start + 1 <= i <= cs@.len(),
                line_start <= start,
                line >= 1,
                cs@[start as int] == '"',
                scan_quoted_spec(cs@, (start + 1) as int, line as int, line_start as int) == (
                match scan_quoted_spec(cs@, i as int, line as int, line_start as int) {
                    Ok((b, j)) => Ok::<(Seq<char>, int), SyntaxPosModel>((body@ + b, j)),
                    Err(p) => Err::<(Seq<char>, int), SyntaxPosModel>(p),
                }),
            decreases cs@.len() - i,
        {
            let c2 = cs[i];
            if c2 == '"' {
                proof {
                    assert(body@ + Seq::<char>::empty() =~= body@);
                }
                return Ok((ValueNode::Quoted { body, line }, i + 1));
            }
            if c2 == '\n' {
                return Err(syntax_err(line, i - line_start + 1, "a closing quote"));
            }
            if c2 == '\\' {
                if i + 1 >= cs.len() {
                    return Err(syntax_err(line, i - line_start + 1, "an escaped character"));
                }
                let c3 = cs[i + 1];
                if c3 == '\n' {
                    return Err(syntax_err(line, i - line_start + 2, "an escaped character"));
                }
                proof {
                    match scan_quoted_spec(cs@, (i + 2) as int, line as int, line_start as int) {
                        Ok((b, j)) => {
                            assert(body@ + (seq!['\\', cs@[i as int + 1]] + b) =~= (body@
                                + seq!['\\', cs@[i as int + 1]]) + b);
                            assert(body@.push('\\').push(c3) =~= body@ + seq![
                                '\\',
                                cs@[i as int + 1],
                            ]);
                        },
                        Err(p) => {},
                    }
                }
                body.push('\\');
                body.push(c3);
                i = i + 2;
            } else {
                proof {
                    match scan_quoted_spec(cs@, (i + 1) as int, line as int, line_start as int) {
                        Ok((b, j)) => {
                            assert(body@ + (seq![cs@[i as int]] + b) =~= (body@ + seq![
                                cs@[i as int],
                            ]) + b);
                            assert(body@.push(c2) =~= body@ + seq![cs@[i as int]]);
                        },
                        Err(p) => {},
                    }
                }
                body.push(c2);
                i = i + 1;
            }
        }
        Err(syntax_err(line, i - line_start + 1, "a closing quote"))
    } else if c == '[' {
        let mut items: Vec<ValueNode> = Vec::new();
        let mut i = skip_spaces(cs, start + 1);
        if i < cs.len() && cs[i] == ']' {
            proof {
                assert(vnode_models(items@) =~= Seq::<ValueNodeModel>::empty());
            }
            return Ok((ValueNode::Arr { items }, i + 1));
        }
        let ghost first = i as int;
        proof {
            match parse_items_spec(cs@, first, line as int, line_start as int) {
                Ok((rest, j)) => {
                    assert(vnode_models(items@) + rest =~= rest);
                },
                Err(p) => {},
            }
        }
        loop
            invariant
                line_start <= start < i <= cs@.len(),
                cs@.len() < usize::MAX,
                line >= 1,
                wf_vnode_list(vnode_models(items@)),
                cs@[start as int] == '[',
                first == skip_spaces_spec(cs@, (start + 1) as int),
                start + 1 <= first <= cs@.len(),
                !(first < cs@.len() && cs@[first] == ']'),
                parse_items_spec(cs@, first, line as int, line_start as int) == (
                match parse_items_spec(cs@, i as int, line as int, line_start as int) {
                    Ok((rest, j)) => Ok::<(Seq<ValueNodeModel>, int), SyntaxPosModel>((
                        vnode_models(items@) + rest,
                        j,
                    )),
                    Err(p) => Err::<(Seq<ValueNodeModel>, int), SyntaxPosModel>(p),
                }),
            decreases cs@.len() - i,
        {
            let elem = parse_value_at(cs, i, line, line_start);
            let (node, j) = match elem {
                Ok(x) => x,
                Err(e) => {
                    return Err(e);
                },
            };
            let ghost items_pre = items@;
            proof {
                assert(vnode_models(items@.push(node)) =~= vnode_models(items@).push(
                    node.model(),
                ));
                lemma_wf_list_push(vnode_models(items@), node.model());
            }
            items.push(node);
            let i2 = skip_spaces(cs, j);
            if i2 >= cs.len() {
                return Err(syntax_err(line, i2 - line_start + 1, "a comma or a closing bracket"));
            }
            if cs[i2] == ']' {
                proof {
                    assert(vnode_models(items_pre) + seq![node.model()] =~= vnode_models(
                        items@,
                    ));
                }
                return Ok((ValueNode::Arr { items }, i2 + 1));
            }
            if cs[i2] != ',' {
                return Err(syntax_err(line, i2 - line_start + 1, "a comma or a closing bracket"));
            }
            i = skip_spaces(cs, i2 + 1);
            proof {
                match parse_items_spec(cs@, i as int, line as int, line_start as int) {
                    Ok((rest, jj)) => {
                        assert(vnode_models(items_pre) + (seq![node.model()] + rest) =~= (
                        vnode_models(items_pre) + seq![node.model()]) + rest);
                        assert(vnode_models(items_pre) + seq![node.model()] =~= vnode_models(
                            items@,
                        ));
                    },
                    Err(p) => {},
                }
            }
        }
    } else if ch_is_digit(c) || (c == '-' && start + 1 < cs.len() && ch_is_digit(cs[start + 1])) {
        let neg = c == '-';
        let di = if neg {
            start + 1
        } else {
            start
        };
        let k = scan_digits(cs, di);
        proof {
            assert(is_digit_char(cs@[di as int]));
            assert(k > di);
        }
        if k < cs.len() && cs[k] == '.' && k + 1 < cs.len() && ch_is_digit(cs[k + 1]) {
            let end = scan_digits(cs, k + 1);
            proof {
                assert(end > k + 1);
            }
            let text = collect_range(cs, start, end);
            proof {
                let t = text@;
                let u = cs@.subrange(di as int, end as int);
                let kk = (k - di) as int;
                assert(u.subrange(0, kk) =~= cs@.subrange(di as int, k as int));
                assert(digit_run(u.subrange(0, kk)));
                assert(u[kk] == cs@[k as int]);
                assert(u.subrange(kk + 1, u.len() as int) =~= cs@.subrange(
                    k as int + 1,
                    end as int,
                ));
                assert(digit_run(u.subrange(kk + 1, u.len() as int)));
                assert(wf_unsigned_number(u));
                assert(t.len() > 0);
                assert(t[0] == cs@[start as int]);
                if neg {
                    assert(t[0] == '-');
                    assert(t.drop_first() =~= u);
                } else {
                    assert(is_digit_char(t[0]));
                    assert(t[0] != '-');
                    assert(t =~= u);
                }
                assert(wf_number(t));
            }
            return Ok((ValueNode::Num { text, line }, end));
        }
        let text = collect_range(cs, start, k);
        proof {
            let t = text@;
            let u = cs@.subrange(di as int, k as int);
            let kk = (k - di) as int;
            assert(u.subrange(0, kk) =~= u);
            assert(digit_run(u.subrange(0, kk)));
            assert(kk == u.len());
            assert(wf_unsigned_number(u));
            assert(t.len() > 0);
            assert(t[0] == cs@[start as int]);
            if neg {
                assert(t[0] == '-');
                assert(t.drop_first() =~= u);
            } else {
                assert(is_digit_char(t[0]));
                assert(t[0] != '-');
                assert(t =~= u);
            }
            assert(wf_number(t));
        }
        Ok((ValueNode::Num { text, line }, k))
    } else if ch_is_bare(c) {
        let j = scan_bare(cs, start);
        proof {
            assert(is_bare_char(cs@[start as int]));
            assert(j > start);
        }
        let text = collect_range(cs, start, j);
        let is_word = token_eq(&text, "true") || token_eq(&text, "false") || token_eq(
            &text,
            "yes",
        ) || token_eq(&text, "no");
        if is_word {
            Ok((ValueNode::Word { text }, j))
        } else {
            proof {
                assert(text@.len() > 0);
                assert(forall|t: int|
                    0 <= t < text@.len() ==> is_bare_char(#[trigger] text@[t]));
            }
            Ok((ValueNode::Bare { text }, j))
        }
    } else {
        Err(syntax_err(line, start - line_start + 1, "a value"))
    }
}

fn parse_header_at(cs: &Vec<char>, start: usize, line: usize, line_start: usize) -> (r: Result<
    (Vec<char>, usize),
    MiniConfError,
>)
    requires
        line_start <= start < cs@.len(),
        cs@[start as int] == '[',
        cs@.len() < usize::MAX,
        line >= 1,
    ensures
        ({
            let sp = parse_header_at_spec(cs@, start as int, line as int, line_start as int);
            match r {
                Ok((name, j)) => start < j <= cs@.len() && wf_name(name@) && sp == Ok::<
                    (Seq<char>, int),
                    SyntaxPosModel,
                >((name@, j as int)),
                Err(e) => (e matches MiniConfError::Syntax { line: el, column: ec, .. } && (
                sp matches Err(p) && p.line == el as int && p.column == ec as int)),
            }
        }),
{
    let first_end = scan_ident(cs, start + 1);
    if first_end == start + 1 {
        return Err(syntax_err(line, start - line_start + 2, "a section name"));
    }
    let mut i = first_end;
    while i < cs.len() && cs[i] == '-'
        invariant
            start + 1 < i <= cs@.len(),
            line_start <= start,
            cs@.len() < usize::MAX,
            line >= 1,
            forall|k: int| start + 1 <= k < i ==> is_bare_char(#[trigger] cs@[k]),
            is_ident_char(cs@[i - 1]),
            first_end == scan_ident_spec(cs@, (start + 1) as int),
            first_end != start + 1,
            scan_name_spec(cs@, first_end as int, line as int, line_start as int)
                == scan_name_spec(cs@, i as int, line as int, line_start as int),
        decreases cs@.len() - i,
    {
        let seg_end = scan_ident(cs, i + 1);
        if seg_end == i + 1 {
            return Err(syntax_err(line, i - line_start + 2, "a section name"));
        }
        proof {
            assert(is_bare_char(cs@[i as int]));
            assert(is_ident_char(cs@[seg_end - 1]));
        }
        i = seg_end;
    }
    if i >= cs.len() || cs[i] != ']' {
        return Err(syntax_err(line, i - line_start + 1, "a closing bracket"));
    }
    let name = collect_range(cs, start + 1, i);
    proof {
        assert(name@.len() > 0);
        assert(name@[0] == cs@[start as int + 1]);
        assert(is_ident_char(cs@[start as int + 1]));
        assert(name@[name@.len() - 1] == cs@[i - 1]);
    }
    Ok((name, i + 1))
}

/// `r` with `pre` prepended to its nodes when it succeeded.
pub open spec fn prepend_nodes(
    pre: Seq<NodeModel>,
    r: Result<Seq<NodeModel>, SyntaxPosModel>,
) -> Result<Seq<NodeModel>, SyntaxPosModel> {
    match r {
        Ok(rest) => Ok(pre + rest),
        Err(p) => Err(p),
    }
}

/// The MiniConf grammar engine.
pub struct MiniConfParser;

impl MiniConfParser {
    /// Parses a whole source text into its sequence of top-level nodes,
    /// or reports a syntax error at the first offending position.
    #[verifier::rlimit(100)]
    pub fn parse_text(source: &str) -> (r: Result<Vec<Node>, MiniConfError>)
        requires
            source@.len() < usize::MAX,
        ensures
            match r {
                Ok(nodes) => wf_nodes(node_models(nodes@)) && text_spec(source@, 0, 1, 0)
                    == Ok::<Seq<NodeModel>, SyntaxPosModel>(node_models(nodes@)),
                Err(e) => (e matches MiniConfError::Syntax { line: el, column: ec, .. } && (
                text_spec(source@, 0, 1, 0) matches Err(p) && p.line == el as int && p.column
                    == ec as int)),
            },
    {
        let cs = chars_of(source);
        let mut nodes: Vec<Node> = Vec::new();
        let mut i: usize = 0;
        let mut line: usize = 1;
        let mut line_start: usize = 0;
        proof {
            match text_spec(cs@, 0, 1, 0) {
                Ok(rest) => {
                    assert(node_models(nodes@) + rest =~= rest);
                },
                Err(p) => {},
            }
        }
        while i < cs.len()
            invariant
                cs@ == source@,
                cs@.len() < usize::MAX,
                i <= cs@.len(),
                line_start <= i,
                1 <= line,
                line <= i + 1,
                wf_nodes(node_models(nodes@)),
                text_spec(cs@, 0, 1, 0) == prepend_nodes(
                    node_models(nodes@),
                    text_spec(cs@, i as int, line as int, line_start as int),
                ),
            decreases cs@.len() - i,
        {
            let c = cs[i];
            if c == '\n' {
                line = line + 1;
                i = i + 1;
                line_start = i;
            } else if ch_is_space(c) {
                i = i + 1;
            } else if c == '#' {
                let j = skip_to_newline(&cs, i);
                proof {
                    assert(cs@[i as int] != '\n');
                    assert(j != i);
                }
                i = j;
            } else if c == '[' {
                let header = parse_header_at(&cs, i, line, line_start);
                let (name, j) = match header {
                    Ok(x) => x,
                    Err(e) => {
                        return Err(e);
                    },
                };
                let j2 = skip_spaces(&cs, j);
                let j3 = if j2 < cs.len() && cs[j2] == '#' {
                    skip_to_newline(&cs, j2)
                } else {
                    j2
                };
                if j3 < cs.len() && cs[j3] != '\n' {
                    return Err(syntax_err(line, j3 - line_start + 1, "the end of the line"));
                }
                let node = Node::Header { name, line };
                let ghost pre = node_models(nodes@);
                proof {
                    assert(node_models(nodes@.push(node)) =~= node_models(nodes@).push(
                        node.model(),
                    ));
                    match text_spec(cs@, j3 as int, line as int, line_start as int) {
                        Ok(rest) => {
                            assert(pre + (seq![node.model()] + rest) =~= pre.push(node.model())
                                + rest);
                        },
                        Err(p) => {},
                    }
                }
                nodes.push(node);
                i = j3;
            } else if ch_is_ident(c) {
                let key_end = scan_ident(&cs, i);
                proof {
                    assert(is_ident_char(cs@[i as int]));
                    assert(key_end > i);
                }
                let key = collect_range(&cs, i, key_end);
                let a = skip_spaces(&cs, key_end);
                if a >= cs.len() || cs[a] != '=' {
                    return Err(syntax_err(line, a - line_start + 1, "an equals sign"));
                }
                let b = skip_spaces(&cs, a + 1);
                let parsed = parse_value_at(&cs, b, line, line_start);
                let (vnode, j) = match parsed {
                    Ok(x) => x,
                    Err(e) => {
                        return Err(e);
                    },
                };
                let j2 = skip_spaces(&cs, j);
                let j3 = if j2 < cs.len() && cs[j2] == '#' {
                    skip_to_newline(&cs, j2)
                } else {
                    j2
                };
                if j3 < cs.len() && cs[j3] != '\n' {
                    return Err(syntax_err(line, j3 - line_start + 1, "the end of the line"));
                }
                let node = Node::Pair { key, value: vnode, line };
                let ghost pre = node_models(nodes@);
                proof {
                    assert(node_models(nodes@.push(node)) =~= node_models(nodes@).push(
                        node.model(),
                    ));
                    match text_spec(cs@, j3 as int, line as int, line_start as int) {
                        Ok(rest) => {
                            assert(pre + (seq![node.model()] + rest) =~= pre.push(node.model())
                                + rest);
                        },
                        Err(p) => {},
                    }
                }
                nodes.push(node);
                i = j3;
            } else {
                return Err(
                    syntax_err(line, i - line_start + 1, "a section header, a key or a comment"),
                );
            }
        }
        proof {
            assert(node_models(nodes@) + Seq::<NodeModel>::empty() =~= node_models(nodes@));
        }
        Ok(nodes)
    }

    /// Parses a source text that must consist of exactly one value literal.
    pub fn parse_value_str(source: &str) -> (r: Result<ValueNode, MiniConfError>)
        requires
            source@.len() < usize::MAX,
        ensures
            ({
                let sp = parse_value_at_spec(source@, 0, 1, 0);
                match r {
                    Ok(v) => wf_value_node(v.model()) && (sp matches Ok((m, j)) && m
                        == v.model() && j == source@.len()),
                    Err(e) => (e matches MiniConfError::Syntax { line: el, column: ec, .. }
                        && match sp {
                        Ok((m, j)) => j != source@.len() && el == 1 && ec as int == j + 1,
                        Err(p) => p.line == el as int && p.column == ec as int,
                    }),
                }
            }),
    {
        let cs = chars_of(source);
        let parsed = parse_value_at(&cs, 0, 1, 0);
        match parsed {
            Ok((node, j)) => {
                if j == cs.len() {
                    Ok(node)
                } else {
                    Err(syntax_err(1, j + 1, "the end of the input"))
                }
            },
            Err(e) => Err(e),
        }
    }

    /// Parses a source text that must consist of exactly one section header.
    pub fn parse_section_header_str(source: &str) -> (r: Result<String, MiniConfError>)
        requires
            source@.len() < usize::MAX,
        ensures
            ({
                let sp = parse_header_at_spec(source@, 0, 1, 0);
                match r {
                    Ok(name) => wf_name(name@) && source@.len() > 0 && source@[0] == '[' && (
                    sp matches Ok((n, j)) && n == name@ && j == source@.len()),
                    Err(e) => (e matches MiniConfError::Syntax { line: el, column: ec, .. } && (
                    if source@.len() == 0 || source@[0] != '[' {
                        el == 1 && ec == 1
                    } else {
                        match sp {
                            Ok((n, j)) => j != source@.len() && el == 1 && ec as int == j + 1,
                            Err(p) => p.line == el as int && p.column == ec as int,
                        }
                    })),
                }
            }),
    {
        let cs = chars_of(source);
        if cs.len() == 0 || cs[0] != '[' {
            return Err(syntax_err(1, 1, "an opening bracket"));
        }
        let parsed = parse_header_at(&cs, 0, 1, 0);
        match parsed {
            Ok((name, j)) => {
                if j == cs.len() {
                    Ok(string_from_chars(&name))
                } else {
                    Err(syntax_err(1, j + 1, "the end of the input"))
                }
            },
            Err(e) => Err(e),
        }
    }
}

} // verus!
