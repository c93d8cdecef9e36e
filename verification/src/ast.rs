//! Abstract syntax tree types used to represent parsed documents, together
//! with their specification-level models.

use vstd::prelude::*;

use crate::text::lex_lt;
use crate::text::lemma_lex_trans;
use crate::text::lemma_lex_trichotomy;
use crate::text::str_compare;

verus! {

/// Specification-level model of a decoded value.
pub enum ValueModel {
    /// Text from a quoted or bare string.
    Text(Seq<char>),
    /// A numeric literal, kept exactly as it appeared in the source.
    Num(Seq<char>),
    /// A boolean.
    Flag(bool),
    /// An ordered list of nested values.
    List(Seq<ValueModel>),
}

/// Supported MiniConf values.
///
/// A numeric literal is held exactly as matched by the grammar (an optional
/// sign, digits, and an optional fraction); converting it to a machine
/// number is left to the caller, so no precision is lost in the document.
#[derive(Debug)]
pub enum Value {
    /// Quoted or bare string data.
    String(String),
    /// Integer or floating-point numeric literal, verbatim.
    Number(String),
    /// Boolean (`true`, `false`, `yes`, `no`).
    Bool(bool),
    /// Ordered list of nested values.
    Array(Vec<Value>),
}

impl Value {
    /// The model of this value.
    pub open spec fn model(self) -> ValueModel
        decreases self,
    {
        match self {
            Value::String(s) => ValueModel::Text(s@),
            Value::Number(t) => ValueModel::Num(t@),
            Value::Bool(b) => ValueModel::Flag(b),
            Value::Array(vs) => ValueModel::List(models_of(vs@)),
        }
    }

    /// Returns the string representation when the value is textual.
    pub fn as_str(&self) -> (r: Option<&str>)
        ensures
            match r {
                Option::Some(s) => self.model() == ValueModel::Text(s@),
                Option::None => !(self.model() is Text),
            },
    {
        match self {
            Self::String(s) => Option::Some(s.as_str()),
            _ => Option::None,
        }
    }
}

/// The models of a sequence of values, in order. The range guard keeps
/// the recursion well-founded; an out-of-range index is never read.
pub open spec fn models_of(vs: Seq<Value>) -> Seq<ValueModel>
    decreases vs,
{
    Seq::new(
        vs.len(),
        |i: int|
            if 0 <= i < vs.len() {
                vs[i].model()
            } else {
                ValueModel::Flag(false)
            },
    )
}

/// Specification-level model of an entry.
pub struct EntryModel {
    /// The entry's key.
    pub key: Seq<char>,
    /// The entry's decoded value.
    pub value: ValueModel,
    /// 1-based source line of the key token.
    pub line: usize,
}

/// Single key/value assignment inside a section.
#[derive(Debug)]
pub struct Entry {
    /// Logical key.
    pub key: String,
    /// Parsed value.
    pub value: Value,
    /// 1-based line number, useful for diagnostics.
    pub line: usize,
}

impl Entry {
    /// The model of this entry.
    pub open spec fn model(self) -> EntryModel {
        EntryModel { key: self.key@, value: self.value.model(), line: self.line }
    }

    /// Constructor used by the document builder and by tests.
    pub fn new(key: String, value: Value, line: usize) -> (r: Self)
        ensures
            r.model() == (EntryModel { key: key@, value: value.model(), line }),
    {
        Self { key, value, line }
    }
}

/// Specification-level model of a section.
pub struct SectionModel {
    /// The section's name.
    pub name: Seq<char>,
    /// The section's entries, in declaration order.
    pub entries: Seq<EntryModel>,
}

/// A section groups related key/value entries.
#[derive(Debug)]
pub struct Section {
    /// Section identifier as it appeared in the file.
    pub name: String,
    /// Key/value entries in declaration order.
    pub entries: Vec<Entry>,
}

impl Section {
    /// The model of this section.
    pub open spec fn model(self) -> SectionModel {
        SectionModel {
            name: self.name@,
            entries: Seq::new(self.entries@.len(), |i: int| self.entries@[i].model()),
        }
    }

    /// Creates a section with no entries.
    pub fn new(name: &str) -> (r: Self)
        ensures
            r.model() == empty_section(name@),
    {
        let r = Self { name: String::from_str(name), entries: Vec::new() };
        proof {
            assert(r.model().entries =~= Seq::<EntryModel>::empty());
        }
        r
    }
}

/// A section model with the given name and no entries.
pub open spec fn empty_section(name: Seq<char>) -> SectionModel {
    SectionModel { name, entries: Seq::empty() }
}

/// Whether a section named `name` occurs in `secs`.
pub open spec fn has_section(secs: Seq<SectionModel>, name: Seq<char>) -> bool {
    exists|i: int| 0 <= i < secs.len() && secs[i].name == name
}

/// The entries of the first section named `name`, or the empty sequence
/// when no such section exists.
pub open spec fn section_entries(secs: Seq<SectionModel>, name: Seq<char>) -> Seq<EntryModel>
    decreases secs.len(),
{
    if secs.len() == 0 {
        Seq::empty()
    } else if secs[0].name == name {
        secs[0].entries
    } else {
        section_entries(secs.drop_first(), name)
    }
}

/// `secs` with a section named `name`: unchanged when one is present,
/// otherwise with an empty section inserted at its place in name order.
pub open spec fn insert_section_spec(secs: Seq<SectionModel>, name: Seq<char>) -> Seq<SectionModel>
    decreases secs.len(),
{
    if secs.len() == 0 {
        seq![empty_section(name)]
    } else if secs[0].name == name {
        secs
    } else if lex_lt(name, secs[0].name) {
        seq![empty_section(name)] + secs
    } else {
        seq![secs[0]] + insert_section_spec(secs.drop_first(), name)
    }
}

/// `secs` with `e` appended to the entries of the first section named
/// `name`; unchanged when no such section exists.
pub open spec fn append_entry_spec(
    secs: Seq<SectionModel>,
    name: Seq<char>,
    e: EntryModel,
) -> Seq<SectionModel>
    decreases secs.len(),
{
    if secs.len() == 0 {
        secs
    } else if secs[0].name == name {
        seq![SectionModel { name: secs[0].name, entries: secs[0].entries.push(e) }]
            + secs.drop_first()
    } else {
        seq![secs[0]] + append_entry_spec(secs.drop_first(), name, e)
    }
}

/// Whether `entries` holds an entry with the given key.
pub open spec fn entries_has_key(entries: Seq<EntryModel>, key: Seq<char>) -> bool {
    exists|i: int| 0 <= i < entries.len() && entries[i].key == key
}

/// Adjacent sections are in strictly ascending name order.
pub open spec fn sorted_names(secs: Seq<SectionModel>) -> bool {
    forall|i: int|
        0 <= i && i + 1 < secs.len() ==> #[trigger] lex_lt(secs[i].name, secs[i + 1].name)
}

/// In a sorted sequence every earlier section name precedes every later one.
pub proof fn lemma_sorted_global(secs: Seq<SectionModel>)
    requires
        sorted_names(secs),
    ensures
        forall|i: int, j: int|
            0 <= i < j < secs.len() ==> lex_lt(secs[i].name, secs[j].name),
{
    assert forall|i: int, j: int| 0 <= i < j < secs.len() implies lex_lt(
        secs[i].name,
        secs[j].name,
    ) by {
        lemma_sorted_reaches(secs, i, j);
    }
}

proof fn lemma_sorted_reaches(secs: Seq<SectionModel>, i: int, j: int)
    requires
        sorted_names(secs),
        0 <= i < j < secs.len(),
    ensures
        lex_lt(secs[i].name, secs[j].name),
    decreases j - i,
{
    let k = j - 1;
    assert(lex_lt(secs[k].name, secs[k + 1].name));
    if j == i + 1 {
    } else {
        lemma_sorted_reaches(secs, i, j - 1);
        lemma_lex_trans(secs[i].name, secs[j - 1].name, secs[j].name);
    }
}

/// Where the insertion point of `name` is known, `insert_section_spec`
/// either leaves the sequence unchanged or inserts an empty section there.
pub proof fn lemma_insert_position(secs: Seq<SectionModel>, name: Seq<char>, i: int)
    requires
        0 <= i <= secs.len(),
        forall|k: int| 0 <= k < i ==> lex_lt(secs[k].name, name),
    ensures
        i < secs.len() && secs[i].name == name ==> insert_section_spec(secs, name) == secs,
        (i == secs.len() || lex_lt(name, secs[i].name)) ==> insert_section_spec(secs, name)
            =~= secs.insert(i, empty_section(name)),
    decreases i,
{
    if i == 0 {
        if secs.len() == 0 {
            assert(insert_section_spec(secs, name) =~= secs.insert(0, empty_section(name)));
        } else {
            lemma_lex_trichotomy(name, secs[0].name);
            if secs[0].name == name {
            } else if lex_lt(name, secs[0].name) {
                assert(seq![empty_section(name)] + secs =~= secs.insert(0, empty_section(name)));
            }
        }
    } else {
        assert(lex_lt(secs[0].name, name));
        lemma_lex_trichotomy(secs[0].name, name);
        let rest = secs.drop_first();
        assert forall|k: int| 0 <= k < i - 1 implies lex_lt(rest[k].name, name) by {
            assert(rest[k] == secs[k + 1]);
        }
        lemma_insert_position(rest, name, i - 1);
        assert(insert_section_spec(secs, name) == seq![secs[0]] + insert_section_spec(rest, name));
        if i < secs.len() && secs[i].name == name {
            assert(rest[i - 1] == secs[i]);
            assert(seq![secs[0]] + rest =~= secs);
        }
        if i == secs.len() || lex_lt(name, secs[i].name) {
            if i < secs.len() {
                assert(rest[i - 1] == secs[i]);
            }
            assert(insert_section_spec(rest, name) =~= rest.insert(i - 1, empty_section(name)));
            assert(seq![secs[0]] + rest.insert(i - 1, empty_section(name)) =~= secs.insert(
                i,
                empty_section(name),
            ));
        }
    }
}

/// The entries of the first section at a known first-match index.
pub proof fn lemma_section_entries_at(secs: Seq<SectionModel>, name: Seq<char>, i: int)
    requires
        0 <= i < secs.len(),
        secs[i].name == name,
        forall|k: int| 0 <= k < i ==> secs[k].name != name,
    ensures
        section_entries(secs, name) == secs[i].entries,
    decreases i,
{
    if i == 0 {
    } else {
        let rest = secs.drop_first();
        assert forall|k: int| 0 <= k < i - 1 implies rest[k].name != name by {
            assert(rest[k] == secs[k + 1]);
        }
        assert(rest[i - 1] == secs[i]);
        lemma_section_entries_at(rest, name, i - 1);
    }
}

/// `append_entry_spec` at a known first-match index is a pointwise update.
pub proof fn lemma_append_entry_at(
    secs: Seq<SectionModel>,
    name: Seq<char>,
    e: EntryModel,
    i: int,
)
    requires
        0 <= i < secs.len(),
        secs[i].name == name,
        forall|k: int| 0 <= k < i ==> secs[k].name != name,
    ensures
        append_entry_spec(secs, name, e) =~= secs.update(
            i,
            SectionModel { name: secs[i].name, entries: secs[i].entries.push(e) },
        ),
    decreases i,
{
    if i == 0 {
        assert(seq![SectionModel { name: secs[0].name, entries: secs[0].entries.push(e) }]
            + secs.drop_first() =~= secs.update(
            0,
            SectionModel { name: secs[0].name, entries: secs[0].entries.push(e) },
        ));
    } else {
        let rest = secs.drop_first();
        assert forall|k: int| 0 <= k < i - 1 implies rest[k].name != name by {
            assert(rest[k] == secs[k + 1]);
        }
        assert(rest[i - 1] == secs[i]);
        lemma_append_entry_at(rest, name, e, i - 1);
        assert(append_entry_spec(secs, name, e) == seq![secs[0]] + append_entry_spec(
            rest,
            name,
            e,
        ));
        assert(seq![secs[0]] + rest.update(
            i - 1,
            SectionModel { name: secs[i].name, entries: secs[i].entries.push(e) },
        ) =~= secs.update(
            i,
            SectionModel { name: secs[i].name, entries: secs[i].entries.push(e) },
        ));
    }
}

/// Parsed MiniConf document consisting of named sections, kept in
/// ascending name order.
#[derive(Debug)]
pub struct Document {
    sections: Vec<Section>,
}

impl Document {
    /// The model of this document: its sections, in iteration order.
    pub closed spec fn model(self) -> Seq<SectionModel> {
        Seq::new(self.sections@.len(), |i: int| self.sections@[i].model())
    }

    /// Well-formedness: sections are sorted by name, so names are unique
    /// and iteration is alphabetical.
    pub open spec fn wf(self) -> bool {
        sorted_names(self.model())
    }

    /// Creates an empty [`Document`].
    pub fn new() -> (r: Self)
        ensures
            r.model() == Seq::<SectionModel>::empty(),
            r.wf(),
    {
        let r = Self { sections: Vec::new() };
        proof {
            assert(r.model() =~= Seq::<SectionModel>::empty());
        }
        r
    }

    /// Returns the index of the section named `name`, inserting an empty
    /// section at its place in name order when absent.
    pub fn ensure_section_mut(&mut self, name: &str) -> (idx: usize)
        requires
            old(self).wf(),
        ensures
            final(self).wf(),
            final(self).model() == insert_section_spec(old(self).model(), name@),
            idx < final(self).model().len(),
            final(self).model()[idx as int].name == name@,
            forall|k: int| 0 <= k < idx ==> final(self).model()[k].name != name@,
    {
        let ghost orig = self.model();
        let mut i: usize = 0;
        while i < self.sections.len()
            invariant
                self == old(self),
                orig == self.model(),
                sorted_names(orig),
                0 <= i <= self.sections@.len(),
                orig.len() == self.sections@.len(),
                forall|k: int| 0 <= k < i ==> lex_lt(orig[k].name, name@),
            decreases self.sections@.len() - i,
        {
            let c = str_compare(self.sections[i].name.as_str(), name);
            proof {
                assert(self.sections@[i as int].model().name == self.sections@[i as int].name@);
                assert(orig[i as int].name == self.sections@[i as int].name@);
            }
            if c == 1 {
                proof {
                    lemma_insert_position(orig, name@, i as int);
                    lemma_sorted_global(orig);
                    assert forall|k: int| 0 <= k < i implies orig[k].name != name@ by {
                        lemma_lex_trichotomy(orig[k].name, name@);
                    }
                }
                return i;
            } else if c == 2 {
                proof {
                    lemma_insert_position(orig, name@, i as int);
                }
                let sec = Section::new(name);
                self.sections.insert(i, sec);
                proof {
                    orig.insert_ensures(i as int, empty_section(name@));
                    assert(self.model() =~= orig.insert(i as int, empty_section(name@)));
                    let cur = self.model();
                    assert forall|k: int| 0 <= k && k + 1 < cur.len() implies #[trigger] lex_lt(
                        cur[k].name,
                        cur[k + 1].name,
                    ) by {
                        if k + 1 < i {
                            assert(cur[k] == orig[k] && cur[k + 1] == orig[k + 1]);
                        } else if k + 1 == i {
                            assert(cur[k] == orig[k]);
                        } else if k == i {
                            assert(cur[k + 1] == orig[k]);
                        } else {
                            assert(cur[k] == orig[k - 1] && cur[k + 1] == orig[k]);
                        }
                    }
                    assert forall|k: int| 0 <= k < i implies self.model()[k].name != name@ by {
                        lemma_lex_trichotomy(self.model()[k].name, name@);
                    }
                }
                return i;
            }
            proof {
                lemma_lex_trichotomy(orig[i as int].name, name@);
            }
            i = i + 1;
        }
        proof {
            lemma_insert_position(orig, name@, orig.len() as int);
        }
        let sec = Section::new(name);
        let idx = self.sections.len();
        self.sections.push(sec);
        proof {
            orig.insert_ensures(orig.len() as int, empty_section(name@));
            assert(self.model() =~= orig.insert(orig.len() as int, empty_section(name@)));
            let cur = self.model();
            assert forall|k: int| 0 <= k && k + 1 < cur.len() implies #[trigger] lex_lt(
                cur[k].name,
                cur[k + 1].name,
            ) by {
                if k + 1 < cur.len() - 1 {
                    assert(cur[k] == orig[k] && cur[k + 1] == orig[k + 1]);
                } else {
                    assert(cur[k] == orig[k]);
                }
            }
            assert forall|k: int| 0 <= k < idx implies self.model()[k].name != name@ by {
                lemma_lex_trichotomy(self.model()[k].name, name@);
            }
        }
        idx
    }

    /// Appends `entry` to the entries of the section at `idx`.
    pub fn push_entry(&mut self, idx: usize, entry: Entry)
        requires
            idx < old(self).model().len(),
        ensures
            final(self).model() =~= old(self).model().update(
                idx as int,
                SectionModel {
                    name: old(self).model()[idx as int].name,
                    entries: old(self).model()[idx as int].entries.push(entry.model()),
                },
            ),
            final(self).wf() == old(self).wf(),
    {
        let ghost orig = self.model();
        let mut sec = self.sections.remove(idx);
        let ghost entry_m = entry.model();
        sec.entries.push(entry);
        self.sections.insert(idx, sec);
        proof {
            assert(sec.model().name == orig[idx as int].name);
            assert(sec.model().entries =~= orig[idx as int].entries.push(entry_m));
            assert(self.model() =~= orig.update(
                idx as int,
                SectionModel {
                    name: orig[idx as int].name,
                    entries: orig[idx as int].entries.push(entry_m),
                },
            ));
            assert(sorted_names(self.model()) == sorted_names(orig)) by {
                assert forall|k: int|
                    0 <= k < self.model().len() implies self.model()[k].name == orig[k].name by {}
            }
        }
    }

    /// Whether the section at `idx` already holds an entry named `key`.
    pub fn entry_key_exists(&self, idx: usize, key: &str) -> (r: bool)
        requires
            idx < self.model().len(),
        ensures
            r == entries_has_key(self.model()[idx as int].entries, key@),
    {
        let sec = &self.sections[idx];
        let mut i: usize = 0;
        while i < sec.entries.len()
            invariant
                idx < self.model().len(),
                sec == &self.sections[idx as int],
                sec.model() == self.model()[idx as int],
                0 <= i <= sec.entries@.len(),
                forall|k: int| 0 <= k < i ==> self.model()[idx as int].entries[k].key != key@,
            decreases sec.entries@.len() - i,
        {
            let c = str_compare(sec.entries[i].key.as_str(), key);
            proof {
                assert(self.model()[idx as int].entries[i as int] == sec.entries@[i as int].model());
            }
            if c == 1 {
                return true;
            }
            i = i + 1;
        }
        false
    }

    /// Returns an immutable view of a section, if present.
    pub fn section(&self, name: &str) -> (r: Option<&Section>)
        ensures
            r is Some <==> has_section(self.model(), name@),
            r matches Some(sec) ==> sec.model().name == name@ && sec.model().entries
                == section_entries(self.model(), name@),
    {
        let mut i: usize = 0;
        while i < self.sections.len()
            invariant
                0 <= i <= self.sections@.len(),
                forall|k: int| 0 <= k < i ==> self.model()[k].name != name@,
            decreases self.sections@.len() - i,
        {
            let c = str_compare(self.sections[i].name.as_str(), name);
            proof {
                assert(self.model()[i as int].name == self.sections@[i as int].name@);
            }
            if c == 1 {
                proof {
                    lemma_section_entries_at(self.model(), name@, i as int);
                }
                return Option::Some(&self.sections[i]);
            }
            i = i + 1;
        }
        proof {
            assert(!has_section(self.model(), name@));
        }
        Option::None
    }

    /// Returns all sections, ordered by name.
    pub fn sections(&self) -> (r: &Vec<Section>)
        ensures
            r@.len() == self.model().len(),
            forall|i: int| 0 <= i < r@.len() ==> (#[trigger] r@[i]).model() == self.model()[i],
    {
        &self.sections
    }
}

/// Law: a well-formed document's sections are iterated in strictly
/// ascending name order, whatever order they were declared in.
pub proof fn lemma_sections_alphabetical(doc: Document)
    requires
        doc.wf(),
    ensures
        forall|i: int, j: int|
            0 <= i < j < doc.model().len() ==> lex_lt(doc.model()[i].name, doc.model()[j].name),
{
    lemma_sorted_global(doc.model());
}

impl Default for Document {
    /// Creates an empty [`Document`].
    fn default() -> (r: Self)
        ensures
            r.model() == Seq::<SectionModel>::empty(),
            r.wf(),
    {
        Document::new()
    }
}

} // verus!
