//! The section format that rules and templates share: sections of keys
//! with optional values, as the `ini` crate reads them.

use crate::number::Reading;
use crate::text::chars_of;
use vstd::prelude::*;

verus! {

/// A key of a section, with its value where it has one, and with what
/// the value was read as where it was read as a number.
#[derive(Debug, Clone, PartialEq, Eq)]
pub struct IniEntry {
    pub key: String,
    pub value: Option<String>,
    pub reading: Option<Reading>,
}

/// A named section with its entries.
#[derive(Debug, Clone, PartialEq, Eq)]
pub struct IniSection {
    pub name: String,
    pub entries: Vec<IniEntry>,
}

/// A document: its sections, one after the other.
#[derive(Debug, Clone, PartialEq, Eq)]
pub struct IniDocument {
    pub sections: Vec<IniSection>,
}

/// The characters of a text that may be absent.
pub open spec fn text_view(text: Option<String>) -> Option<Seq<char>> {
    match text {
        Some(t) => Some(t@),
        None => None,
    }
}

/// The entries as a map from key to value; a later entry of a key
/// replaces an earlier one.
pub open spec fn entries_map(entries: Seq<IniEntry>) -> Map<Seq<char>, Option<Seq<char>>>
    decreases entries.len(),
{
    if entries.len() == 0 {
        Map::empty()
    } else {
        entries_map(entries.drop_last()).insert(
            entries.last().key@,
            text_view(entries.last().value),
        )
    }
}

/// The sections as a map from name to entries.
pub open spec fn sections_map(sections: Seq<IniSection>) -> Map<
    Seq<char>,
    Map<Seq<char>, Option<Seq<char>>>,
>
    decreases sections.len(),
{
    if sections.len() == 0 {
        Map::empty()
    } else {
        sections_map(sections.drop_last()).insert(
            sections.last().name@,
            entries_map(sections.last().entries@),
        )
    }
}

impl IniSection {
    /// No key occurs twice.
    pub open spec fn wf(&self) -> bool {
        forall|i: int, j: int|
            0 <= i < j < self.entries@.len() ==> self.entries@[i].key@ != self.entries@[j].key@
    }

    /// `i` is the index of the entry with this key.
    pub open spec fn entry_at(&self, key: Seq<char>, i: int) -> bool {
        0 <= i < self.entries@.len() && self.entries@[i].key@ == key
    }

    /// Some entry has this key.
    pub open spec fn has_key(&self, key: Seq<char>) -> bool {
        exists|i: int| self.entry_at(key, i)
    }

    /// `i` is the index of the first entry with this key.
    pub open spec fn first_entry_at(&self, key: Seq<char>, i: int) -> bool {
        self.entry_at(key, i) && forall|j: int| 0 <= j < i ==> !self.entry_at(key, j)
    }

    /// The index of the first entry with this key, where one has it.
    pub open spec fn index_of(&self, key: Seq<char>) -> int {
        choose|i: int| self.first_entry_at(key, i)
    }

    /// The index of the first entry with this key.
    pub fn find(&self, key: &str) -> (r: Option<usize>)
        ensures
            match r {
                Some(i) => self.has_key(key@) && i == self.index_of(key@) && self.first_entry_at(
                    key@,
                    i as int,
                ),
                None => !self.has_key(key@),
            },
    {
        let wanted = key.to_owned();
        let mut i: usize = 0;
        while i < self.entries.len()
            invariant
                i <= self.entries.len(),
                wanted@ == key@,
                forall|j: int| 0 <= j < i ==> !self.entry_at(key@, j),
            decreases self.entries.len() - i,
        {
            if self.entries[i].key == wanted {
                assert(self.first_entry_at(key@, i as int));
                let ghost chosen = self.index_of(key@);
                assert(self.first_entry_at(key@, chosen));
                assert(chosen == i) by {
                    if chosen < i {
                        assert(!self.entry_at(key@, chosen));
                    } else if i < chosen {
                        assert(!self.entry_at(key@, i as int));
                    }
                }
                return Some(i);
            }
            i += 1;
        }
        None
    }
}

impl IniDocument {
    /// No section name occurs twice, and in no section a key.
    pub open spec fn wf(&self) -> bool {
        &&& forall|i: int, j: int|
            0 <= i < j < self.sections@.len() ==> self.sections@[i].name@
                != self.sections@[j].name@
        &&& forall|i: int| 0 <= i < self.sections@.len() ==> (#[trigger] self.sections@[i]).wf()
    }

    /// The document as a map from section name to entries.
    pub open spec fn contents(&self) -> Map<Seq<char>, Map<Seq<char>, Option<Seq<char>>>> {
        sections_map(self.sections@)
    }

    /// `i` is the index of the section with this name.
    pub open spec fn section_at(&self, name: Seq<char>, i: int) -> bool {
        0 <= i < self.sections@.len() && self.sections@[i].name@ == name
    }

    /// Some section has this name.
    pub open spec fn has_section(&self, name: Seq<char>) -> bool {
        exists|i: int| self.section_at(name, i)
    }

    /// `i` is the index of the first section with this name.
    pub open spec fn first_section_at(&self, name: Seq<char>, i: int) -> bool {
        self.section_at(name, i) && forall|j: int| 0 <= j < i ==> !self.section_at(name, j)
    }

    /// The index of the first section with this name, where one has it.
    pub open spec fn index_of(&self, name: Seq<char>) -> int {
        choose|i: int| self.first_section_at(name, i)
    }

    /// The index of the first section with this name.
    pub fn find(&self, name: &str) -> (r: Option<usize>)
        ensures
            match r {
                Some(i) => self.has_section(name@) && i == self.index_of(name@)
                    && self.first_section_at(name@, i as int),
                None => !self.has_section(name@),
            },
    {
        let wanted = name.to_owned();
        let mut i: usize = 0;
        while i < self.sections.len()
            invariant
                i <= self.sections.len(),
                wanted@ == name@,
                forall|j: int| 0 <= j < i ==> !self.section_at(name@, j),
            decreases self.sections.len() - i,
        {
            if self.sections[i].name == wanted {
                assert(self.first_section_at(name@, i as int));
                let ghost chosen = self.index_of(name@);
                assert(self.first_section_at(name@, chosen));
                assert(chosen == i) by {
                    if chosen < i {
                        assert(!self.section_at(name@, chosen));
                    } else if i < chosen {
                        assert(!self.section_at(name@, i as int));
                    }
                }
                return Some(i);
            }
            i += 1;
        }
        None
    }
}

/// Where a scan for brackets stands within a text.
pub struct BracketScan {
    /// The current line has reached a comment symbol.
    pub in_comment: bool,
    /// The current line has an opening bracket before any comment.
    pub opened: bool,
    /// It has a closing bracket before its first opening one.
    pub closed_before: bool,
    /// It has a closing bracket after its first opening one.
    pub closed_after: bool,
    /// An earlier line has its last closing bracket before its first
    /// opening one.
    pub reversed_line: bool,
}

impl BracketScan {
    /// The current line, as far as it was scanned, has its last closing
    /// bracket before its first opening one.
    pub open spec fn line_reversed(self) -> bool {
        self.opened && self.closed_before && !self.closed_after
    }

    /// The scan after one more character.
    pub open spec fn step(self, c: char) -> BracketScan {
        if c == '\n' {
            BracketScan {
                in_comment: false,
                opened: false,
                closed_before: false,
                closed_after: false,
                reversed_line: self.reversed_line || self.line_reversed(),
            }
        } else if self.in_comment {
            self
        } else if c == ';' || c == '#' {
            BracketScan { in_comment: true, ..self }
        } else if c == '[' {
            BracketScan { opened: true, ..self }
        } else if c == ']' {
            if self.opened {
                BracketScan { closed_after: true, ..self }
            } else {
                BracketScan { closed_before: true, ..self }
            }
        } else {
            self
        }
    }
}

/// The scan of a whole text, line by line; within a line, only what
/// stands before the first `;` or `#` counts.
pub open spec fn scanned(text: Seq<char>) -> BracketScan
    decreases text.len(),
{
    if text.len() == 0 {
        BracketScan {
            in_comment: false,
            opened: false,
            closed_before: false,
            closed_after: false,
            reversed_line: false,
        }
    } else {
        scanned(text.drop_last()).step(text.last())
    }
}

/// Some line of the text has, before any comment, both kinds of bracket
/// and its last closing one before its first opening one. The reader
/// does not return on such a line.
pub open spec fn reversed_brackets(text: Seq<char>) -> bool {
    scanned(text).reversed_line || scanned(text).line_reversed()
}

/// What `ini::macro_safe_read` makes of a text: nothing where it reports
/// an error; else its map from section name to the section's map from
/// key to value.
pub uninterp spec fn ini_sections(text: Seq<char>) -> Option<
    Map<Seq<char>, Map<Seq<char>, Option<Seq<char>>>>,
>;

/// Reads `text` with `ini::macro_safe_read` and hands the sections and
/// their entries out in the order in which the reader's maps are walked.
/// The contract claims that the reader's maps are a function of the text,
/// and that what is handed out holds each section and each key once.
#[verifier::external_body]
fn read_sections(text: &str) -> (r: Option<IniDocument>)
    requires
        !reversed_brackets(text@),
    ensures
        match r {
            Some(doc) => doc.wf() && ini_sections(text@) == Some(doc.contents()),
            None => ini_sections(text@) is None,
        },
{
    let sections = ini::macro_safe_read(text).ok()?.into_iter().map(
        |(name, entries)|
            IniSection {
                name,
                entries: entries.into_iter().map(
                    |(key, value)| IniEntry { key, value, reading: None },
                ).collect(),
            },
    );
    Some(IniDocument { sections: sections.collect() })
}

/// Whether some line of the text has its last closing bracket before its
/// first opening one.
pub fn has_reversed_brackets(text: &str) -> (r: bool)
    ensures
        r == reversed_brackets(text@),
{
    let chars = chars_of(text);
    let mut in_comment = false;
    let mut opened = false;
    let mut closed_before = false;
    let mut closed_after = false;
    let mut reversed_line = false;
    let mut i: usize = 0;
    assert(chars@.take(0) == Seq::<char>::empty());
    while i < chars.len()
        invariant
            i <= chars.len(),
            scanned(chars@.take(i as int)) == (BracketScan {
                in_comment,
                opened,
                closed_before,
                closed_after,
                reversed_line,
            }),
        decreases chars.len() - i,
    {
        let c = chars[i];
        assert(chars@.take(i + 1).drop_last() == chars@.take(i as int));
        assert(chars@.take(i + 1).last() == c);
        if c == '\n' {
            reversed_line = reversed_line || (opened && closed_before && !closed_after);
            in_comment = false;
            opened = false;
            closed_before = false;
            closed_after = false;
        } else if in_comment {
        } else if c == ';' || c == '#' {
            in_comment = true;
        } else if c == '[' {
            opened = true;
        } else if c == ']' {
            if opened {
                closed_after = true;
            } else {
                closed_before = true;
            }
        }
        i += 1;
    }
    assert(chars@.take(chars@.len() as int) == chars@);
    reversed_line || (opened && closed_before && !closed_after)
}

/// Reads a text in the section format. Nothing comes back where the
/// reader reports an error, or would not return.
pub fn read_ini(text: &str) -> (r: Option<IniDocument>)
    ensures
        match r {
            Some(doc) => !reversed_brackets(text@) && doc.wf() && ini_sections(text@) == Some(
                doc.contents(),
            ),
            None => reversed_brackets(text@) || ini_sections(text@) is None,
        },
{
    if has_reversed_brackets(text) {
        None
    } else {
        read_sections(text)
    }
}

/// The two sequences of entries have the same keys with the same values.
pub open spec fn same_entries(a: Seq<IniEntry>, b: Seq<IniEntry>) -> bool {
    &&& a.len() == b.len()
    &&& forall|j: int|
        0 <= j < a.len() ==> (#[trigger] a[j]).key@ == b[j].key@ && text_view(a[j].value)
            == text_view(b[j].value)
}

/// The two sequences of sections have the same names, keys and values.
pub open spec fn same_sections(a: Seq<IniSection>, b: Seq<IniSection>) -> bool {
    &&& a.len() == b.len()
    &&& forall|i: int|
        0 <= i < a.len() ==> (#[trigger] a[i]).name@ == b[i].name@ && same_entries(
            a[i].entries@,
            b[i].entries@,
        )
}

/// Entries with the same keys and values make the same map.
pub proof fn lemma_same_entries_map(a: Seq<IniEntry>, b: Seq<IniEntry>)
    requires
        same_entries(a, b),
    ensures
        entries_map(a) == entries_map(b),
    decreases a.len(),
{
    if a.len() > 0 {
        assert(same_entries(a.drop_last(), b.drop_last())) by {
            assert forall|j: int| 0 <= j < a.drop_last().len() implies (#[trigger] a.drop_last()[j]).key@
                == b.drop_last()[j].key@ && text_view(a.drop_last()[j].value) == text_view(
                b.drop_last()[j].value,
            ) by {
                assert(a.drop_last()[j] == a[j]);
                assert(b.drop_last()[j] == b[j]);
            }
        }
        lemma_same_entries_map(a.drop_last(), b.drop_last());
        assert(a.last() == a[a.len() - 1]);
        assert(b.last() == b[b.len() - 1]);
    }
}

/// Sections with the same names, keys and values make the same map.
pub proof fn lemma_same_sections_map(a: Seq<IniSection>, b: Seq<IniSection>)
    requires
        same_sections(a, b),
    ensures
        sections_map(a) == sections_map(b),
    decreases a.len(),
{
    if a.len() > 0 {
        assert(same_sections(a.drop_last(), b.drop_last())) by {
            assert forall|i: int| 0 <= i < a.drop_last().len() implies (#[trigger] a.drop_last()[i]).name@
                == b.drop_last()[i].name@ && same_entries(
                a.drop_last()[i].entries@,
                b.drop_last()[i].entries@,
            ) by {
                assert(a.drop_last()[i] == a[i]);
                assert(b.drop_last()[i] == b[i]);
            }
        }
        lemma_same_sections_map(a.drop_last(), b.drop_last());
        assert(a.last() == a[a.len() - 1]);
        assert(b.last() == b[b.len() - 1]);
        lemma_same_entries_map(a.last().entries@, b.last().entries@);
    }
}

/// The keys of the map of entries are the keys of the entries.
pub proof fn lemma_entries_map_keys(entries: Seq<IniEntry>, key: Seq<char>)
    ensures
        entries_map(entries).dom().contains(key) <==> exists|j: int|
            0 <= j < entries.len() && entries[j].key@ == key,
    decreases entries.len(),
{
    if entries.len() > 0 {
        let earlier = entries.drop_last();
        lemma_entries_map_keys(earlier, key);
        if exists|j: int| 0 <= j < earlier.len() && earlier[j].key@ == key {
            let j = choose|j: int| 0 <= j < earlier.len() && earlier[j].key@ == key;
            assert(entries[j].key@ == key);
        }
        if exists|j: int| 0 <= j < entries.len() && entries[j].key@ == key {
            let j = choose|j: int| 0 <= j < entries.len() && entries[j].key@ == key;
            if j < earlier.len() {
                assert(earlier[j].key@ == key);
            }
        }
    }
}

/// Where no key occurs twice, the map of entries has for each entry's
/// key that entry's value.
pub proof fn lemma_entries_map_value(entries: Seq<IniEntry>, j: int)
    requires
        0 <= j < entries.len(),
        forall|a: int, b: int| 0 <= a < b < entries.len() ==> entries[a].key@ != entries[b].key@,
    ensures
        entries_map(entries).dom().contains(entries[j].key@),
        entries_map(entries)[entries[j].key@] == text_view(entries[j].value),
    decreases entries.len(),
{
    let earlier = entries.drop_last();
    if j < earlier.len() {
        assert forall|a: int, b: int| 0 <= a < b < earlier.len() implies earlier[a].key@
            != earlier[b].key@ by {
            assert(earlier[a] == entries[a]);
            assert(earlier[b] == entries[b]);
        }
        lemma_entries_map_value(earlier, j);
        assert(earlier[j] == entries[j]);
        assert(entries[j].key@ != entries[entries.len() - 1].key@);
    }
}

/// The names of the map of sections are the names of the sections.
pub proof fn lemma_sections_map_names(sections: Seq<IniSection>, name: Seq<char>)
    ensures
        sections_map(sections).dom().contains(name) <==> exists|i: int|
            0 <= i < sections.len() && sections[i].name@ == name,
    decreases sections.len(),
{
    if sections.len() > 0 {
        let earlier = sections.drop_last();
        lemma_sections_map_names(earlier, name);
        if exists|i: int| 0 <= i < earlier.len() && earlier[i].name@ == name {
            let i = choose|i: int| 0 <= i < earlier.len() && earlier[i].name@ == name;
            assert(sections[i].name@ == name);
        }
        if exists|i: int| 0 <= i < sections.len() && sections[i].name@ == name {
            let i = choose|i: int| 0 <= i < sections.len() && sections[i].name@ == name;
            if i < earlier.len() {
                assert(earlier[i].name@ == name);
            }
        }
    }
}

/// Where no name occurs twice, the map of sections has for each
/// section's name the map of that section's entries.
pub proof fn lemma_sections_map_value(sections: Seq<IniSection>, i: int)
    requires
        0 <= i < sections.len(),
        forall|a: int, b: int|
            0 <= a < b < sections.len() ==> sections[a].name@ != sections[b].name@,
    ensures
        sections_map(sections).dom().contains(sections[i].name@),
        sections_map(sections)[sections[i].name@] == entries_map(sections[i].entries@),
    decreases sections.len(),
{
    let earlier = sections.drop_last();
    if i < earlier.len() {
        assert forall|a: int, b: int| 0 <= a < b < earlier.len() implies earlier[a].name@
            != earlier[b].name@ by {
            assert(earlier[a] == sections[a]);
            assert(earlier[b] == sections[b]);
        }
        lemma_sections_map_value(earlier, i);
        assert(earlier[i] == sections[i]);
        assert(sections[i].name@ != sections[sections.len() - 1].name@);
    }
}

impl IniDocument {
    /// Whether the document has a section of this name.
    pub(crate) fn holds_section(&self, name: &str) -> (r: bool)
        ensures
            r == self.contents().dom().contains(name@),
    {
        proof {
            lemma_sections_map_names(self.sections@, name@);
        }
        let found = self.find(name);
        proof {
            if found is Some {
                assert(self.section_at(name@, found->0 as int));
            } else {
                assert forall|i: int| 0 <= i < self.sections@.len() implies self.sections@[i].name@
                    != name@ by {
                    assert(!self.section_at(name@, i));
                }
            }
        }
        found.is_some()
    }

    /// Whether the document has this key in a section of this name.
    pub(crate) fn holds_key(&self, name: &str, key: &str) -> (r: bool)
        requires
            self.wf(),
        ensures
            r == (self.contents().dom().contains(name@) && self.contents()[name@].dom().contains(
                key@,
            )),
    {
        proof {
            lemma_sections_map_names(self.sections@, name@);
        }
        match self.find(name) {
            None => {
                proof {
                    assert forall|i: int| 0 <= i < self.sections@.len() implies self.sections@[i].name@
                        != name@ by {
                        assert(!self.section_at(name@, i));
                    }
                }
                false
            },
            Some(i) => {
                let section = &self.sections[i];
                proof {
                    assert(self.section_at(name@, i as int));
                    lemma_sections_map_value(self.sections@, i as int);
                    lemma_entries_map_keys(section.entries@, key@);
                }
                let found = section.find(key);
                proof {
                    if found is Some {
                        assert(section.entry_at(key@, found->0 as int));
                    } else {
                        assert forall|j: int| 0 <= j < section.entries@.len() implies section.entries@[j].key@
                            != key@ by {
                            assert(!section.entry_at(key@, j));
                        }
                    }
                }
                found.is_some()
            },
        }
    }
}

} // verus!
