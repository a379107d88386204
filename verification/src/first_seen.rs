//! The order of a file. The reader hands its sections and keys out in no
//! order of their own, so the order is taken from the text: each line end
//! is a place up to which the text is read by itself, and a section or a
//! key stands before another where it is seen no later.

use crate::ini::{
    entries_map, ini_sections, lemma_entries_map_keys, lemma_entries_map_value,
    lemma_sections_map_names, lemma_sections_map_value, read_ini, reversed_brackets,
    sections_map, text_view, IniDocument, IniEntry, IniSection,
};
use crate::order::{is_arrangement, order_by, placed};
use crate::text::{chars_of, slice_chars, string_of};
use vstd::prelude::*;

verus! {

/// A line of the text ends before index `c`.
pub open spec fn is_line_end(text: Seq<char>, c: int) -> bool {
    0 < c <= text.len() && (c == text.len() || text[c - 1] == '\n')
}

/// What the reader finds in a text: nothing where it reports an error or
/// would not return.
pub open spec fn found_in(text: Seq<char>) -> Option<
    Map<Seq<char>, Map<Seq<char>, Option<Seq<char>>>>,
> {
    if reversed_brackets(text) {
        None
    } else {
        ini_sections(text)
    }
}

/// The reader finds the section in the first `c` characters of the text.
pub open spec fn section_seen(text: Seq<char>, c: int, name: Seq<char>) -> bool {
    found_in(text.take(c)) matches Some(found) && found.dom().contains(name)
}

/// The reader finds the key, in the section, in the first `c` characters
/// of the text.
pub open spec fn key_seen(text: Seq<char>, c: int, name: Seq<char>, key: Seq<char>) -> bool {
    found_in(text.take(c)) matches Some(found) && found.dom().contains(name)
        && found[name].dom().contains(key)
}

/// As the text is read line by line, the section `first` is seen no
/// later than the section `second`.
pub open spec fn section_no_later(text: Seq<char>, first: Seq<char>, second: Seq<char>) -> bool {
    forall|c: int|
        is_line_end(text, c) && #[trigger] section_seen(text, c, second) ==> exists|b: int|
            is_line_end(text, b) && b <= c && #[trigger] section_seen(text, b, first)
}

/// As the text is read line by line, the key `first` of the section is
/// seen no later than its key `second`.
pub open spec fn key_no_later(
    text: Seq<char>,
    name: Seq<char>,
    first: Seq<char>,
    second: Seq<char>,
) -> bool {
    forall|c: int|
        is_line_end(text, c) && #[trigger] key_seen(text, c, name, second) ==> exists|b: int|
            is_line_end(text, b) && b <= c && #[trigger] key_seen(text, b, name, first)
}

/// The sections of the document, and the keys of each section, stand in
/// the order in which the text first shows them.
pub open spec fn in_file_order(text: Seq<char>, doc: IniDocument) -> bool {
    &&& forall|i: int, j: int|
        0 <= i < j < doc.sections@.len() ==> section_no_later(
            text,
            (#[trigger] doc.sections@[i]).name@,
            (#[trigger] doc.sections@[j]).name@,
        )
    &&& forall|i: int, a: int, b: int|
        0 <= i < doc.sections@.len() && 0 <= a < b < doc.sections@[i].entries@.len()
            ==> key_no_later(
            text,
            doc.sections@[i].name@,
            (#[trigger] doc.sections@[i].entries@[a]).key@,
            (#[trigger] doc.sections@[i].entries@[b]).key@,
        )
}

/// What the reader finds up to each line end of a text.
pub struct Probes {
    /// The line ends, in rising order.
    pub ends: Vec<usize>,
    /// What the reader finds in the text up to each of them.
    pub found: Vec<Option<IniDocument>>,
}

impl Probes {
    /// The probes are those of the text: one for each of its line ends.
    pub open spec fn of(&self, text: Seq<char>) -> bool {
        &&& self.ends@.len() == self.found@.len()
        &&& forall|k: int|
            0 <= k < self.ends@.len() ==> is_line_end(text, #[trigger] self.ends@[k] as int)
        &&& forall|k: int, l: int| 0 <= k < l < self.ends@.len() ==> self.ends@[k] < self.ends@[l]
        &&& forall|c: int|
            is_line_end(text, c) ==> exists|k: int|
                0 <= k < self.ends@.len() && #[trigger] self.ends@[k] == c
        &&& forall|k: int|
            0 <= k < self.found@.len() ==> match #[trigger] self.found@[k] {
                Some(doc) => doc.wf() && found_in(text.take(self.ends@[k] as int)) == Some(
                    doc.contents(),
                ),
                None => found_in(text.take(self.ends@[k] as int)) is None,
            }
    }
}

/// Reads the text up to each of its line ends.
pub fn probe(text: &Vec<char>) -> (probes: Probes)
    ensures
        probes.of(text@),
{
    let mut ends: Vec<usize> = Vec::new();
    let mut found: Vec<Option<IniDocument>> = Vec::new();
    let mut c: usize = 0;
    while c < text.len()
        invariant
            c <= text.len(),
            ends@.len() == found@.len(),
            forall|k: int| 0 <= k < ends@.len() ==> is_line_end(text@, #[trigger] ends@[k] as int),
            forall|k: int| 0 <= k < ends@.len() ==> (#[trigger] ends@[k]) <= c,
            forall|k: int, l: int| 0 <= k < l < ends@.len() ==> ends@[k] < ends@[l],
            forall|b: int|
                is_line_end(text@, b) && b <= c ==> exists|k: int|
                    0 <= k < ends@.len() && #[trigger] ends@[k] == b,
            forall|k: int|
                0 <= k < found@.len() ==> match #[trigger] found@[k] {
                    Some(doc) => doc.wf() && found_in(text@.take(ends@[k] as int)) == Some(
                        doc.contents(),
                    ),
                    None => found_in(text@.take(ends@[k] as int)) is None,
                },
        decreases text.len() - c,
    {
        c += 1;
        if c == text.len() || text[c - 1] == '\n' {
            let part = string_of(&slice_chars(text, 0, c));
            assert(part@ == text@.take(c as int));
            let ghost before = ends@;
            ends.push(c);
            found.push(read_ini(part.as_str()));
            assert forall|b: int| is_line_end(text@, b) && b <= c implies exists|k: int|
                0 <= k < ends@.len() && #[trigger] ends@[k] == b by {
                if b == c {
                    assert(ends@[ends@.len() - 1] == b);
                } else {
                    let k = choose|k: int| 0 <= k < before.len() && #[trigger] before[k] == b;
                    assert(ends@[k] == b);
                }
            }
        }
    }
    Probes { ends, found }
}

/// The place past every line end of the text, at which stands what is
/// seen at none.
pub open spec fn past_end(text: Seq<char>) -> int {
    text.len() as int + 1
}

/// The section is first seen at `r`: at a line end at which it is seen
/// and before which it is not, or past the end where it is never seen.
pub open spec fn section_first_seen_at(text: Seq<char>, name: Seq<char>, r: int) -> bool {
    &&& r == past_end(text) || (is_line_end(text, r) && section_seen(text, r, name))
    &&& forall|c: int| is_line_end(text, c) && c < r ==> !#[trigger] section_seen(text, c, name)
}

/// The key of the section is first seen at `r`.
pub open spec fn key_first_seen_at(text: Seq<char>, name: Seq<char>, key: Seq<char>, r: int) -> bool {
    &&& r == past_end(text) || (is_line_end(text, r) && key_seen(text, r, name, key))
    &&& forall|c: int| is_line_end(text, c) && c < r ==> !#[trigger] key_seen(text, c, name, key)
}

/// A section that is first seen no later than another is seen no later.
pub proof fn lemma_section_order(
    text: Seq<char>,
    first: Seq<char>,
    second: Seq<char>,
    r: int,
    s: int,
)
    requires
        section_first_seen_at(text, first, r),
        section_first_seen_at(text, second, s),
        r <= s,
    ensures
        section_no_later(text, first, second),
{
    assert forall|c: int|
        is_line_end(text, c) && #[trigger] section_seen(text, c, second) implies exists|b: int|
        is_line_end(text, b) && b <= c && #[trigger] section_seen(text, b, first) by {
        assert(s <= c);
        assert(is_line_end(text, r) && section_seen(text, r, first));
    }
}

/// A key that is first seen no later than another is seen no later.
pub proof fn lemma_key_order(
    text: Seq<char>,
    name: Seq<char>,
    first: Seq<char>,
    second: Seq<char>,
    r: int,
    s: int,
)
    requires
        key_first_seen_at(text, name, first, r),
        key_first_seen_at(text, name, second, s),
        r <= s,
    ensures
        key_no_later(text, name, first, second),
{
    assert forall|c: int|
        is_line_end(text, c) && #[trigger] key_seen(text, c, name, second) implies exists|b: int|
        is_line_end(text, b) && b <= c && #[trigger] key_seen(text, b, name, first) by {
        assert(s <= c);
        assert(is_line_end(text, r) && key_seen(text, r, name, first));
    }
}

impl Probes {
    /// The place at which the section is first seen.
    fn section_first_seen(&self, text: &Vec<char>, name: &str) -> (r: u128)
        requires
            self.of(text@),
        ensures
            section_first_seen_at(text@, name@, r as int),
    {
        let mut k: usize = 0;
        while k < self.ends.len()
            invariant
                k <= self.ends.len(),
                self.of(text@),
                forall|l: int|
                    0 <= l < k ==> !section_seen(text@, #[trigger] self.ends@[l] as int, name@),
            decreases self.ends.len() - k,
        {
            let here = match &self.found[k] {
                Some(doc) => doc.holds_section(name),
                None => false,
            };
            assert(here == section_seen(text@, self.ends@[k as int] as int, name@));
            if here {
                let r = self.ends[k];
                assert forall|c: int| is_line_end(text@, c) && c < r implies !#[trigger] section_seen(
                    text@,
                    c,
                    name@,
                ) by {
                    let l = choose|l: int|
                        0 <= l < self.ends@.len() && #[trigger] self.ends@[l] == c;
                    if l >= k {
                        assert(self.ends@[k as int] <= self.ends@[l]);
                    }
                }
                return r as u128;
            }
            k += 1;
        }
        assert forall|c: int|
            is_line_end(text@, c) && c < past_end(text@) implies !#[trigger] section_seen(
            text@,
            c,
            name@,
        ) by {
            let l = choose|l: int| 0 <= l < self.ends@.len() && #[trigger] self.ends@[l] == c;
        }
        text.len() as u128 + 1
    }

    /// The place at which the key is first seen in the section.
    fn key_first_seen(&self, text: &Vec<char>, name: &str, key: &str) -> (r: u128)
        requires
            self.of(text@),
        ensures
            key_first_seen_at(text@, name@, key@, r as int),
    {
        let mut k: usize = 0;
        while k < self.ends.len()
            invariant
                k <= self.ends.len(),
                self.of(text@),
                forall|l: int|
                    0 <= l < k ==> !key_seen(text@, #[trigger] self.ends@[l] as int, name@, key@),
            decreases self.ends.len() - k,
        {
            let here = match &self.found[k] {
                Some(doc) => doc.holds_key(name, key),
                None => false,
            };
            assert(here == key_seen(text@, self.ends@[k as int] as int, name@, key@));
            if here {
                let r = self.ends[k];
                assert forall|c: int| is_line_end(text@, c) && c < r implies !#[trigger] key_seen(
                    text@,
                    c,
                    name@,
                    key@,
                ) by {
                    let l = choose|l: int|
                        0 <= l < self.ends@.len() && #[trigger] self.ends@[l] == c;
                    if l >= k {
                        assert(self.ends@[k as int] <= self.ends@[l]);
                    }
                }
                return r as u128;
            }
            k += 1;
        }
        assert forall|c: int|
            is_line_end(text@, c) && c < past_end(text@) implies !#[trigger] key_seen(
            text@,
            c,
            name@,
            key@,
        ) by {
            let l = choose|l: int| 0 <= l < self.ends@.len() && #[trigger] self.ends@[l] == c;
        }
        text.len() as u128 + 1
    }
}

/// `after` holds the entries of `before` in the order `order`.
pub open spec fn entries_arranged(
    before: Seq<IniEntry>,
    after: Seq<IniEntry>,
    order: Seq<usize>,
) -> bool {
    &&& is_arrangement(before.len() as int, order)
    &&& after.len() == before.len()
    &&& forall|q: int|
        0 <= q < after.len() ==> (#[trigger] after[q]).key@ == before[order[q] as int].key@
            && text_view(after[q].value) == text_view(before[order[q] as int].value)
}

/// `after` holds the sections of `before` in the order `order`, each
/// with the same keys and values, and each key once.
pub open spec fn sections_arranged(
    before: Seq<IniSection>,
    after: Seq<IniSection>,
    order: Seq<usize>,
) -> bool {
    &&& is_arrangement(before.len() as int, order)
    &&& after.len() == before.len()
    &&& forall|p: int|
        0 <= p < after.len() ==> (#[trigger] after[p]).name@ == before[order[p] as int].name@
            && after[p].wf() && entries_map(after[p].entries@) == entries_map(
            before[order[p] as int].entries@,
        )
}

/// Entries in another order, where no key occurs twice, make the same
/// map, and still no key occurs twice.
pub proof fn lemma_entries_arranged(
    before: Seq<IniEntry>,
    after: Seq<IniEntry>,
    order: Seq<usize>,
)
    requires
        entries_arranged(before, after, order),
        forall|a: int, b: int| 0 <= a < b < before.len() ==> before[a].key@ != before[b].key@,
    ensures
        forall|a: int, b: int| 0 <= a < b < after.len() ==> after[a].key@ != after[b].key@,
        entries_map(before) == entries_map(after),
{
    assert forall|a: int, b: int| 0 <= a < b < after.len() implies after[a].key@
        != after[b].key@ by {
        let x = order[a] as int;
        let y = order[b] as int;
        assert(after[a].key@ == before[x].key@);
        assert(after[b].key@ == before[y].key@);
        assert(x != y);
        if x < y {
            assert(before[x].key@ != before[y].key@);
        } else {
            assert(before[y].key@ != before[x].key@);
        }
    }
    let m = entries_map(before);
    let n = entries_map(after);
    assert forall|key: Seq<char>| m.dom().contains(key) <==> n.dom().contains(key) by {
        lemma_entries_map_keys(before, key);
        lemma_entries_map_keys(after, key);
        if exists|j: int| 0 <= j < before.len() && before[j].key@ == key {
            let j = choose|j: int| 0 <= j < before.len() && before[j].key@ == key;
            assert(placed(order, j));
            let q = choose|q: int| 0 <= q < order.len() && order[q] == j;
            assert(after[q].key@ == key);
        }
        if exists|q: int| 0 <= q < after.len() && after[q].key@ == key {
            let q = choose|q: int| 0 <= q < after.len() && after[q].key@ == key;
            assert(after[q].key@ == before[order[q] as int].key@);
        }
    }
    assert forall|key: Seq<char>| m.dom().contains(key) implies m[key] == n[key] by {
        lemma_entries_map_keys(before, key);
        let j = choose|j: int| 0 <= j < before.len() && before[j].key@ == key;
        assert(placed(order, j));
        let q = choose|q: int| 0 <= q < order.len() && order[q] == j;
        assert(after[q].key@ == key);
        lemma_entries_map_value(before, j);
        lemma_entries_map_value(after, q);
    }
    assert(m =~= n);
}

/// Sections in another order, where no name occurs twice, make the same
/// map, and still no name occurs twice.
pub proof fn lemma_sections_arranged(
    before: Seq<IniSection>,
    after: Seq<IniSection>,
    order: Seq<usize>,
)
    requires
        sections_arranged(before, after, order),
        forall|a: int, b: int| 0 <= a < b < before.len() ==> before[a].name@ != before[b].name@,
    ensures
        forall|a: int, b: int| 0 <= a < b < after.len() ==> after[a].name@ != after[b].name@,
        sections_map(before) == sections_map(after),
{
    assert forall|a: int, b: int| 0 <= a < b < after.len() implies after[a].name@
        != after[b].name@ by {
        let x = order[a] as int;
        let y = order[b] as int;
        assert(after[a].name@ == before[x].name@);
        assert(after[b].name@ == before[y].name@);
        assert(x != y);
        if x < y {
            assert(before[x].name@ != before[y].name@);
        } else {
            assert(before[y].name@ != before[x].name@);
        }
    }
    let m = sections_map(before);
    let n = sections_map(after);
    assert forall|name: Seq<char>| m.dom().contains(name) <==> n.dom().contains(name) by {
        lemma_sections_map_names(before, name);
        lemma_sections_map_names(after, name);
        if exists|i: int| 0 <= i < before.len() && before[i].name@ == name {
            let i = choose|i: int| 0 <= i < before.len() && before[i].name@ == name;
            assert(placed(order, i));
            let p = choose|p: int| 0 <= p < order.len() && order[p] == i;
            assert(after[p].name@ == name);
        }
        if exists|p: int| 0 <= p < after.len() && after[p].name@ == name {
            let p = choose|p: int| 0 <= p < after.len() && after[p].name@ == name;
            assert(after[p].name@ == before[order[p] as int].name@);
        }
    }
    assert forall|name: Seq<char>| m.dom().contains(name) implies m[name] == n[name] by {
        lemma_sections_map_names(before, name);
        let i = choose|i: int| 0 <= i < before.len() && before[i].name@ == name;
        assert(placed(order, i));
        let p = choose|p: int| 0 <= p < order.len() && order[p] == i;
        assert(after[p].name@ == name);
        lemma_sections_map_value(before, i);
        lemma_sections_map_value(after, p);
    }
    assert(m =~= n);
}

/// The entries of a section in the order in which the text first shows
/// their keys.
fn arrange_entries(section: &IniSection, probes: &Probes, text: &Vec<char>) -> (out: IniSection)
    requires
        probes.of(text@),
        section.wf(),
    ensures
        out.name@ == section.name@,
        out.wf(),
        entries_map(out.entries@) == entries_map(section.entries@),
        forall|a: int, b: int|
            0 <= a < b < out.entries@.len() ==> key_no_later(
                text@,
                section.name@,
                (#[trigger] out.entries@[a]).key@,
                (#[trigger] out.entries@[b]).key@,
            ),
{
    let mut ranks: Vec<u128> = Vec::new();
    let mut j: usize = 0;
    while j < section.entries.len()
        invariant
            j <= section.entries.len(),
            probes.of(text@),
            ranks@.len() == j,
            forall|k: int|
                0 <= k < j ==> key_first_seen_at(
                    text@,
                    section.name@,
                    section.entries@[k].key@,
                    #[trigger] ranks@[k] as int,
                ),
        decreases section.entries.len() - j,
    {
        ranks.push(
            probes.key_first_seen(text, section.name.as_str(), section.entries[j].key.as_str()),
        );
        j += 1;
    }
    let order = order_by(&ranks);
    let mut entries: Vec<IniEntry> = Vec::new();
    let mut q: usize = 0;
    while q < order.len()
        invariant
            q <= order.len(),
            is_arrangement(section.entries@.len() as int, order@),
            entries@.len() == q,
            forall|k: int|
                0 <= k < q ==> (#[trigger] entries@[k]).key@ == section.entries@[order@[k] as int].key@
                    && text_view(entries@[k].value) == text_view(
                    section.entries@[order@[k] as int].value,
                ),
        decreases order.len() - q,
    {
        let entry = &section.entries[order[q]];
        let value = match &entry.value {
            Some(v) => Some(v.clone()),
            None => None,
        };
        entries.push(IniEntry { key: entry.key.clone(), value, reading: None });
        q += 1;
    }
    let out = IniSection { name: section.name.clone(), entries };
    proof {
        assert(entries_arranged(section.entries@, out.entries@, order@));
        lemma_entries_arranged(section.entries@, out.entries@, order@);
        assert forall|a: int, b: int| 0 <= a < b < out.entries@.len() implies key_no_later(
            text@,
            section.name@,
            (#[trigger] out.entries@[a]).key@,
            (#[trigger] out.entries@[b]).key@,
        ) by {
            let x = order@[a] as int;
            let y = order@[b] as int;
            assert(ranks@[x] <= ranks@[y]);
            assert(key_first_seen_at(
                text@,
                section.name@,
                section.entries@[x].key@,
                ranks@[x] as int,
            ));
            assert(key_first_seen_at(
                text@,
                section.name@,
                section.entries@[y].key@,
                ranks@[y] as int,
            ));
            lemma_key_order(
                text@,
                section.name@,
                section.entries@[x].key@,
                section.entries@[y].key@,
                ranks@[x] as int,
                ranks@[y] as int,
            );
        }
    }
    out
}

/// Reads a text in the section format, and hands the sections and the
/// keys of each section out in the order in which the text first shows
/// them. Nothing comes back where the reader reports an error, or would
/// not return.
pub fn read_in_file_order(text: &str) -> (r: Option<IniDocument>)
    ensures
        match r {
            Some(doc) => doc.wf() && found_in(text@) == Some(doc.contents()) && in_file_order(
                text@,
                doc,
            ),
            None => found_in(text@) is None,
        },
{
    let found = match read_ini(text) {
        None => {
            return None;
        },
        Some(found) => found,
    };
    let chars = chars_of(text);
    let probes = probe(&chars);
    let mut ranks: Vec<u128> = Vec::new();
    let mut i: usize = 0;
    while i < found.sections.len()
        invariant
            i <= found.sections.len(),
            probes.of(chars@),
            ranks@.len() == i,
            forall|k: int|
                0 <= k < i ==> section_first_seen_at(
                    chars@,
                    found.sections@[k].name@,
                    #[trigger] ranks@[k] as int,
                ),
        decreases found.sections.len() - i,
    {
        ranks.push(probes.section_first_seen(&chars, found.sections[i].name.as_str()));
        i += 1;
    }
    let order = order_by(&ranks);
    let mut sections: Vec<IniSection> = Vec::new();
    let mut p: usize = 0;
    while p < order.len()
        invariant
            p <= order.len(),
            probes.of(chars@),
            found.wf(),
            is_arrangement(found.sections@.len() as int, order@),
            sections@.len() == p,
            forall|k: int|
                0 <= k < p ==> (#[trigger] sections@[k]).name@ == found.sections@[order@[k] as int].name@
                    && sections@[k].wf() && entries_map(sections@[k].entries@) == entries_map(
                    found.sections@[order@[k] as int].entries@,
                ),
            forall|k: int, a: int, b: int|
                0 <= k < p && 0 <= a < b < sections@[k].entries@.len() ==> key_no_later(
                    chars@,
                    sections@[k].name@,
                    (#[trigger] sections@[k].entries@[a]).key@,
                    (#[trigger] sections@[k].entries@[b]).key@,
                ),
        decreases order.len() - p,
    {
        let section = &found.sections[order[p]];
        assert(section.wf());
        sections.push(arrange_entries(section, &probes, &chars));
        p += 1;
    }
    let doc = IniDocument { sections };
    proof {
        assert(sections_arranged(found.sections@, doc.sections@, order@));
        lemma_sections_arranged(found.sections@, doc.sections@, order@);
        assert forall|a: int, b: int| 0 <= a < b < doc.sections@.len() implies section_no_later(
            chars@,
            (#[trigger] doc.sections@[a]).name@,
            (#[trigger] doc.sections@[b]).name@,
        ) by {
            let x = order@[a] as int;
            let y = order@[b] as int;
            assert(ranks@[x] <= ranks@[y]);
            assert(section_first_seen_at(chars@, found.sections@[x].name@, ranks@[x] as int));
            assert(section_first_seen_at(chars@, found.sections@[y].name@, ranks@[y] as int));
            lemma_section_order(
                chars@,
                found.sections@[x].name@,
                found.sections@[y].name@,
                ranks@[x] as int,
                ranks@[y] as int,
            );
        }
    }
    Some(doc)
}

} // verus!
