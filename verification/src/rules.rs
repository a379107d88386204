//! The preset rules parser: from the rules text to the variable catalogue
//! and the presets of each category.

use crate::error::Error;
use crate::first_seen::{found_in, in_file_order, read_in_file_order};
use crate::ini::{
    lemma_same_sections_map, same_entries, same_sections, text_view, IniDocument, IniEntry,
    IniSection,
};
use crate::resolve::{
    accepted_reading, read_value, reading_view, resolve_with, resolved, Variable, VariableView,
};
use crate::text::{
    append_chars, chars_of, contains, decimal, decimal_digits, matches_at, occurs, occurs_at,
    string_of,
};
use vstd::prelude::*;

verus! {

/// A named bundle of values for the variables, in a category.
#[derive(Debug, Clone, PartialEq, Eq)]
pub struct Preset {
    pub name: String,
    pub category: String,
    pub values: Vec<Variable>,
}

/// The presets of one category, in the order in which they were read.
#[derive(Debug, Clone, PartialEq, Eq)]
pub struct Category {
    pub name: String,
    pub presets: Vec<Preset>,
}

/// The parsed rules: where they came from, the variable catalogue, and
/// the categories in the order in which each was first seen.
#[derive(Debug, Clone, PartialEq, Eq)]
pub struct Rules {
    pub source_path: String,
    pub variables: Vec<String>,
    pub categories: Vec<Category>,
}

/// A `Preset` as a mathematical value.
pub struct PresetView {
    pub name: Seq<char>,
    pub category: Seq<char>,
    pub values: Seq<VariableView>,
}

/// A `Category` as a mathematical value.
pub struct CategoryView {
    pub name: Seq<char>,
    pub presets: Seq<PresetView>,
}

/// `Rules` as a mathematical value.
pub struct RulesView {
    pub source_path: Seq<char>,
    pub variables: Seq<Seq<char>>,
    pub categories: Seq<CategoryView>,
}

/// The variables as mathematical values.
pub open spec fn variables_view(values: Seq<Variable>) -> Seq<VariableView> {
    values.map_values(|v: Variable| v@)
}

/// The presets as mathematical values.
pub open spec fn presets_view(presets: Seq<Preset>) -> Seq<PresetView> {
    presets.map_values(|p: Preset| p@)
}

/// The categories as mathematical values.
pub open spec fn categories_view(categories: Seq<Category>) -> Seq<CategoryView> {
    categories.map_values(|c: Category| c@)
}

/// The texts as character sequences.
pub open spec fn texts_view(texts: Seq<String>) -> Seq<Seq<char>> {
    texts.map_values(|t: String| t@)
}

impl View for Preset {
    type V = PresetView;

    open spec fn view(&self) -> PresetView {
        PresetView {
            name: self.name@,
            category: self.category@,
            values: variables_view(self.values@),
        }
    }
}

impl View for Category {
    type V = CategoryView;

    open spec fn view(&self) -> CategoryView {
        CategoryView { name: self.name@, presets: presets_view(self.presets@) }
    }
}

impl View for Rules {
    type V = RulesView;

    open spec fn view(&self) -> RulesView {
        RulesView {
            source_path: self.source_path@,
            variables: texts_view(self.variables@),
            categories: categories_view(self.categories@),
        }
    }
}

/// The mathematical value of a parser's result.
pub open spec fn rules_result_view(r: Result<Rules, Error>) -> Result<RulesView, Error> {
    match r {
        Ok(rules) => Ok(rules@),
        Err(e) => Err(e),
    }
}

/// The rules of a source that defines no presets.
pub open spec fn empty_rules(path: Seq<char>) -> RulesView {
    RulesView {
        source_path: forward_slashes(path),
        variables: Seq::empty(),
        categories: Seq::empty(),
    }
}

/// The path with each backslash turned into a slash.
pub open spec fn forward_slashes(path: Seq<char>) -> Seq<char> {
    path.map_values(
        |c: char|
            if c == '\\' {
                '/'
            } else {
                c
            },
    )
}

/// The header of a preset section that has no number yet.
pub open spec fn preset_header() -> Seq<char> {
    seq!['[', 'P', 'r', 'e', 's', 'e', 't', ']']
}

/// The header of the preset section with number `k`.
pub open spec fn numbered_header(k: nat) -> Seq<char> {
    seq!['[', 'P', 'r', 'e', 's', 'e', 't'] + decimal(k) + seq![']']
}

/// The text with its preset headers numbered from `next` on, from left
/// to right; everything else stays as it is.
pub open spec fn numbered(text: Seq<char>, next: nat) -> Seq<char>
    decreases text.len(),
{
    if text.len() == 0 {
        text
    } else if occurs_at(text, preset_header(), 0) {
        numbered_header(next) + numbered(text.skip(8), next + 1)
    } else {
        seq![text[0]] + numbered(text.skip(1), next)
    }
}

/// The text with its preset headers numbered by position: the first
/// becomes `[Preset1]`, the second `[Preset2]`, and so on.
pub open spec fn disambiguated(text: Seq<char>) -> Seq<char> {
    numbered(text, 1)
}

/// The text has a preset section marker.
pub open spec fn has_preset_marker(text: Seq<char>) -> bool {
    occurs(text, "[Preset"@)
}

/// The section is a preset section: its name holds `reset`.
pub open spec fn is_preset_section(name: Seq<char>) -> bool {
    occurs(name, "reset"@)
}

/// `i` is the index of the variable with this name.
pub open spec fn variable_at(values: Seq<VariableView>, name: Seq<char>, i: int) -> bool {
    0 <= i < values.len() && values[i].name == name
}

/// A variable of this name is among the values.
pub open spec fn has_variable(values: Seq<VariableView>, name: Seq<char>) -> bool {
    exists|i: int| variable_at(values, name, i)
}

/// `i` is the index of the first variable with this name.
pub open spec fn first_variable_at(values: Seq<VariableView>, name: Seq<char>, i: int) -> bool {
    variable_at(values, name, i) && forall|j: int| 0 <= j < i ==> !variable_at(values, name, j)
}

/// The values with `v` set: in the place of the variable of its name
/// where there is one, else at the end.
pub open spec fn put(values: Seq<VariableView>, v: VariableView) -> Seq<VariableView> {
    if has_variable(values, v.name) {
        values.update(choose|i: int| first_variable_at(values, v.name, i), v)
    } else {
        values.push(v)
    }
}

/// The entries resolved in order onto the values `so_far`, up to the
/// first that fails. With `only_marked`, entries whose key holds no `$`
/// are passed over.
pub open spec fn resolved_onto(
    so_far: Seq<VariableView>,
    entries: Seq<IniEntry>,
    only_marked: bool,
) -> Result<Seq<VariableView>, Error>
    decreases entries.len(),
{
    if entries.len() == 0 {
        Ok(so_far)
    } else if only_marked && !entries[0].key@.contains('$') {
        resolved_onto(so_far, entries.skip(1), only_marked)
    } else {
        match resolved(
            entries[0].key@,
            entries[0].value is Some,
            reading_view(entries[0].reading),
        ) {
            Err(e) => Err(e),
            Ok(v) => resolved_onto(put(so_far, v), entries.skip(1), only_marked),
        }
    }
}

/// The values that the entries resolve to.
pub open spec fn resolved_entries(entries: Seq<IniEntry>, only_marked: bool) -> Result<
    Seq<VariableView>,
    Error,
> {
    resolved_onto(Seq::empty(), entries, only_marked)
}

/// No key of the section holds a `$`.
pub open spec fn no_marked_key(section: IniSection) -> bool {
    forall|j: int| 0 <= j < section.entries@.len() ==> !section.entries@[j].key@.contains('$')
}

/// The preset takes the shared values of the `default` section: it says
/// so with a `default` key, or it has no values of its own.
pub open spec fn uses_defaults(section: IniSection) -> bool {
    section.has_key("default"@) || no_marked_key(section)
}

/// The text of a key that a preset must have.
pub open spec fn required_text(
    section: IniSection,
    key: Seq<char>,
    missing: Error,
    empty: Error,
) -> Result<Seq<char>, Error> {
    if !section.has_key(key) {
        Err(missing)
    } else {
        match text_view(section.entries@[section.index_of(key)].value) {
            None => Err(empty),
            Some(t) => if t.len() == 0 {
                Err(empty)
            } else {
                Ok(t)
            },
        }
    }
}

/// The preset of a section: its category, its name, then its values, up
/// to the first thing that is wrong.
pub open spec fn preset_of(section: IniSection, defaults: IniSection) -> Result<PresetView, Error> {
    match required_text(section, "category"@, Error::MissingCategory, Error::EmptyCategory) {
        Err(e) => Err(e),
        Ok(category) => match required_text(
            section,
            "name"@,
            Error::MissingName,
            Error::EmptyName,
        ) {
            Err(e) => Err(e),
            Ok(name) => {
                let values = if uses_defaults(section) {
                    resolved_entries(defaults.entries@, false)
                } else {
                    resolved_entries(section.entries@, true)
                };
                match values {
                    Err(e) => Err(e),
                    Ok(values) => Ok(PresetView { name, category, values }),
                }
            },
        },
    }
}

/// The presets of the preset sections, in order, after the presets
/// `so_far`, up to the first section that fails.
pub open spec fn presets_onto(
    so_far: Seq<PresetView>,
    sections: Seq<IniSection>,
    defaults: IniSection,
) -> Result<Seq<PresetView>, Error>
    decreases sections.len(),
{
    if sections.len() == 0 {
        Ok(so_far)
    } else if !is_preset_section(sections[0].name@) {
        presets_onto(so_far, sections.skip(1), defaults)
    } else {
        match preset_of(sections[0], defaults) {
            Err(e) => Err(e),
            Ok(p) => presets_onto(so_far.push(p), sections.skip(1), defaults),
        }
    }
}

/// `i` is the index of the category with this name.
pub open spec fn category_at(categories: Seq<CategoryView>, name: Seq<char>, i: int) -> bool {
    0 <= i < categories.len() && categories[i].name == name
}

/// A category of this name is among the categories.
pub open spec fn has_category(categories: Seq<CategoryView>, name: Seq<char>) -> bool {
    exists|i: int| category_at(categories, name, i)
}

/// `i` is the index of the first category with this name.
pub open spec fn first_category_at(categories: Seq<CategoryView>, name: Seq<char>, i: int) -> bool {
    category_at(categories, name, i) && forall|j: int|
        0 <= j < i ==> !category_at(categories, name, j)
}

/// The categories with the preset filed: at the end of its category
/// where that exists, else in a new category at the end.
pub open spec fn filed(categories: Seq<CategoryView>, p: PresetView) -> Seq<CategoryView> {
    if has_category(categories, p.category) {
        let i = choose|i: int| first_category_at(categories, p.category, i);
        categories.update(
            i,
            CategoryView { name: categories[i].name, presets: categories[i].presets.push(p) },
        )
    } else {
        categories.push(CategoryView { name: p.category, presets: seq![p] })
    }
}

/// The presets grouped by category: categories in the order in which
/// each is first seen, presets within a category in their own order.
pub open spec fn grouped(presets: Seq<PresetView>) -> Seq<CategoryView>
    decreases presets.len(),
{
    if presets.len() == 0 {
        Seq::empty()
    } else {
        filed(grouped(presets.drop_last()), presets.last())
    }
}

/// The keys of the entries, in order.
pub open spec fn keys_of(entries: Seq<IniEntry>) -> Seq<Seq<char>> {
    entries.map_values(|e: IniEntry| e.key@)
}

/// The rules of a document whose values were read as numbers.
pub open spec fn rules_of(path: Seq<char>, doc: IniDocument) -> Result<RulesView, Error> {
    if !doc.has_section("default"@) {
        Err(Error::MissingDefaults)
    } else {
        let defaults = doc.sections@[doc.index_of("default"@)];
        match presets_onto(Seq::empty(), doc.sections@, defaults) {
            Err(e) => Err(e),
            Ok(presets) => Ok(
                RulesView {
                    source_path: forward_slashes(path),
                    variables: keys_of(defaults.entries@),
                    categories: grouped(presets),
                },
            ),
        }
    }
}

/// Every value of the document was read as the readers may read it.
pub open spec fn values_read(doc: IniDocument) -> bool {
    forall|i: int, j: int|
        0 <= i < doc.sections@.len() && 0 <= j < doc.sections@[i].entries@.len() ==> (
        #[trigger] doc.sections@[i].entries@[j].value matches Some(v) ==> accepted_reading(
            v@,
            reading_view(doc.sections@[i].entries@[j].reading),
        ))
}

/// No variable name occurs twice.
pub open spec fn distinct_names(values: Seq<VariableView>) -> bool {
    forall|i: int, j: int| 0 <= i < j < values.len() ==> values[i].name != values[j].name
}

/// Every preset of the sequence gives each of its variables one value.
pub open spec fn presets_wf(presets: Seq<PresetView>) -> bool {
    forall|i: int| 0 <= i < presets.len() ==> distinct_names((#[trigger] presets[i]).values)
}

/// A category holds at least one preset, and only presets that name it
/// as theirs.
pub open spec fn category_wf(category: CategoryView) -> bool {
    &&& category.presets.len() > 0
    &&& presets_wf(category.presets)
    &&& forall|i: int|
        0 <= i < category.presets.len() ==> (#[trigger] category.presets[i]).category
            == category.name
}

/// No category name occurs twice, and each category is well formed.
pub open spec fn categories_wf(categories: Seq<CategoryView>) -> bool {
    &&& forall|i: int, j: int|
        0 <= i < j < categories.len() ==> categories[i].name != categories[j].name
    &&& forall|i: int| 0 <= i < categories.len() ==> category_wf(#[trigger] categories[i])
}

impl RulesView {
    /// The rules hold each category once, each preset under its own
    /// category, and in each preset one value for a variable.
    pub open spec fn wf(self) -> bool {
        categories_wf(self.categories)
    }

    /// The catalogue holds each variable once.
    pub open spec fn distinct_variables(self) -> bool {
        forall|i: int, j: int|
            0 <= i < j < self.variables.len() ==> self.variables[i] != self.variables[j]
    }
}

/// Setting a variable keeps every name single.
pub proof fn lemma_put_keeps_names_distinct(values: Seq<VariableView>, v: VariableView)
    requires
        distinct_names(values),
    ensures
        distinct_names(put(values, v)),
{
    if has_variable(values, v.name) {
        let any = choose|i: int| variable_at(values, v.name, i);
        lemma_first_variable(values, v.name, any);
        let i = choose|i: int| first_variable_at(values, v.name, i);
        assert(first_variable_at(values, v.name, i));
        let after = values.update(i, v);
        assert forall|a: int, b: int| 0 <= a < b < after.len() implies after[a].name
            != after[b].name by {
            assert(after[a].name == values[a].name);
            assert(after[b].name == values[b].name);
        }
    } else {
        let after = values.push(v);
        assert forall|a: int, b: int| 0 <= a < b < after.len() implies after[a].name
            != after[b].name by {
            if b == values.len() {
                assert(!variable_at(values, v.name, a));
            }
        }
    }
}

/// Where a variable has the name at index `i`, some index is the first
/// at which one has it.
pub proof fn lemma_first_variable(values: Seq<VariableView>, name: Seq<char>, i: int)
    requires
        variable_at(values, name, i),
    ensures
        exists|k: int| first_variable_at(values, name, k),
    decreases i,
{
    if exists|j: int| 0 <= j < i && variable_at(values, name, j) {
        let j = choose|j: int| 0 <= j < i && variable_at(values, name, j);
        lemma_first_variable(values, name, j);
    } else {
        assert(first_variable_at(values, name, i));
    }
}

/// Entries resolved onto values with single names give values with
/// single names.
pub proof fn lemma_resolved_names_distinct(
    so_far: Seq<VariableView>,
    entries: Seq<IniEntry>,
    only_marked: bool,
)
    requires
        distinct_names(so_far),
    ensures
        resolved_onto(so_far, entries, only_marked) matches Ok(values) ==> distinct_names(values),
    decreases entries.len(),
{
    if entries.len() == 0 {
    } else if only_marked && !entries[0].key@.contains('$') {
        lemma_resolved_names_distinct(so_far, entries.skip(1), only_marked);
    } else {
        match resolved(
            entries[0].key@,
            entries[0].value is Some,
            reading_view(entries[0].reading),
        ) {
            Err(e) => {},
            Ok(v) => {
                lemma_put_keeps_names_distinct(so_far, v);
                lemma_resolved_names_distinct(put(so_far, v), entries.skip(1), only_marked);
            },
        }
    }
}

/// A preset section without values of its own takes the values that the
/// `default` section resolves to.
pub proof fn lemma_preset_takes_defaults(section: IniSection, defaults: IniSection)
    requires
        no_marked_key(section),
    ensures
        preset_of(section, defaults) matches Ok(p) ==> resolved_entries(defaults.entries@, false)
            == Ok::<Seq<VariableView>, Error>(p.values),
{
}

/// The preset of a section gives each of its variables one value.
pub proof fn lemma_preset_wf(section: IniSection, defaults: IniSection)
    ensures
        preset_of(section, defaults) matches Ok(p) ==> distinct_names(p.values),
{
    lemma_resolved_names_distinct(Seq::empty(), defaults.entries@, false);
    lemma_resolved_names_distinct(Seq::empty(), section.entries@, true);
}

/// The presets of sections, after well-formed presets, are well formed.
pub proof fn lemma_presets_wf(
    so_far: Seq<PresetView>,
    sections: Seq<IniSection>,
    defaults: IniSection,
)
    requires
        presets_wf(so_far),
    ensures
        presets_onto(so_far, sections, defaults) matches Ok(presets) ==> presets_wf(presets),
    decreases sections.len(),
{
    if sections.len() == 0 {
    } else if !is_preset_section(sections[0].name@) {
        lemma_presets_wf(so_far, sections.skip(1), defaults);
    } else {
        match preset_of(sections[0], defaults) {
            Err(e) => {},
            Ok(p) => {
                lemma_preset_wf(sections[0], defaults);
                let more = so_far.push(p);
                assert forall|i: int| 0 <= i < more.len() implies distinct_names(
                    (#[trigger] more[i]).values,
                ) by {
                    if i < so_far.len() {
                        assert(more[i] == so_far[i]);
                    }
                }
                lemma_presets_wf(more, sections.skip(1), defaults);
            },
        }
    }
}

/// Filing a well-formed preset keeps the categories well formed.
pub proof fn lemma_filed_wf(categories: Seq<CategoryView>, p: PresetView)
    requires
        categories_wf(categories),
        distinct_names(p.values),
    ensures
        categories_wf(filed(categories, p)),
{
    let after = filed(categories, p);
    if has_category(categories, p.category) {
        let any = choose|i: int| category_at(categories, p.category, i);
        lemma_first_category(categories, p.category, any);
        let i = choose|i: int| first_category_at(categories, p.category, i);
        assert(first_category_at(categories, p.category, i));
        let grown = CategoryView {
            name: categories[i].name,
            presets: categories[i].presets.push(p),
        };
        assert(after == categories.update(i, grown));
        assert(category_wf(categories[i]));
        assert(category_wf(grown)) by {
            assert forall|k: int| 0 <= k < grown.presets.len() implies distinct_names(
                (#[trigger] grown.presets[k]).values,
            ) && grown.presets[k].category == grown.name by {
                if k < categories[i].presets.len() {
                    assert(grown.presets[k] == categories[i].presets[k]);
                }
            }
        }
        assert forall|a: int, b: int| 0 <= a < b < after.len() implies after[a].name
            != after[b].name by {
            assert(after[a].name == categories[a].name);
            assert(after[b].name == categories[b].name);
        }
        assert forall|k: int| 0 <= k < after.len() implies category_wf(#[trigger] after[k]) by {
            if k != i {
                assert(after[k] == categories[k]);
            }
        }
    } else {
        let fresh = CategoryView { name: p.category, presets: seq![p] };
        assert(after == categories.push(fresh));
        assert(category_wf(fresh));
        assert forall|a: int, b: int| 0 <= a < b < after.len() implies after[a].name
            != after[b].name by {
            if b == categories.len() {
                assert(!category_at(categories, p.category, a));
            }
        }
        assert forall|k: int| 0 <= k < after.len() implies category_wf(#[trigger] after[k]) by {
            if k < categories.len() {
                assert(after[k] == categories[k]);
            }
        }
    }
}

/// Where a category has the name at index `i`, some index is the first
/// at which one has it.
pub proof fn lemma_first_category(categories: Seq<CategoryView>, name: Seq<char>, i: int)
    requires
        category_at(categories, name, i),
    ensures
        exists|k: int| first_category_at(categories, name, k),
    decreases i,
{
    if exists|j: int| 0 <= j < i && category_at(categories, name, j) {
        let j = choose|j: int| 0 <= j < i && category_at(categories, name, j);
        lemma_first_category(categories, name, j);
    } else {
        assert(first_category_at(categories, name, i));
    }
}

/// Well-formed presets are grouped into well-formed categories.
pub proof fn lemma_grouped_wf(presets: Seq<PresetView>)
    requires
        presets_wf(presets),
    ensures
        categories_wf(grouped(presets)),
    decreases presets.len(),
{
    if presets.len() > 0 {
        let earlier = presets.drop_last();
        assert forall|i: int| 0 <= i < earlier.len() implies distinct_names(
            (#[trigger] earlier[i]).values,
        ) by {
            assert(earlier[i] == presets[i]);
        }
        lemma_grouped_wf(earlier);
        assert(distinct_names(presets[presets.len() - 1].values));
        lemma_filed_wf(grouped(earlier), presets.last());
    }
}

/// The rules of a document are well formed: each category is held once,
/// each preset under the category that it names, and each preset gives a
/// variable one value.
pub proof fn lemma_rules_wf(path: Seq<char>, doc: IniDocument)
    ensures
        rules_of(path, doc) matches Ok(rules) ==> rules.wf(),
{
    if doc.has_section("default"@) {
        let defaults = doc.sections@[doc.index_of("default"@)];
        lemma_presets_wf(Seq::empty(), doc.sections@, defaults);
        match presets_onto(Seq::empty(), doc.sections@, defaults) {
            Err(e) => {},
            Ok(presets) => {
                lemma_grouped_wf(presets);
            },
        }
    }
}

/// The rules of a document in which no name and no key occurs twice hold
/// each variable of the catalogue once.
pub proof fn lemma_catalogue_distinct(path: Seq<char>, doc: IniDocument)
    requires
        doc.wf(),
    ensures
        rules_of(path, doc) matches Ok(rules) ==> rules.distinct_variables(),
{
    if doc.has_section("default"@) {
        let any = choose|i: int| doc.section_at("default"@, i);
        lemma_first_section(doc, "default"@, any);
        let d = doc.index_of("default"@);
        assert(doc.first_section_at("default"@, d));
        let defaults = doc.sections@[d];
        assert(defaults.wf());
        let keys = keys_of(defaults.entries@);
        assert forall|i: int, j: int| 0 <= i < j < keys.len() implies keys[i] != keys[j] by {
            assert(defaults.entries@[i].key@ != defaults.entries@[j].key@);
        }
    }
}

/// Where a section has the name at index `i`, some index is the first at
/// which one has it.
pub proof fn lemma_first_section(doc: IniDocument, name: Seq<char>, i: int)
    requires
        doc.section_at(name, i),
    ensures
        exists|k: int| doc.first_section_at(name, k),
    decreases i,
{
    if exists|j: int| 0 <= j < i && doc.section_at(name, j) {
        let j = choose|j: int| 0 <= j < i && doc.section_at(name, j);
        lemma_first_section(doc, name, j);
    } else {
        assert(doc.first_section_at(name, i));
    }
}

/// The path with each backslash turned into a slash.
pub fn normalize_path(path: &str) -> (out: String)
    ensures
        out@ == forward_slashes(path@),
{
    let chars = chars_of(path);
    let mut out: Vec<char> = Vec::new();
    let mut i: usize = 0;
    while i < chars.len()
        invariant
            i <= chars.len(),
            chars@ == path@,
            out@ == forward_slashes(chars@.take(i as int)),
        decreases chars.len() - i,
    {
        let c = chars[i];
        if c == '\\' {
            out.push('/');
        } else {
            out.push(c);
        }
        assert(forward_slashes(chars@.take(i + 1)) == forward_slashes(chars@.take(i as int)).push(
            if c == '\\' {
                '/'
            } else {
                c
            },
        ));
        i += 1;
    }
    assert(chars@.take(chars@.len() as int) == chars@);
    string_of(&out)
}

/// Numbers the preset headers of the text by position.
pub fn disambiguate(text: &Vec<char>) -> (out: Vec<char>)
    ensures
        out@ == disambiguated(text@),
{
    let header: Vec<char> = vec!['[', 'P', 'r', 'e', 's', 'e', 't', ']'];
    let stem: Vec<char> = vec!['[', 'P', 'r', 'e', 's', 'e', 't'];
    assert(header@ == preset_header());
    let mut out: Vec<char> = Vec::new();
    let mut next: usize = 1;
    let mut i: usize = 0;
    assert(text@.skip(0) == text@);
    assert(out@ + numbered(text@, 1) == numbered(text@, 1));
    while i < text.len()
        invariant
            i <= text.len(),
            1 <= next <= i + 1,
            header@ == preset_header(),
            stem@ == seq!['[', 'P', 'r', 'e', 's', 'e', 't'],
            out@ + numbered(text@.skip(i as int), next as nat) == disambiguated(text@),
        decreases text.len() - i,
    {
        let ghost rest = text@.skip(i as int);
        let ghost before = out@;
        assert(rest.len() > 0);
        assert(rest[0] == text@[i as int]);
        if matches_at(text, &header, i) {
            assert(rest.subrange(0, 8) == text@.subrange(i as int, i + 8));
            append_chars(&mut out, &stem);
            let digits = decimal_digits(next as u128);
            append_chars(&mut out, &digits);
            out.push(']');
            assert(out@ == before + numbered_header(next as nat));
            assert(rest.skip(8) == text@.skip(i + 8));
            assert(out@ + numbered(text@.skip(i + 8), (next + 1) as nat) == before + (
            numbered_header(next as nat) + numbered(rest.skip(8), (next + 1) as nat)));
            i += 8;
            next += 1;
        } else {
            assert(!occurs_at(rest, preset_header(), 0)) by {
                if i + 8 <= text@.len() {
                    assert(rest.subrange(0, 8) == text@.subrange(i as int, i + 8));
                }
            }
            out.push(text[i]);
            assert(rest.skip(1) == text@.skip(i + 1));
            assert(out@ + numbered(text@.skip(i + 1), next as nat) == before + (seq![
                text@[i as int],
            ] + numbered(rest.skip(1), next as nat)));
            i += 1;
        }
    }
    assert(text@.skip(text@.len() as int).len() == 0);
    assert(out@ + text@.skip(i as int) == out@);
    out
}

/// Whether the character is among the characters.
pub fn has_char(chars: &Vec<char>, c: char) -> (r: bool)
    ensures
        r == chars@.contains(c),
{
    let mut i: usize = 0;
    while i < chars.len()
        invariant
            i <= chars.len(),
            forall|j: int| 0 <= j < i ==> chars@[j] != c,
        decreases chars.len() - i,
    {
        if chars[i] == c {
            return true;
        }
        i += 1;
    }
    false
}

/// Sets a variable among the values: in the place of the variable of
/// its name where there is one, else at the end.
pub fn put_variable(values: &mut Vec<Variable>, v: Variable)
    ensures
        variables_view(final(values)@) == put(variables_view(old(values)@), v@),
{
    let ghost before = variables_view(values@);
    let mut i: usize = 0;
    while i < values.len()
        invariant
            i <= values.len(),
            values@ == old(values)@,
            forall|j: int| 0 <= j < i ==> !variable_at(before, v@.name, j),
            before == variables_view(values@),
        decreases values.len() - i,
    {
        if values[i].name == v.name {
            assert(first_variable_at(before, v@.name, i as int));
            let ghost chosen = choose|k: int| first_variable_at(before, v@.name, k);
            assert(chosen == i) by {
                if chosen < i {
                    assert(!variable_at(before, v@.name, chosen));
                } else if i < chosen {
                    assert(!variable_at(before, v@.name, i as int));
                }
            }
            values.set(i, v);
            assert(variables_view(values@) == before.update(i as int, v@));
            return ;
        }
        i += 1;
    }
    values.push(v);
    assert(variables_view(values@) == before.push(v@));
}

/// Resolves the entries in order, up to the first that fails. With
/// `only_marked`, entries whose key holds no `$` are passed over.
pub fn resolve_entries(entries: &Vec<IniEntry>, only_marked: bool) -> (r: Result<
    Vec<Variable>,
    Error,
>)
    ensures
        match r {
            Ok(values) => resolved_entries(entries@, only_marked) == Ok::<Seq<VariableView>, Error>(
                variables_view(values@),
            ),
            Err(e) => resolved_entries(entries@, only_marked) == Err::<Seq<VariableView>, Error>(e),
        },
{
    let mut values: Vec<Variable> = Vec::new();
    let mut i: usize = 0;
    assert(entries@.skip(0) == entries@);
    assert(variables_view(values@) == Seq::<VariableView>::empty());
    while i < entries.len()
        invariant
            i <= entries.len(),
            resolved_onto(variables_view(values@), entries@.skip(i as int), only_marked)
                == resolved_entries(entries@, only_marked),
        decreases entries.len() - i,
    {
        let ghost rest = entries@.skip(i as int);
        assert(rest.len() > 0);
        assert(rest[0] == entries@[i as int]);
        assert(rest.skip(1) == entries@.skip(i + 1));
        let entry = &entries[i];
        let key = chars_of(entry.key.as_str());
        if !(only_marked && !has_char(&key, '$')) {
            match resolve_with(entry.key.as_str(), entry.value.is_some(), &entry.reading) {
                Err(e) => {
                    return Err(e);
                },
                Ok(v) => {
                    put_variable(&mut values, v);
                },
            }
        }
        i += 1;
    }
    assert(entries@.skip(entries@.len() as int).len() == 0);
    Ok(values)
}

/// Whether no key of the section holds a `$`.
pub fn without_marked_key(section: &IniSection) -> (r: bool)
    ensures
        r == no_marked_key(*section),
{
    let mut j: usize = 0;
    while j < section.entries.len()
        invariant
            j <= section.entries.len(),
            forall|k: int| 0 <= k < j ==> !section.entries@[k].key@.contains('$'),
        decreases section.entries.len() - j,
    {
        let key = chars_of(section.entries[j].key.as_str());
        if has_char(&key, '$') {
            return false;
        }
        j += 1;
    }
    true
}

/// The text of a key that a preset must have.
pub fn required(section: &IniSection, key: &str, missing: Error, empty: Error) -> (r: Result<
    String,
    Error,
>)
    ensures
        match r {
            Ok(t) => required_text(*section, key@, missing, empty) == Ok::<Seq<char>, Error>(t@),
            Err(e) => required_text(*section, key@, missing, empty) == Err::<Seq<char>, Error>(e),
        },
{
    match section.find(key) {
        None => Err(missing),
        Some(i) => match &section.entries[i].value {
            None => Err(empty),
            Some(t) => if t.as_str().is_empty() {
                Err(empty)
            } else {
                Ok(t.clone())
            },
        },
    }
}

/// The preset of a section.
pub fn preset_from(section: &IniSection, defaults: &IniSection) -> (r: Result<Preset, Error>)
    ensures
        match r {
            Ok(p) => preset_of(*section, *defaults) == Ok::<PresetView, Error>(p@),
            Err(e) => preset_of(*section, *defaults) == Err::<PresetView, Error>(e),
        },
{
    let category = match required(
        section,
        "category",
        Error::MissingCategory,
        Error::EmptyCategory,
    ) {
        Err(e) => {
            return Err(e);
        },
        Ok(t) => t,
    };
    let name = match required(section, "name", Error::MissingName, Error::EmptyName) {
        Err(e) => {
            return Err(e);
        },
        Ok(t) => t,
    };
    let shared = section.find("default").is_some() || without_marked_key(section);
    let values = if shared {
        resolve_entries(&defaults.entries, false)
    } else {
        resolve_entries(&section.entries, true)
    };
    match values {
        Err(e) => Err(e),
        Ok(values) => Ok(Preset { name, category, values }),
    }
}

/// Files a preset: at the end of its category where that exists, else
/// in a new category at the end.
pub fn file_preset(categories: &mut Vec<Category>, p: Preset)
    ensures
        categories_view(final(categories)@) == filed(categories_view(old(categories)@), p@),
{
    let ghost before = categories_view(categories@);
    let mut i: usize = 0;
    while i < categories.len()
        invariant
            i <= categories.len(),
            categories@ == old(categories)@,
            forall|j: int| 0 <= j < i ==> !category_at(before, p@.category, j),
            before == categories_view(categories@),
        decreases categories.len() - i,
    {
        if categories[i].name == p.category {
            assert(first_category_at(before, p@.category, i as int));
            let ghost chosen = choose|k: int| first_category_at(before, p@.category, k);
            assert(chosen == i) by {
                if chosen < i {
                    assert(!category_at(before, p@.category, chosen));
                } else if i < chosen {
                    assert(!category_at(before, p@.category, i as int));
                }
            }
            let mut category = categories.remove(i);
            let ghost shown = p@;
            category.presets.push(p);
            assert(presets_view(category.presets@) == before[i as int].presets.push(shown));
            categories.insert(i, category);
            assert(categories_view(categories@) == before.update(
                i as int,
                CategoryView {
                    name: before[i as int].name,
                    presets: before[i as int].presets.push(shown),
                },
            ));
            return ;
        }
        i += 1;
    }
    let name = p.category.clone();
    let ghost shown = p@;
    let mut presets: Vec<Preset> = Vec::new();
    presets.push(p);
    assert(presets_view(presets@) == seq![shown]);
    categories.push(Category { name, presets });
    assert(categories_view(categories@) == before.push(
        CategoryView { name: shown.category, presets: seq![shown] },
    ));
}

/// The keys of the section, in order.
pub fn section_keys(section: &IniSection) -> (keys: Vec<String>)
    ensures
        texts_view(keys@) == keys_of(section.entries@),
{
    let mut keys: Vec<String> = Vec::new();
    let mut j: usize = 0;
    while j < section.entries.len()
        invariant
            j <= section.entries.len(),
            texts_view(keys@) == keys_of(section.entries@.take(j as int)),
        decreases section.entries.len() - j,
    {
        keys.push(section.entries[j].key.clone());
        assert(keys_of(section.entries@.take(j + 1)) == keys_of(
            section.entries@.take(j as int),
        ).push(section.entries@[j as int].key@));
        j += 1;
    }
    assert(section.entries@.take(section.entries@.len() as int) == section.entries@);
    keys
}

/// The rules of a document whose values were read as numbers: the
/// `default` section gives the variables; each preset section gives a
/// preset, filed under its category.
pub fn rules_from(path: &str, doc: &IniDocument) -> (r: Result<Rules, Error>)
    ensures
        rules_result_view(r) == rules_of(path@, *doc),
        r matches Ok(rules) ==> rules@.wf(),
        doc.wf() ==> (r matches Ok(rules) ==> rules@.distinct_variables()),
{
    proof {
        lemma_rules_wf(path@, *doc);
        if doc.wf() {
            lemma_catalogue_distinct(path@, *doc);
        }
    }
    let defaults = match doc.find("default") {
        None => {
            return Err(Error::MissingDefaults);
        },
        Some(d) => &doc.sections[d],
    };
    let variables = section_keys(defaults);
    let mut categories: Vec<Category> = Vec::new();
    let ghost mut presets: Seq<PresetView> = Seq::empty();
    let mut i: usize = 0;
    assert(doc.sections@.skip(0) == doc.sections@);
    assert(categories_view(categories@) == grouped(presets));
    while i < doc.sections.len()
        invariant
            i <= doc.sections.len(),
            doc.has_section("default"@),
            *defaults == doc.sections@[doc.index_of("default"@)],
            texts_view(variables@) == keys_of(defaults.entries@),
            presets_onto(presets, doc.sections@.skip(i as int), *defaults) == presets_onto(
                Seq::empty(),
                doc.sections@,
                *defaults,
            ),
            categories_view(categories@) == grouped(presets),
        decreases doc.sections.len() - i,
    {
        let ghost rest = doc.sections@.skip(i as int);
        assert(rest.len() > 0);
        assert(rest[0] == doc.sections@[i as int]);
        assert(rest.skip(1) == doc.sections@.skip(i + 1));
        let section = &doc.sections[i];
        let name = chars_of(section.name.as_str());
        let reset = chars_of("reset");
        if contains(&name, &reset) {
            match preset_from(section, defaults) {
                Err(e) => {
                    return Err(e);
                },
                Ok(p) => {
                    proof {
                        assert(presets.push(p@).drop_last() == presets);
                        presets = presets.push(p@);
                    }
                    file_preset(&mut categories, p);
                },
            }
        }
        i += 1;
    }
    assert(doc.sections@.skip(doc.sections@.len() as int).len() == 0);
    Ok(Rules { source_path: normalize_path(path), variables, categories })
}

/// The section with each of its values read as a number.
pub fn read_section(section: &IniSection) -> (out: IniSection)
    ensures
        out.name@ == section.name@,
        same_entries(section.entries@, out.entries@),
        forall|j: int|
            0 <= j < out.entries@.len() ==> (#[trigger] out.entries@[j].value matches Some(v)
                ==> accepted_reading(v@, reading_view(out.entries@[j].reading))),
{
    let mut entries: Vec<IniEntry> = Vec::new();
    let mut j: usize = 0;
    while j < section.entries.len()
        invariant
            j <= section.entries.len(),
            same_entries(section.entries@.take(j as int), entries@),
            forall|k: int|
                0 <= k < entries@.len() ==> (#[trigger] entries@[k].value matches Some(v)
                    ==> accepted_reading(v@, reading_view(entries@[k].reading))),
        decreases section.entries.len() - j,
    {
        let entry = &section.entries[j];
        let read = match &entry.value {
            None => IniEntry { key: entry.key.clone(), value: None, reading: None },
            Some(v) => IniEntry {
                key: entry.key.clone(),
                value: Some(v.clone()),
                reading: read_value(v.as_str()),
            },
        };
        entries.push(read);
        j += 1;
    }
    assert(section.entries@.take(section.entries@.len() as int) == section.entries@);
    IniSection { name: section.name.clone(), entries }
}

/// The document with each of its values read as a number.
pub fn read_values(doc: &IniDocument) -> (out: IniDocument)
    ensures
        same_sections(doc.sections@, out.sections@),
        out.contents() == doc.contents(),
        doc.wf() ==> out.wf(),
        values_read(out),
{
    let mut sections: Vec<IniSection> = Vec::new();
    let mut i: usize = 0;
    while i < doc.sections.len()
        invariant
            i <= doc.sections.len(),
            same_sections(doc.sections@.take(i as int), sections@),
            forall|a: int, b: int|
                0 <= a < sections@.len() && 0 <= b < sections@[a].entries@.len() ==> (
                #[trigger] sections@[a].entries@[b].value matches Some(v) ==> accepted_reading(
                    v@,
                    reading_view(sections@[a].entries@[b].reading),
                )),
        decreases doc.sections.len() - i,
    {
        let section = read_section(&doc.sections[i]);
        sections.push(section);
        i += 1;
    }
    assert(doc.sections@.take(doc.sections@.len() as int) == doc.sections@);
    let out = IniDocument { sections };
    proof {
        lemma_same_sections_map(doc.sections@, out.sections@);
        if doc.wf() {
            assert forall|i: int, j: int| 0 <= i < j < out.sections@.len() implies out.sections@[i].name@
                != out.sections@[j].name@ by {
                assert(doc.sections@[i].name@ == out.sections@[i].name@);
                assert(doc.sections@[j].name@ == out.sections@[j].name@);
            }
            assert forall|i: int| 0 <= i < out.sections@.len() implies (
            #[trigger] out.sections@[i]).wf() by {
                let was = doc.sections@[i];
                let now = out.sections@[i];
                assert(was.wf());
                assert(same_entries(was.entries@, now.entries@));
                assert forall|a: int, b: int| 0 <= a < b < now.entries@.len() implies now.entries@[a].key@
                    != now.entries@[b].key@ by {
                    assert(was.entries@[a].key@ == now.entries@[a].key@);
                    assert(was.entries@[b].key@ == now.entries@[b].key@);
                }
            }
        }
    }
    out
}

/// The document with each of its values read as a number stands in the
/// order of the file as the document that was read did.
pub proof fn lemma_read_keeps_order(text: Seq<char>, before: IniDocument, after: IniDocument)
    requires
        same_sections(before.sections@, after.sections@),
        in_file_order(text, before),
    ensures
        in_file_order(text, after),
{
    assert forall|i: int, j: int| 0 <= i < j < after.sections@.len() implies crate::first_seen::section_no_later(
        text,
        (#[trigger] after.sections@[i]).name@,
        (#[trigger] after.sections@[j]).name@,
    ) by {
        assert(before.sections@[i].name@ == after.sections@[i].name@);
        assert(before.sections@[j].name@ == after.sections@[j].name@);
    }
    assert forall|i: int, a: int, b: int|
        0 <= i < after.sections@.len() && 0 <= a < b < after.sections@[i].entries@.len() implies crate::first_seen::key_no_later(
        text,
        after.sections@[i].name@,
        (#[trigger] after.sections@[i].entries@[a]).key@,
        (#[trigger] after.sections@[i].entries@[b]).key@,
    ) by {
        assert(before.sections@[i].name@ == after.sections@[i].name@);
        assert(same_entries(before.sections@[i].entries@, after.sections@[i].entries@));
        assert(before.sections@[i].entries@[a].key@ == after.sections@[i].entries@[a].key@);
        assert(before.sections@[i].entries@[b].key@ == after.sections@[i].entries@[b].key@);
    }
}

/// Parses the rules text that was read from `path`.
///
/// A text without a preset section marker gives rules without variables
/// and categories. Any other text has its preset headers numbered and is
/// read in the section format; the result is `rules_of` for the document
/// that holds what the reader found, each section and key once and in
/// the order of the file, with every value read as a number.
pub fn parse_rules(path: &str, text: &str) -> (r: Result<Rules, Error>)
    ensures
        !has_preset_marker(text@) ==> rules_result_view(r) == Ok::<RulesView, Error>(
            empty_rules(path@),
        ),
        has_preset_marker(text@) && found_in(disambiguated(text@)) is None ==> rules_result_view(r)
            == Err::<RulesView, Error>(Error::InvalidRules),
        has_preset_marker(text@) && found_in(disambiguated(text@)) is Some ==> exists|
            doc: IniDocument,
        |
            doc.wf() && found_in(disambiguated(text@)) == Some(doc.contents()) && in_file_order(
                disambiguated(text@),
                doc,
            ) && values_read(doc) && rules_result_view(r) == rules_of(path@, doc),
        r matches Ok(rules) ==> rules@.wf() && rules@.distinct_variables(),
{
    let chars = chars_of(text);
    let marker = chars_of("[Preset");
    if !contains(&chars, &marker) {
        let rules = Rules {
            source_path: normalize_path(path),
            variables: Vec::new(),
            categories: Vec::new(),
        };
        assert(rules@.variables == Seq::<Seq<char>>::empty());
        assert(rules@.categories == Seq::<CategoryView>::empty());
        assert(rules@.wf() && rules@.distinct_variables());
        return Ok(rules);
    }
    let numbered = string_of(&disambiguate(&chars));
    match read_in_file_order(numbered.as_str()) {
        None => Err(Error::InvalidRules),
        Some(found) => {
            let doc = read_values(&found);
            let r = rules_from(path, &doc);
            proof {
                lemma_read_keeps_order(disambiguated(text@), found, doc);
            }
            assert(doc.wf() && found_in(disambiguated(text@)) == Some(doc.contents())
                && in_file_order(disambiguated(text@), doc) && values_read(doc)
                && rules_result_view(r) == rules_of(path@, doc));
            r
        },
    }
}

} // verus!
