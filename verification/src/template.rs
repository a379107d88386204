//! The patch template compiler, up to and after the assembler: from the
//! template text to the instructions of the section for the expected
//! module, from an instruction to what the assembler is asked, and from
//! what it answers to a patch.

use crate::error::Error;
use crate::first_seen::{found_in, in_file_order, read_in_file_order};
use crate::ini::{text_view, IniDocument, IniEntry, IniSection};
use crate::number::number_text;
use crate::number::render_number;
use crate::patch::{patches_view, Patch, PatchView};
use crate::resolve::{strip_marker, without_marker, Variable, VariableView};
use crate::rules::variables_view;
use crate::text::{
    chars_of, contains, decimal, decimal_digits, has_prefix, occurs, replace_all, replaced,
    slice_chars, starts_with, string_of,
};
use vstd::prelude::*;

verus! {

/// An address key of the template with its instruction text.
#[derive(Debug, Clone, PartialEq, Eq)]
pub struct Instruction {
    pub key: String,
    pub text: String,
}

/// An `Instruction` as a mathematical value.
pub struct InstructionView {
    pub key: Seq<char>,
    pub text: Seq<char>,
}

impl View for Instruction {
    type V = InstructionView;

    open spec fn view(&self) -> InstructionView {
        InstructionView { key: self.key@, text: self.text@ }
    }
}

/// The instructions as mathematical values.
pub open spec fn instructions_view(instructions: Seq<Instruction>) -> Seq<InstructionView> {
    instructions.map_values(|i: Instruction| i@)
}

/// What the assembler is asked: the instruction text in its own register
/// syntax, and the address at which the instruction will stand.
#[derive(Debug, Clone, PartialEq, Eq)]
pub struct AssemblyRequest {
    pub address: u32,
    pub instruction: String,
}

/// What the assembler answered.
#[derive(Debug, Clone, PartialEq, Eq)]
pub enum AssemblyOutcome {
    /// The encoded bytes.
    Encoded(Vec<u8>),
    /// Why the instruction was rejected.
    Rejected(String),
}

/// The text holds a code cave directive, in either spelling.
pub open spec fn has_code_cave(text: Seq<char>) -> bool {
    occurs(text, "codecave"@) || occurs(text, "codeCave"@)
}

/// The text after each variable, in order, was replaced by the text of
/// its value wherever its name occurs.
pub open spec fn substituted(text: Seq<char>, variables: Seq<VariableView>) -> Seq<char>
    decreases variables.len(),
{
    if variables.len() == 0 {
        text
    } else {
        substituted(
            replaced(text, without_marker(variables[0].name), number_text(variables[0].value)),
            variables.skip(1),
        )
    }
}

/// The pattern of a label line: an address, an equals sign, a name and a
/// colon at the end of the line.
pub open spec fn label_pattern() -> Seq<char> {
    "(0x[0-9a-fA-F]+) *= *(.+):\\r*\\n"@
}

/// The pattern of a register with its prefix: a whole token of `r` or
/// `f` and digits, so that a hexadecimal number keeps its digits.
pub open spec fn register_pattern() -> Seq<char> {
    "\\b[rf](\\d+)\\b"@
}

/// Group `k` of a match, where it took part.
pub open spec fn group(capture: Seq<Option<Seq<char>>>, k: int) -> Option<Seq<char>> {
    if 0 <= k < capture.len() {
        capture[k]
    } else {
        None
    }
}

/// The text after one label line was taken out and the label's name was
/// replaced by its address wherever it occurs.
pub open spec fn label_applied(text: Seq<char>, capture: Seq<Option<Seq<char>>>) -> Seq<char> {
    match (group(capture, 0), group(capture, 1), group(capture, 2)) {
        (Some(line), Some(address), Some(name)) => replaced(
            replaced(text, line, Seq::empty()),
            name,
            address,
        ),
        _ => text,
    }
}

/// The text after the label lines were applied in order.
pub open spec fn labels_applied(text: Seq<char>, captures: Seq<Seq<Option<Seq<char>>>>) -> Seq<
    char,
>
    decreases captures.len(),
{
    if captures.len() == 0 {
        text
    } else {
        labels_applied(label_applied(text, captures[0]), captures.skip(1))
    }
}

/// The groups of a match as character sequences.
pub open spec fn groups_view(capture: Seq<Option<String>>) -> Seq<Option<Seq<char>>> {
    capture.map_values(|g: Option<String>| text_view(g))
}

/// The matches of a pattern as character sequences.
pub open spec fn matches_view(captures: Seq<Vec<Option<String>>>) -> Seq<Seq<Option<Seq<char>>>> {
    captures.map_values(|c: Vec<Option<String>>| groups_view(c@))
}

/// The mathematical value of the matches of a pattern, where it has any.
pub open spec fn captures_view(captures: Option<Vec<Vec<Option<String>>>>) -> Option<
    Seq<Seq<Option<Seq<char>>>>,
> {
    match captures {
        Some(found) => Some(matches_view(found@)),
        None => None,
    }
}

/// What `regex::Regex::captures_iter` finds for a pattern in a text:
/// nothing where `regex::Regex::new` refuses the pattern; else, for each
/// match from left to right, the text of each group that took part, the
/// whole match first.
pub uninterp spec fn regex_captures(pattern: Seq<char>, text: Seq<char>) -> Option<
    Seq<Seq<Option<Seq<char>>>>,
>;

/// What `regex::Regex::replace_all` makes of a text: nothing where
/// `regex::Regex::new` refuses the pattern; else the text with each match
/// replaced by the expanded replacement.
pub uninterp spec fn regex_replaced(
    pattern: Seq<char>,
    text: Seq<char>,
    replacement: Seq<char>,
) -> Option<Seq<char>>;

/// Compiles the pattern with `regex::Regex::new` and collects the matches
/// of `regex::Regex::captures_iter` in the text. The contract claims only
/// that the result is a function of pattern and text.
#[verifier::external_body]
fn find_captures(pattern: &str, text: &str) -> (r: Option<Vec<Vec<Option<String>>>>)
    ensures
        captures_view(r) == regex_captures(pattern@, text@),
{
    let re = regex::Regex::new(pattern).ok()?;
    Some(
        re.captures_iter(text).map(
            |c| c.iter().map(|g| g.map(|m| m.as_str().to_string())).collect(),
        ).collect(),
    )
}

/// Compiles the pattern with `regex::Regex::new` and replaces its matches
/// in the text with `regex::Regex::replace_all`. The contract claims only
/// that the result is a function of pattern, text and replacement.
#[verifier::external_body]
fn replace_pattern(pattern: &str, text: &str, replacement: &str) -> (r: Option<String>)
    ensures
        text_view(r) == regex_replaced(pattern@, text@, replacement@),
{
    let re = regex::Regex::new(pattern).ok()?;
    Some(re.replace_all(text, replacement).into_owned())
}

/// `i` is the index of a name that begins with `patch`.
pub open spec fn patch_file_at(names: Seq<String>, i: int) -> bool {
    0 <= i < names.len() && has_prefix(names[i]@, "patch"@)
}

/// The index of the first name that begins with `patch`.
pub fn select_patch_file(names: &Vec<String>) -> (r: Result<usize, Error>)
    ensures
        match r {
            Ok(i) => patch_file_at(names@, i as int) && forall|j: int|
                0 <= j < i ==> !patch_file_at(names@, j),
            Err(e) => e == Error::NoPatchFile && forall|j: int| !patch_file_at(names@, j),
        },
{
    let prefix = chars_of("patch");
    let mut i: usize = 0;
    while i < names.len()
        invariant
            i <= names.len(),
            prefix@ == "patch"@,
            forall|j: int| 0 <= j < i ==> !patch_file_at(names@, j),
        decreases names.len() - i,
    {
        let name = chars_of(names[i].as_str());
        if starts_with(&name, &prefix) {
            return Ok(i);
        }
        i += 1;
    }
    Err(Error::NoPatchFile)
}

/// Replaces each variable, in order, by the text of its value wherever
/// its name occurs in the text.
pub fn substitute(text: &Vec<char>, variables: &Vec<Variable>) -> (out: Vec<char>)
    ensures
        out@ == substituted(text@, variables_view(variables@)),
{
    let ghost views = variables_view(variables@);
    let mut out: Vec<char> = slice_chars(text, 0, text.len());
    assert(out@ == text@);
    let mut i: usize = 0;
    assert(views.skip(0) == views);
    while i < variables.len()
        invariant
            i <= variables.len(),
            views == variables_view(variables@),
            substituted(out@, views.skip(i as int)) == substituted(text@, views),
        decreases variables.len() - i,
    {
        let ghost rest = views.skip(i as int);
        assert(rest.len() > 0);
        assert(rest[0] == variables@[i as int]@);
        assert(rest.skip(1) == views.skip(i + 1));
        let name = strip_marker(&chars_of(variables[i].name.as_str()));
        let value = render_number(&variables[i].value);
        out = replace_all(&out, &name, &value);
        i += 1;
    }
    assert(views.skip(views.len() as int).len() == 0);
    out
}

/// Takes one label line out of the text and replaces the label's name by
/// its address.
pub fn apply_label(text: &Vec<char>, capture: &Vec<Option<String>>) -> (out: Vec<char>)
    ensures
        out@ == label_applied(text@, groups_view(capture@)),
{
    let ghost groups = groups_view(capture@);
    if capture.len() < 3 {
        assert(group(groups, 2) is None);
        return slice_chars(text, 0, text.len());
    }
    assert(group(groups, 0) == text_view(capture@[0]));
    assert(group(groups, 1) == text_view(capture@[1]));
    assert(group(groups, 2) == text_view(capture@[2]));
    match (&capture[0], &capture[1], &capture[2]) {
        (Some(line), Some(address), Some(name)) => {
            let nothing: Vec<char> = Vec::new();
            let without = replace_all(text, &chars_of(line.as_str()), &nothing);
            assert(nothing@ == Seq::<char>::empty());
            replace_all(&without, &chars_of(name.as_str()), &chars_of(address.as_str()))
        },
        _ => slice_chars(text, 0, text.len()),
    }
}

/// Applies the label lines in order.
pub fn apply_labels(text: &Vec<char>, captures: &Vec<Vec<Option<String>>>) -> (out: Vec<char>)
    ensures
        out@ == labels_applied(text@, matches_view(captures@)),
{
    let ghost views = matches_view(captures@);
    let mut out: Vec<char> = slice_chars(text, 0, text.len());
    assert(out@ == text@);
    let mut i: usize = 0;
    assert(views.skip(0) == views);
    while i < captures.len()
        invariant
            i <= captures.len(),
            views == matches_view(captures@),
            labels_applied(out@, views.skip(i as int)) == labels_applied(text@, views),
        decreases captures.len() - i,
    {
        let ghost rest = views.skip(i as int);
        assert(rest.len() > 0);
        assert(rest[0] == groups_view(captures@[i as int]@));
        assert(rest.skip(1) == views.skip(i + 1));
        out = apply_label(&out, &captures[i]);
        i += 1;
    }
    assert(views.skip(views.len() as int).len() == 0);
    out
}

/// The section is for the expected module.
pub open spec fn matches_module(section: IniSection) -> bool {
    section.has_key("modulematches"@) && text_view(
        section.entries@[section.index_of("modulematches"@)].value,
    ) == Some("0x6267BFD0"@)
}

/// `i` is the index of the first section for the expected module.
pub open spec fn module_section_at(doc: IniDocument, i: int) -> bool {
    &&& 0 <= i < doc.sections@.len()
    &&& matches_module(doc.sections@[i])
    &&& forall|j: int| 0 <= j < i ==> !matches_module(doc.sections@[j])
}

/// Some section is for the expected module.
pub open spec fn has_module_section(doc: IniDocument) -> bool {
    exists|i: int| 0 <= i < doc.sections@.len() && matches_module(doc.sections@[i])
}

/// The entry is an instruction: its key begins with `0x` and it has a
/// value.
pub open spec fn is_instruction(entry: IniEntry) -> bool {
    has_prefix(entry.key@, "0x"@) && entry.value is Some
}

/// The instructions among the entries, in order, after `so_far`.
pub open spec fn instructions_onto(so_far: Seq<InstructionView>, entries: Seq<IniEntry>) -> Seq<
    InstructionView,
>
    decreases entries.len(),
{
    if entries.len() == 0 {
        so_far
    } else if is_instruction(entries[0]) {
        instructions_onto(
            so_far.push(InstructionView { key: entries[0].key@, text: entries[0].value->0@ }),
            entries.skip(1),
        )
    } else {
        instructions_onto(so_far, entries.skip(1))
    }
}

/// The instructions of a document: those of its first section for the
/// expected module.
pub open spec fn instructions_of(doc: IniDocument) -> Result<Seq<InstructionView>, Error> {
    if !has_module_section(doc) {
        Err(Error::ModuleMismatch)
    } else {
        Ok(
            instructions_onto(
                Seq::empty(),
                doc.sections@[choose|i: int| module_section_at(doc, i)].entries@,
            ),
        )
    }
}

/// The mathematical value of a list of instructions or an error.
pub open spec fn instructions_result_view(r: Result<Vec<Instruction>, Error>) -> Result<
    Seq<InstructionView>,
    Error,
> {
    match r {
        Ok(found) => Ok(instructions_view(found@)),
        Err(e) => Err(e),
    }
}

/// Whether the section is for the expected module.
pub fn section_matches_module(section: &IniSection) -> (r: bool)
    ensures
        r == matches_module(*section),
{
    match section.find("modulematches") {
        None => false,
        Some(i) => match &section.entries[i].value {
            None => false,
            Some(v) => {
                let expected = "0x6267BFD0".to_owned();
                *v == expected
            },
        },
    }
}

/// The instructions of a document: the address keys, with their values,
/// of the first section whose `modulematches` key has the expected
/// module's identity. Without such a section the module does not match,
/// whatever the other sections hold.
pub fn instructions_from(doc: &IniDocument) -> (r: Result<Vec<Instruction>, Error>)
    ensures
        instructions_result_view(r) == instructions_of(*doc),
        !has_module_section(*doc) ==> r == Err::<Vec<Instruction>, Error>(Error::ModuleMismatch),
{
    let mut i: usize = 0;
    while i < doc.sections.len()
        invariant
            i <= doc.sections.len(),
            forall|j: int| 0 <= j < i ==> !matches_module(doc.sections@[j]),
        decreases doc.sections.len() - i,
    {
        if section_matches_module(&doc.sections[i]) {
            assert(module_section_at(*doc, i as int));
            let ghost chosen = choose|k: int| module_section_at(*doc, k);
            assert(chosen == i);
            return Ok(section_instructions(&doc.sections[i]));
        }
        i += 1;
    }
    Err(Error::ModuleMismatch)
}

/// The instructions among the entries of a section, in order.
pub fn section_instructions(section: &IniSection) -> (found: Vec<Instruction>)
    ensures
        instructions_view(found@) == instructions_onto(Seq::empty(), section.entries@),
{
    let prefix = chars_of("0x");
    let mut found: Vec<Instruction> = Vec::new();
    let mut j: usize = 0;
    assert(section.entries@.skip(0) == section.entries@);
    assert(instructions_view(found@) == Seq::<InstructionView>::empty());
    while j < section.entries.len()
        invariant
            j <= section.entries.len(),
            prefix@ == "0x"@,
            instructions_onto(instructions_view(found@), section.entries@.skip(j as int))
                == instructions_onto(Seq::empty(), section.entries@),
        decreases section.entries.len() - j,
    {
        let ghost rest = section.entries@.skip(j as int);
        let ghost before = instructions_view(found@);
        assert(rest.len() > 0);
        assert(rest[0] == section.entries@[j as int]);
        assert(rest.skip(1) == section.entries@.skip(j + 1));
        let entry = &section.entries[j];
        let key = chars_of(entry.key.as_str());
        if starts_with(&key, &prefix) {
            match &entry.value {
                Some(text) => {
                    found.push(Instruction { key: entry.key.clone(), text: text.clone() });
                    assert(instructions_view(found@) == before.push(
                        InstructionView { key: entry.key@, text: text@ },
                    ));
                },
                None => {},
            }
        }
        j += 1;
    }
    assert(section.entries@.skip(section.entries@.len() as int).len() == 0);
    found
}

/// The instructions of a template, for the values of a preset.
///
/// A template with a code cave directive is refused whatever else it
/// holds. Any other has the variables replaced by their values and its
/// label lines applied, and is then read in the section format; the
/// result is `instructions_of` for the document that holds what the
/// reader found, each section and key once and in the order of the file.
pub fn template_instructions(text: &str, variables: &Vec<Variable>) -> (r: Result<
    Vec<Instruction>,
    Error,
>)
    ensures
        has_code_cave(text@) ==> r == Err::<Vec<Instruction>, Error>(Error::UnsupportedFeature),
        !has_code_cave(text@) ==> {
            let filled = substituted(text@, variables_view(variables@));
            match regex_captures(label_pattern(), filled) {
                None => r == Err::<Vec<Instruction>, Error>(Error::PatternRefused),
                Some(captures) => {
                    let plain = labels_applied(filled, captures);
                    if found_in(plain) is None {
                        r == Err::<Vec<Instruction>, Error>(Error::InvalidTemplate)
                    } else {
                        exists|doc: IniDocument|
                            doc.wf() && found_in(plain) == Some(doc.contents()) && in_file_order(
                                plain,
                                doc,
                            ) && instructions_result_view(r) == instructions_of(doc)
                    }
                },
            }
        },
{
    let chars = chars_of(text);
    if contains(&chars, &chars_of("codecave")) || contains(&chars, &chars_of("codeCave")) {
        return Err(Error::UnsupportedFeature);
    }
    let filled = string_of(&substitute(&chars, variables));
    let captures = match find_captures("(0x[0-9a-fA-F]+) *= *(.+):\\r*\\n", filled.as_str()) {
        None => {
            return Err(Error::PatternRefused);
        },
        Some(captures) => captures,
    };
    let plain = string_of(&apply_labels(&chars_of(filled.as_str()), &captures));
    match read_in_file_order(plain.as_str()) {
        None => Err(Error::InvalidTemplate),
        Some(doc) => {
            let r = instructions_from(&doc);
            assert(doc.wf() && found_in(plain@) == Some(doc.contents()) && in_file_order(
                plain@,
                doc,
            ) && instructions_result_view(r) == instructions_of(doc));
            r
        },
    }
}

/// The value of a hexadecimal digit.
pub open spec fn hex_digit_value(c: char) -> Option<int> {
    let code = c as u32;
    if 48 <= code <= 57 {
        Some(code - 48)
    } else if 97 <= code <= 102 {
        Some(code - 87)
    } else if 65 <= code <= 70 {
        Some(code - 55)
    } else {
        None
    }
}

/// Every character is a hexadecimal digit.
pub open spec fn is_hex(digits: Seq<char>) -> bool {
    forall|i: int| 0 <= i < digits.len() ==> hex_digit_value(#[trigger] digits[i]) is Some
}

/// The number that the hexadecimal digits write, the first digit being
/// the most significant.
pub open spec fn hex_value(digits: Seq<char>) -> int
    decreases digits.len(),
{
    if digits.len() == 0 {
        0
    } else {
        hex_value(digits.drop_last()) * 16 + match hex_digit_value(digits.last()) {
            Some(d) => d,
            None => 0,
        }
    }
}

/// The address that a key writes: after `0x`, one or more hexadecimal
/// digits of a number of 32 bits.
pub open spec fn address_of(key: Seq<char>) -> Option<u32> {
    if key.len() > 2 && key[0] == '0' && key[1] == 'x' && is_hex(key.skip(2)) && hex_value(
        key.skip(2),
    ) <= u32::MAX {
        Some(hex_value(key.skip(2)) as u32)
    } else {
        None
    }
}

/// More digits never write a smaller number.
pub proof fn lemma_hex_value_grows(digits: Seq<char>, k: int)
    requires
        0 <= k <= digits.len(),
    ensures
        0 <= hex_value(digits.take(k)) <= hex_value(digits),
    decreases digits.len() - k,
{
    if k == digits.len() {
        assert(digits.take(k) == digits);
        lemma_hex_value_nonnegative(digits);
    } else {
        lemma_hex_value_grows(digits, k + 1);
        assert(digits.take(k + 1).drop_last() == digits.take(k));
        lemma_hex_value_nonnegative(digits.take(k));
    }
}

/// Hexadecimal digits write no negative number.
pub proof fn lemma_hex_value_nonnegative(digits: Seq<char>)
    ensures
        0 <= hex_value(digits),
    decreases digits.len(),
{
    if digits.len() > 0 {
        lemma_hex_value_nonnegative(digits.drop_last());
    }
}

/// The value of a hexadecimal digit.
pub fn hex_digit(c: char) -> (r: Option<u8>)
    ensures
        match r {
            Some(d) => hex_digit_value(c) == Some(d as int) && d < 16,
            None => hex_digit_value(c) is None,
        },
{
    let code: u32 = c as u32;
    if 48 <= code && code <= 57 {
        Some((code - 48) as u8)
    } else if 97 <= code && code <= 102 {
        Some((code - 87) as u8)
    } else if 65 <= code && code <= 70 {
        Some((code - 55) as u8)
    } else {
        None
    }
}

/// Reads the address that a key writes.
pub fn parse_address(key: &str) -> (r: Result<u32, Error>)
    ensures
        match r {
            Ok(address) => address_of(key@) == Some(address),
            Err(e) => e == Error::BadAddress && address_of(key@) is None,
        },
{
    let chars = chars_of(key);
    if chars.len() <= 2 || chars[0] != '0' || chars[1] != 'x' {
        return Err(Error::BadAddress);
    }
    let ghost digits = chars@.skip(2);
    let mut value: u64 = 0;
    let mut i: usize = 2;
    assert(digits.take(0) == Seq::<char>::empty());
    while i < chars.len()
        invariant
            2 <= i <= chars.len(),
            chars@ == key@,
            digits == chars@.skip(2),
            is_hex(digits.take(i - 2)),
            value == hex_value(digits.take(i - 2)),
            value <= u32::MAX,
        decreases chars.len() - i,
    {
        assert(digits.take(i - 1).drop_last() == digits.take(i - 2));
        assert(digits.take(i - 1).last() == chars@[i as int]);
        match hex_digit(chars[i]) {
            None => {
                assert(digits[i - 2] == chars@[i as int]);
                return Err(Error::BadAddress);
            },
            Some(d) => {
                let next: u64 = value * 16 + d as u64;
                if next > u32::MAX as u64 {
                    proof {
                        lemma_hex_value_grows(digits, i - 1);
                    }
                    return Err(Error::BadAddress);
                }
                assert forall|k: int| 0 <= k < digits.take(i - 1).len() implies hex_digit_value(
                    #[trigger] digits.take(i - 1)[k],
                ) is Some by {
                    if k < i - 2 {
                        assert(digits.take(i - 1)[k] == digits.take(i - 2)[k]);
                    }
                }
                value = next;
            },
        }
        i += 1;
    }
    assert(digits.take(digits.len() as int) == digits);
    Ok(value as u32)
}

/// The instruction text in the assembler's register syntax: each token
/// of `r` or `f` and digits without its prefix, as the regex engine
/// rewrites it.
pub fn normalize_registers(text: &str) -> (r: Result<String, Error>)
    ensures
        match r {
            Ok(plain) => regex_replaced(register_pattern(), text@, "$1"@) == Some(plain@),
            Err(e) => e == Error::PatternRefused && regex_replaced(
                register_pattern(),
                text@,
                "$1"@,
            ) is None,
        },
{
    match replace_pattern("\\b[rf](\\d+)\\b", text, "$1") {
        Some(plain) => Ok(plain),
        None => Err(Error::PatternRefused),
    }
}

/// What the assembler is asked for an instruction: its address, read
/// from the key, and its text in the assembler's register syntax.
pub fn assembly_request(instruction: &Instruction) -> (r: Result<AssemblyRequest, Error>)
    ensures
        match r {
            Ok(request) => request_of(instruction@) == Ok::<(u32, Seq<char>), Error>(
                (request.address, request.instruction@),
            ),
            Err(e) => request_of(instruction@) == Err::<(u32, Seq<char>), Error>(e),
        },
{
    let address = match parse_address(instruction.key.as_str()) {
        Err(e) => {
            return Err(e);
        },
        Ok(address) => address,
    };
    match normalize_registers(instruction.text.as_str()) {
        Err(e) => Err(e),
        Ok(plain) => Ok(AssemblyRequest { address, instruction: plain }),
    }
}

/// The patch for an address from what the assembler answered: the first
/// four bytes of the encoding. A rejected instruction, or an encoding of
/// fewer than four bytes, gives up the compilation.
pub open spec fn patch_of(address: u32, outcome: AssemblyOutcome) -> Result<PatchView, Error> {
    match outcome {
        AssemblyOutcome::Encoded(bytes) => if bytes@.len() >= 4 {
            Ok(PatchView { address, opcode: bytes@.take(4) })
        } else {
            Err(Error::ShortEncoding { address })
        },
        AssemblyOutcome::Rejected(why) => Err(Error::AssemblyFailed { address, message: why }),
    }
}

/// The patch for an address from what the assembler answered.
pub fn patch_from_assembly(address: u32, outcome: &AssemblyOutcome) -> (r: Result<Patch, Error>)
    ensures
        match r {
            Ok(patch) => patch_of(address, *outcome) == Ok::<PatchView, Error>(patch@),
            Err(e) => patch_of(address, *outcome) == Err::<PatchView, Error>(e),
        },
{
    match outcome {
        AssemblyOutcome::Encoded(bytes) => {
            if bytes.len() >= 4 {
                let opcode: [u8; 4] = [bytes[0], bytes[1], bytes[2], bytes[3]];
                assert(opcode@ == bytes@.take(4));
                Ok(Patch { address, opcode })
            } else {
                Err(Error::ShortEncoding { address })
            }
        },
        AssemblyOutcome::Rejected(why) => Err(
            Error::AssemblyFailed { address, message: why.clone() },
        ),
    }
}

/// What the assembler is asked for an instruction.
pub open spec fn request_of(instruction: InstructionView) -> Result<(u32, Seq<char>), Error> {
    match address_of(instruction.key) {
        None => Err(Error::BadAddress),
        Some(address) => match regex_replaced(register_pattern(), instruction.text, "$1"@) {
            None => Err(Error::PatternRefused),
            Some(plain) => Ok((address, plain)),
        },
    }
}

/// What comes next in a compilation.
#[derive(Debug, PartialEq, Eq)]
pub enum CompileAction {
    /// Have the assembler answer this request.
    Assemble(AssemblyRequest),
    /// End, with the patches or with the first error.
    Finish(Result<Vec<Patch>, Error>),
}

/// What comes next when `patches` are made: the request for the
/// instruction that follows them, or the end.
pub open spec fn asks_next(
    instructions: Seq<InstructionView>,
    patches: Seq<PatchView>,
    action: CompileAction,
) -> bool {
    if patches.len() >= instructions.len() {
        action matches CompileAction::Finish(Ok(made)) && patches_view(made@) == patches
    } else {
        match request_of(instructions[patches.len() as int]) {
            Err(e) => action == CompileAction::Finish(Err(e)),
            Ok((address, plain)) => action matches CompileAction::Assemble(request)
                && request.address == address && request.instruction@ == plain,
        }
    }
}

/// What follows from an answer of the assembler when `before` are the
/// patches made so far: the answer is for the instruction that follows
/// them, and gives its patch or ends the compilation. Without an answer,
/// or with one that no instruction waits for, the patches stay.
pub open spec fn compile_follows(
    instructions: Seq<InstructionView>,
    before: Seq<PatchView>,
    answer: Option<AssemblyOutcome>,
    after: Seq<PatchView>,
    action: CompileAction,
) -> bool {
    if answer is Some && before.len() < instructions.len() {
        match address_of(instructions[before.len() as int].key) {
            None => after == before && action == CompileAction::Finish(Err(Error::BadAddress)),
            Some(address) => match patch_of(address, answer->0) {
                Err(e) => after == before && action == CompileAction::Finish(Err(e)),
                Ok(patch) => after == before.push(patch) && asks_next(instructions, after, action),
            },
        }
    } else {
        after == before && asks_next(instructions, after, action)
    }
}

/// A copy of the patches.
pub fn copy_patches(patches: &Vec<Patch>) -> (out: Vec<Patch>)
    ensures
        out@ == patches@,
{
    let mut out: Vec<Patch> = Vec::new();
    let mut i: usize = 0;
    while i < patches.len()
        invariant
            i <= patches.len(),
            out@ == patches@.take(i as int),
        decreases patches.len() - i,
    {
        out.push(patches[i]);
        assert(patches@.take(i + 1) == patches@.take(i as int).push(patches@[i as int]));
        i += 1;
    }
    assert(patches@.take(patches@.len() as int) == patches@);
    out
}

/// Takes a compilation one step on: takes in the assembler's answer for
/// the instruction that follows the patches made so far, and says what
/// comes next.
///
/// The instructions become patches one by one, in their order. The
/// compilation begins without an answer. It ends with the first address
/// that cannot be read and with the first instruction that the assembler
/// rejects, and else with one patch for each instruction.
pub fn compile_step(
    instructions: &Vec<Instruction>,
    patches: &mut Vec<Patch>,
    answer: Option<AssemblyOutcome>,
) -> (action: CompileAction)
    ensures
        compile_follows(
            instructions_view(instructions@),
            patches_view(old(patches)@),
            answer,
            patches_view(final(patches)@),
            action,
        ),
{
    let ghost views = instructions_view(instructions@);
    let ghost before = patches_view(patches@);
    if patches.len() < instructions.len() {
        assert(views[patches@.len() as int] == instructions@[patches@.len() as int]@);
        match answer {
            None => {},
            Some(outcome) => {
                let address = match parse_address(instructions[patches.len()].key.as_str()) {
                    Err(e) => {
                        return CompileAction::Finish(Err(e));
                    },
                    Ok(address) => address,
                };
                match patch_from_assembly(address, &outcome) {
                    Err(e) => {
                        return CompileAction::Finish(Err(e));
                    },
                    Ok(patch) => {
                        patches.push(patch);
                        assert(patches_view(patches@) == before.push(patch@));
                    },
                }
            },
        }
    }
    if patches.len() >= instructions.len() {
        CompileAction::Finish(Ok(copy_patches(patches)))
    } else {
        assert(views[patches@.len() as int] == instructions@[patches@.len() as int]@);
        match assembly_request(&instructions[patches.len()]) {
            Err(e) => CompileAction::Finish(Err(e)),
            Ok(request) => CompileAction::Assemble(request),
        }
    }
}

/// The numbers after the first, each behind a comma.
pub open spec fn more_bytes_text(bytes: Seq<u8>) -> Seq<char>
    decreases bytes.len(),
{
    if bytes.len() == 0 {
        Seq::empty()
    } else {
        more_bytes_text(bytes.drop_last()) + seq![','] + decimal(bytes.last() as nat)
    }
}

/// The JSON text of the bytes: their decimal numbers between square
/// brackets, with commas between them.
pub open spec fn bytes_text(bytes: Seq<u8>) -> Seq<char> {
    if bytes.len() == 0 {
        seq!['[', ']']
    } else {
        seq!['['] + decimal(bytes[0] as nat) + more_bytes_text(bytes.skip(1)) + seq![']']
    }
}

/// Writes the bytes of an encoding as JSON text.
pub fn encoding_text(bytes: &Vec<u8>) -> (out: String)
    ensures
        out@ == bytes_text(bytes@),
{
    let mut out: Vec<char> = Vec::new();
    out.push('[');
    if bytes.len() > 0 {
        let mut first = decimal_digits(bytes[0] as u128);
        out.append(&mut first);
        let ghost rest = bytes@.skip(1);
        let mut i: usize = 1;
        assert(rest.take(0) == Seq::<u8>::empty());
        assert(out@ == seq!['['] + decimal(bytes@[0] as nat) + more_bytes_text(rest.take(0)));
        while i < bytes.len()
            invariant
                1 <= i <= bytes.len(),
                rest == bytes@.skip(1),
                out@ == seq!['['] + decimal(bytes@[0] as nat) + more_bytes_text(rest.take(i - 1)),
            decreases bytes.len() - i,
        {
            let ghost before = out@;
            out.push(',');
            let mut digits = decimal_digits(bytes[i] as u128);
            out.append(&mut digits);
            assert(rest.take(i as int).drop_last() == rest.take(i - 1));
            assert(rest.take(i as int).last() == bytes@[i as int]);
            assert(out@ == before + seq![','] + decimal(bytes@[i as int] as nat));
            i += 1;
        }
        assert(rest.take(rest.len() as int) == rest);
    }
    out.push(']');
    string_of(&out)
}

} // verus!
