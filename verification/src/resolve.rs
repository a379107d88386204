//! The variable value resolver: from a raw key and its raw value to a
//! variable name and a typed number.

use crate::error::Error;
use crate::number::{truncate, truncated, Number, NumberView, Reading, ReadingView};
use crate::ini::text_view;
use crate::text::{chars_of, ends_with, has_suffix, slice_chars, string_of};
use vstd::prelude::*;

verus! {

/// The suffix of a key whose value is an integer.
pub open spec fn integer_marker() -> Seq<char> {
    seq![':', 'i', 'n', 't']
}

/// The key carries the integer marker.
pub open spec fn has_integer_marker(key: Seq<char>) -> bool {
    has_suffix(key, integer_marker())
}

/// The key without the integer markers at its end.
pub open spec fn without_marker(key: Seq<char>) -> Seq<char>
    decreases key.len(),
{
    if has_integer_marker(key) {
        without_marker(key.take(key.len() - 4))
    } else {
        key
    }
}

/// A variable of a preset with its value.
#[derive(Debug, Clone, PartialEq, Eq)]
pub struct Variable {
    pub name: String,
    pub value: Number,
}

/// A `Variable` as a mathematical value.
pub struct VariableView {
    pub name: Seq<char>,
    pub value: NumberView,
}

impl View for Variable {
    type V = VariableView;

    open spec fn view(&self) -> VariableView {
        VariableView { name: self.name@, value: self.value@ }
    }
}

/// The mathematical value of a reading that may be absent.
pub open spec fn reading_view(reading: Option<Reading>) -> Option<ReadingView> {
    match reading {
        Some(r) => Some(r@),
        None => None,
    }
}

/// The mathematical value of a resolver's result.
pub open spec fn resolution_view(r: Result<Variable, Error>) -> Result<VariableView, Error> {
    match r {
        Ok(v) => Ok(v@),
        Err(e) => Err(e),
    }
}

/// The typed number for a reading. Under the integer marker a floating
/// value is cut off toward zero; without it a floating value stays, and
/// must be finite.
pub open spec fn coerced(reading: ReadingView, integer: bool) -> Option<NumberView> {
    match reading {
        ReadingView::Integer(i) => Some(NumberView::Integer(i)),
        ReadingView::Float { bits, text } => if integer {
            Some(NumberView::Integer(truncated(bits)))
        } else {
            match text {
                Some(t) => Some(NumberView::Float(t)),
                None => None,
            }
        },
    }
}

/// What a key resolves to, given whether it has a value and what the
/// value was read as.
pub open spec fn resolved(key: Seq<char>, present: bool, reading: Option<ReadingView>) -> Result<
    VariableView,
    Error,
> {
    if !present {
        Err(Error::MissingValue)
    } else {
        match reading {
            None => Err(Error::InvalidExpression),
            Some(r) => match coerced(r, has_integer_marker(key)) {
                Some(n) => Ok(VariableView { name: without_marker(key), value: n }),
                None => Err(Error::InvalidExpression),
            },
        }
    }
}

/// What `serde_json::from_str::<serde_json::Number>` makes of a text:
/// nothing where the text is no JSON number; else the integer, or the
/// floating value with its JSON text.
pub uninterp spec fn json_literal(text: Seq<char>) -> Option<ReadingView>;

/// Whether `meval::eval_str` takes a text as an expression and gives it
/// a value. That rests on the shape of the text and on the names in it,
/// not on what the value is.
pub uninterp spec fn expression_accepted(text: Seq<char>) -> bool;

/// The JSON text that `serde_json::Number::from_f64` gives the floating
/// value with these bits: nothing where the value is not finite.
pub uninterp spec fn float_text(bits: u64) -> Option<Seq<char>>;

/// A floating value that was read has, as its text, the JSON text of its
/// bits.
pub open spec fn reading_wf(reading: ReadingView) -> bool {
    reading matches ReadingView::Float { bits, text } ==> text == float_text(bits)
}

/// A floating value among the numbers has the JSON text of some bits.
pub open spec fn number_wf(n: NumberView) -> bool {
    n matches NumberView::Float(shown) ==> exists|bits: u64| float_text(bits) == Some(shown)
}

/// The character is a blank: a space, a tab, a carriage return or a line
/// feed.
pub open spec fn is_blank(c: char) -> bool {
    c == ' ' || c == '\t' || c == '\r' || c == '\n'
}

/// The text is not empty and holds only blanks. The expression evaluator
/// does not return on such a text.
pub open spec fn only_blanks(text: Seq<char>) -> bool {
    text.len() > 0 && forall|i: int| 0 <= i < text.len() ==> is_blank(#[trigger] text[i])
}

/// Parses `text` strictly as a JSON number with
/// `serde_json::from_str::<serde_json::Number>`. The contract claims that
/// the result is a function of the text, and that the text of a floating
/// value is the JSON text of its bits.
#[verifier::external_body]
fn read_literal(text: &str) -> (r: Option<Reading>)
    ensures
        reading_view(r) == json_literal(text@),
        r matches Some(Reading::Float { bits, text: shown }) ==> text_view(shown) == float_text(bits),
{
    match serde_json::from_str::<serde_json::Number>(text) {
        Ok(n) => match (n.as_i128(), n.as_f64()) {
            (Some(i), _) => Some(Reading::Integer(i)),
            (None, Some(v)) => Some(Reading::Float { bits: v.to_bits(), text: Some(n.to_string()) }),
            (None, None) => None,
        },
        Err(_) => None,
    }
}

/// Evaluates `text` as an arithmetic expression with `meval::eval_str`,
/// and takes the JSON text of a finite result from
/// `serde_json::Number::from_f64`. The evaluator's tokenizer panics on a
/// text of blanks alone, which is left out. The contract claims that
/// whether there is a result is a function of the text, that a result is
/// a floating value, and that its text is the JSON text of its bits.
/// Which value it is stays open: how the evaluator's functions round is
/// the machine's affair.
#[verifier::external_body]
fn evaluate(text: &str) -> (r: Option<Reading>)
    requires
        !only_blanks(text@),
    ensures
        r is Some <==> expression_accepted(text@),
        r matches Some(v) ==> v is Float,
        r matches Some(Reading::Float { bits, text: shown }) ==> text_view(shown) == float_text(bits),
{
    match meval::eval_str(text) {
        Ok(v) => Some(
            Reading::Float {
                bits: v.to_bits(),
                text: match serde_json::Number::from_f64(v) {
                    Some(n) => Some(n.to_string()),
                    None => None,
                },
            },
        ),
        Err(_) => None,
    }
}

/// The key without the integer markers at its end.
pub fn strip_marker(key: &Vec<char>) -> (out: Vec<char>)
    ensures
        out@ == without_marker(key@),
{
    let marker: Vec<char> = vec![':', 'i', 'n', 't'];
    assert(marker@ == integer_marker());
    let mut end: usize = key.len();
    let mut rest: Vec<char> = slice_chars(key, 0, end);
    assert(rest@ == key@);
    while ends_with(&rest, &marker)
        invariant
            marker@ == integer_marker(),
            end <= key.len(),
            rest@ == key@.take(end as int),
            without_marker(rest@) == without_marker(key@),
        decreases end,
    {
        end = end - 4;
        let shorter = slice_chars(key, 0, end);
        assert(shorter@ == rest@.take(rest@.len() - 4));
        rest = shorter;
    }
    rest
}

/// A reading that the readers give for a value: for a JSON number what
/// the literal parser makes of it; for a text of blanks alone nothing;
/// for any other text a floating value where the evaluator takes the
/// text as an expression, and nothing where it does not.
pub open spec fn accepted_reading(value: Seq<char>, reading: Option<ReadingView>) -> bool {
    &&& if json_literal(value) is Some {
        reading == json_literal(value)
    } else if only_blanks(value) {
        reading is None
    } else {
        (reading is Some <==> expression_accepted(value)) && (reading matches Some(r) ==> r is Float)
    }
    &&& reading matches Some(r) ==> reading_wf(r)
}

/// Whether the text is not empty and holds only blanks.
pub fn is_only_blanks(text: &str) -> (r: bool)
    ensures
        r == only_blanks(text@),
{
    let chars = chars_of(text);
    if chars.len() == 0 {
        return false;
    }
    let mut i: usize = 0;
    while i < chars.len()
        invariant
            i <= chars.len(),
            chars@ == text@,
            forall|j: int| 0 <= j < i ==> is_blank(#[trigger] chars@[j]),
        decreases chars.len() - i,
    {
        let c = chars[i];
        if !(c == ' ' || c == '\t' || c == '\r' || c == '\n') {
            return false;
        }
        i += 1;
    }
    true
}

/// Reads a raw value as a number: as a JSON number where it is one, else
/// as an arithmetic expression. A text of blanks alone is no expression.
pub fn read_value(value: &str) -> (r: Option<Reading>)
    ensures
        accepted_reading(value@, reading_view(r)),
{
    let literal = read_literal(value);
    if literal.is_some() {
        literal
    } else if is_only_blanks(value) {
        None
    } else {
        evaluate(value)
    }
}

/// Resolves a key, given whether it has a value and what the value was
/// read as.
pub fn resolve_with(key: &str, present: bool, reading: &Option<Reading>) -> (r: Result<
    Variable,
    Error,
>)
    ensures
        resolution_view(r) == resolved(key@, present, reading_view(*reading)),
        (reading_view(*reading) matches Some(v) ==> reading_wf(v)) ==> (r matches Ok(v)
            ==> number_wf(v@.value)),
{
    if !present {
        return Err(Error::MissingValue);
    }
    let key_chars = chars_of(key);
    let marker: Vec<char> = vec![':', 'i', 'n', 't'];
    assert(marker@ == integer_marker());
    let integer = ends_with(&key_chars, &marker);
    match reading {
        None => Err(Error::InvalidExpression),
        Some(Reading::Integer(i)) => Ok(
            Variable { name: string_of(&strip_marker(&key_chars)), value: Number::Integer(*i) },
        ),
        Some(Reading::Float { bits, text }) => {
            if integer {
                Ok(
                    Variable {
                        name: string_of(&strip_marker(&key_chars)),
                        value: Number::Integer(truncate(*bits) as i128),
                    },
                )
            } else {
                match text {
                    Some(t) => {
                        assert(reading_wf(reading_view(*reading)->0) ==> float_text(*bits) == Some(
                            t@,
                        ));
                        Ok(
                            Variable {
                                name: string_of(&strip_marker(&key_chars)),
                                value: Number::Float(t.clone()),
                            },
                        )
                    },
                    None => Err(Error::InvalidExpression),
                }
            }
        },
    }
}

/// Resolves a key and its raw value: the result is `resolved` for what
/// the value was read as.
pub fn resolve_value(key: &str, value: Option<&str>) -> (r: Result<Variable, Error>)
    ensures
        value is None ==> r == Err::<Variable, Error>(Error::MissingValue),
        value matches Some(v) ==> exists|reading: Option<ReadingView>|
            accepted_reading(v@, reading) && resolution_view(r) == resolved(key@, true, reading),
        r matches Ok(v) ==> number_wf(v@.value),
{
    match value {
        None => Err(Error::MissingValue),
        Some(v) => {
            let reading = read_value(v);
            let r = resolve_with(key, true, &reading);
            assert(accepted_reading(v@, reading_view(reading)) && resolution_view(r) == resolved(
                key@,
                true,
                reading_view(reading),
            ));
            r
        },
    }
}

} // verus!
