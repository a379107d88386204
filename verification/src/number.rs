//! Numbers of the rules: what a parser or an evaluator read, the typed
//! number that a variable resolves to, and its text.

use crate::text::{decimal, decimal_digits};
use vstd::arithmetic::power2::pow2;
use vstd::bits::lemma_u64_shr_is_div;
use vstd::prelude::*;

verus! {

/// A number as an outside parser or evaluator read it. A floating value
/// is held as its IEEE-754 bit pattern of 64 bits, beside its JSON text
/// where it is finite.
#[derive(Debug, Clone, PartialEq, Eq)]
pub enum Reading {
    Integer(i128),
    Float { bits: u64, text: Option<String> },
}

/// A `Reading` as a mathematical value.
pub enum ReadingView {
    Integer(int),
    Float { bits: u64, text: Option<Seq<char>> },
}

impl View for Reading {
    type V = ReadingView;

    open spec fn view(&self) -> ReadingView {
        match self {
            Reading::Integer(i) => ReadingView::Integer(*i as int),
            Reading::Float { bits, text } => ReadingView::Float {
                bits: *bits,
                text: match text {
                    Some(t) => Some(t@),
                    None => None,
                },
            },
        }
    }
}

/// A typed number: an integer, or a finite floating value held as its
/// JSON text.
#[derive(Debug, Clone, PartialEq, Eq)]
pub enum Number {
    Integer(i128),
    Float(String),
}

/// A `Number` as a mathematical value.
pub enum NumberView {
    Integer(int),
    Float(Seq<char>),
}

impl View for Number {
    type V = NumberView;

    open spec fn view(&self) -> NumberView {
        match self {
            Number::Integer(i) => NumberView::Integer(*i as int),
            Number::Float(t) => NumberView::Float(t@),
        }
    }
}

/// The sign bit of a floating value is set.
pub open spec fn float_negative(bits: u64) -> bool {
    bits >= 0x8000_0000_0000_0000
}

/// The biased exponent of a floating value: its eleven bits below the
/// sign.
pub open spec fn float_exponent(bits: u64) -> int {
    (bits as int / 0x10_0000_0000_0000) % 0x800
}

/// The fraction of a floating value: its lowest 52 bits.
pub open spec fn float_fraction(bits: u64) -> int {
    bits as int % 0x10_0000_0000_0000
}

/// The floating value with these bits, cut off toward zero and kept
/// within 32 bits: zero where it is not a number, the nearest bound where
/// it is out of range.
pub open spec fn truncated(bits: u64) -> int {
    let e = float_exponent(bits);
    let f = float_fraction(bits);
    if e == 0x7ff && f != 0 {
        0
    } else if e < 1023 {
        0
    } else if e >= 1054 {
        if float_negative(bits) {
            -0x8000_0000
        } else {
            0x7fff_ffff
        }
    } else {
        let magnitude = (0x10_0000_0000_0000 + f) / (pow2((1075 - e) as nat) as int);
        if float_negative(bits) {
            -magnitude
        } else {
            magnitude
        }
    }
}

/// The text of a number: the decimal digits of an integer, after a minus
/// sign where it is negative; the JSON text of a floating value.
pub open spec fn number_text(n: NumberView) -> Seq<char> {
    match n {
        NumberView::Integer(i) => if i < 0 {
            seq!['-'] + decimal((-i) as nat)
        } else {
            decimal(i as nat)
        },
        NumberView::Float(t) => t,
    }
}

/// Cuts the floating value with these bits off toward zero.
pub fn truncate(bits: u64) -> (r: i32)
    ensures
        r == truncated(bits),
{
    let exponent: u64 = (bits >> 52) & 0x7ff;
    let fraction: u64 = bits & 0xf_ffff_ffff_ffff;
    let negative: bool = (bits >> 63) == 1;
    assert(exponent == (bits / 0x10_0000_0000_0000) % 0x800) by (bit_vector)
        requires
            exponent == (bits >> 52) & 0x7ff,
    ;
    assert(fraction == bits % 0x10_0000_0000_0000) by (bit_vector)
        requires
            fraction == bits & 0xf_ffff_ffff_ffff,
    ;
    assert(negative == (bits >= 0x8000_0000_0000_0000)) by (bit_vector)
        requires
            negative == ((bits >> 63) == 1),
    ;
    if exponent == 0x7ff && fraction != 0 {
        0
    } else if exponent < 1023 {
        0
    } else if exponent >= 1054 {
        if negative {
            i32::MIN
        } else {
            i32::MAX
        }
    } else {
        let shift: u64 = 1075 - exponent;
        let significand: u64 = 0x10_0000_0000_0000 + fraction;
        let magnitude: u64 = significand >> shift;
        proof {
            lemma_u64_shr_is_div(significand, shift);
        }
        assert(magnitude < 0x8000_0000) by (bit_vector)
            requires
                magnitude == significand >> shift,
                22 <= shift <= 52,
                significand < 0x20_0000_0000_0000,
        ;
        if negative {
            -(magnitude as i32)
        } else {
            magnitude as i32
        }
    }
}

/// Writes a number as text.
pub fn render_number(n: &Number) -> (out: Vec<char>)
    ensures
        out@ == number_text(n@),
{
    match n {
        Number::Integer(i) => {
            if *i < 0 {
                let magnitude: u128 = (-(*i + 1)) as u128 + 1;
                let mut out: Vec<char> = Vec::new();
                out.push('-');
                let mut digits = decimal_digits(magnitude);
                out.append(&mut digits);
                out
            } else {
                decimal_digits(*i as u128)
            }
        },
        Number::Float(t) => crate::text::chars_of(t.as_str()),
    }
}

} // verus!
