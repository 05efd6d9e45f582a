use vstd::prelude::*;

use crate::text::{chars_of, extend_chars};

verus! {

/// A number of the data context: an integer, or a non-integer kept as its
/// canonical decimal text (the shortest text that reads back as the same
/// number).
#[derive(Debug, PartialEq)]
pub enum Number {
    Int(i128),
    Float(String),
}

/// A node of the hierarchical data context.
///
/// An object is a list of members with unique keys; a lookup takes the
/// first member that has the key.
#[derive(Debug, PartialEq)]
pub enum Value {
    Null,
    Bool(bool),
    Number(Number),
    Str(String),
    Array(Vec<Value>),
    Object(Vec<(String, Value)>),
}

/// The decimal digits of `n`, most significant first, with no leading zero.
pub open spec fn decimal_digits(n: nat) -> Seq<char>
    decreases n,
{
    if n < 10 {
        seq![digit_char(n)]
    } else {
        decimal_digits(n / 10) + seq![digit_char(n % 10)]
    }
}

/// The character of the decimal digit `d` (below ten).
pub open spec fn digit_char(d: nat) -> char {
    ((d + 48) as u8) as char
}

/// The canonical decimal text of a number.
pub open spec fn number_text(n: Number) -> Seq<char> {
    match n {
        Number::Int(i) => if i < 0 {
            seq!['-'] + decimal_digits((-i) as nat)
        } else {
            decimal_digits(i as nat)
        },
        Number::Float(t) => t@,
    }
}

/// The text that a resolved value displays as: strings as themselves,
/// booleans as `true` / `false`, numbers as their decimal text, and
/// nothing for arrays, objects, null and an absent value.
pub open spec fn display_text(v: Option<Value>) -> Seq<char> {
    match v {
        Some(Value::Str(s)) => s@,
        Some(Value::Bool(b)) => if b {
            seq!['t', 'r', 'u', 'e']
        } else {
            seq!['f', 'a', 'l', 's', 'e']
        },
        Some(Value::Number(n)) => number_text(n),
        _ => Seq::empty(),
    }
}

/// The value of the first member whose key is `k`.
pub open spec fn lookup(members: Seq<(String, Value)>, k: Seq<char>) -> Option<Value>
    decreases members.len(),
{
    if members.len() == 0 {
        None
    } else if members[0].0@ == k {
        Some(members[0].1)
    } else {
        lookup(members.drop_first(), k)
    }
}

/// Appends the text that the resolved value `v` displays as.
pub fn push_display(v: Option<&Value>, out: &mut Vec<char>)
    ensures
        final(out)@ == old(out)@ + display_text(
            match v {
                Some(x) => Some(*x),
                None => None,
            },
        ),
{
    match v {
        Some(Value::Str(s)) => {
            let cs = chars_of(s.as_str());
            extend_chars(out, cs.as_slice());
        },
        Some(Value::Bool(b)) => {
            if *b {
                out.push('t');
                out.push('r');
                out.push('u');
                out.push('e');
            } else {
                out.push('f');
                out.push('a');
                out.push('l');
                out.push('s');
                out.push('e');
            }
        },
        Some(Value::Number(n)) => push_number(n, out),
        _ => {},
    }
    assert(final(out)@ =~= old(out)@ + display_text(
        match v {
            Some(x) => Some(*x),
            None => None,
        },
    ));
}

/// Appends the decimal digits of `m`.
fn push_decimal(m: u128, out: &mut Vec<char>)
    ensures
        final(out)@ == old(out)@ + decimal_digits(m as nat),
    decreases m,
{
    if m >= 10 {
        push_decimal(m / 10, out);
    }
    let d: u8 = (m % 10) as u8;
    out.push((d + 48) as char);
    assert(final(out)@ =~= old(out)@ + decimal_digits(m as nat));
}

/// Appends the canonical decimal text of `n`.
pub fn push_number(n: &Number, out: &mut Vec<char>)
    ensures
        final(out)@ == old(out)@ + number_text(*n),
{
    match n {
        Number::Int(i) => {
            if *i < 0 {
                out.push('-');
                let m: u128 = if *i == i128::MIN {
                    (i128::MAX as u128) + 1
                } else {
                    (-*i) as u128
                };
                push_decimal(m, out);
            } else {
                push_decimal(*i as u128, out);
            }
        },
        Number::Float(t) => {
            let cs = chars_of(t.as_str());
            extend_chars(out, cs.as_slice());
        },
    }
    assert(final(out)@ =~= old(out)@ + number_text(*n));
}

} // verus!
