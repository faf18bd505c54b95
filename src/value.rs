//! The data that templates render: a tree of records, lists, optional and
//! result-like values, and scalars.

use vstd::prelude::*;
use crate::conditional::Conditional;
use crate::negative_iterator::NegativeIterator;
use crate::text::push_char;

verus! {

#[derive(Debug)]
pub enum Value {
    /// The unit value, which has no text.
    Unit,
    Bool(bool),
    Int(i64),
    Text(String),
    List(Vec<Value>),
    /// An optional value.
    Maybe(Option<Box<Value>>),
    /// A success (`Ok`) or error (`Err`) value.
    Outcome(Result<Box<Value>, Box<Value>>),
    /// Named members; `truth`, where given, is the record's own truthiness.
    Record { fields: Vec<Field>, truth: Option<bool> },
}

/// A member of a record. A callable member stands for a method that takes no
/// argument: `value` is what it returns, and a name reaches it only with `()`.
#[derive(Debug)]
pub struct Field {
    pub name: String,
    pub value: Value,
    pub callable: bool,
}

/// Whether a value counts as present for a conditional section; `None` where
/// the value has no truthiness.
pub open spec fn truthiness(v: Value) -> Option<bool> {
    match v {
        Value::Bool(b) => Some(b.truthy()),
        Value::List(l) => Some(l.truthy()),
        Value::Record { truth, .. } => truth,
        _ => None,
    }
}

/// The values an iteration section walks, in order; `None` where the value
/// cannot be iterated.
pub open spec fn iteration_items(v: Value) -> Option<Seq<Value>> {
    match v {
        Value::List(l) => Some(l@),
        Value::Maybe(Some(x)) => Some(seq![*x]),
        Value::Maybe(None) => Some(Seq::empty()),
        Value::Outcome(Ok(x)) => Some(seq![*x]),
        Value::Outcome(Err(_)) => Some(Seq::empty()),
        _ => None,
    }
}

/// The values a negative iteration walks: one for an absent or error value,
/// none for a present or success value.
pub open spec fn negative_items(v: Value) -> Option<Seq<Value>> {
    match v {
        Value::Maybe(o) => Some(
            match o.absent_item() {
                Some(_) => seq![Value::Unit],
                None => Seq::empty(),
            },
        ),
        Value::Outcome(r) => Some(
            match r {
                Ok(_) => Seq::empty(),
                Err(e) => seq![*e],
            },
        ),
        _ => None,
    }
}

pub open spec fn digit_chars() -> Seq<char> {
    seq!['0', '1', '2', '3', '4', '5', '6', '7', '8', '9']
}

/// The decimal digits of `n`, most significant first.
pub open spec fn digits(n: nat) -> Seq<char>
    decreases n,
{
    if n < 10 {
        seq![digit_chars()[n as int]]
    } else {
        digits(n / 10).push(digit_chars()[(n % 10) as int])
    }
}

/// The decimal text of an integer, with a `-` for negative numbers.
pub open spec fn decimal(i: int) -> Seq<char> {
    if i < 0 {
        seq!['-'] + digits((-i) as nat)
    } else {
        digits(i as nat)
    }
}

/// The text of a value, where it has one.
pub open spec fn display(v: Value) -> Option<Seq<char>> {
    match v {
        Value::Bool(b) => Some(if b { "true"@ } else { "false"@ }),
        Value::Int(i) => Some(decimal(i as int)),
        Value::Text(t) => Some(t@),
        _ => None,
    }
}

fn digit(d: u64) -> (c: char)
    requires
        d < 10,
    ensures
        c == digit_chars()[d as int],
{
    match d {
        0 => '0',
        1 => '1',
        2 => '2',
        3 => '3',
        4 => '4',
        5 => '5',
        6 => '6',
        7 => '7',
        8 => '8',
        _ => '9',
    }
}

fn push_digits(out: &mut String, n: u64)
    ensures
        final(out)@ == old(out)@ + digits(n as nat),
    decreases n,
{
    if n >= 10 {
        push_digits(out, n / 10);
    }
    let ghost mid = out@;
    push_char(out, digit(n % 10));
    proof {
        if n >= 10 {
            assert(old(out)@ + digits(n as nat) =~= mid.push(digit_chars()[(n % 10) as int]));
        } else {
            assert(old(out)@ + digits(n as nat) =~= old(out)@.push(digit_chars()[(n % 10) as int]));
        }
    }
}

/// Appends the decimal text of `i`.
pub fn push_decimal(out: &mut String, i: i64)
    ensures
        final(out)@ == old(out)@ + decimal(i as int),
{
    if i < 0 {
        push_char(out, '-');
        let m: u64 = (-(i + 1)) as u64 + 1;
        assert(m as int == -(i as int));
        let ghost mid = out@;
        push_digits(out, m);
        assert(old(out)@ + decimal(i as int) =~= mid + digits(m as nat));
    } else {
        push_digits(out, i as u64);
    }
}

impl Value {
    /// Exec form of [`truthiness`].
    pub fn truthiness(&self) -> (r: Option<bool>)
        ensures
            r == truthiness(*self),
    {
        match self {
            Value::Bool(b) => Some(b.val()),
            Value::List(l) => Some(l.val()),
            Value::Record { truth, .. } => *truth,
            _ => None,
        }
    }
}

} // verus!
