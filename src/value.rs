use vstd::prelude::*;
use crate::number::{Number, number_text, num_eq};

verus! {

/// The native function that reads the wall clock.
#[derive(Clone, Copy, Debug, PartialEq, Eq, Structural)]
pub struct ClockFunction;

/// A runtime value of the language.
#[derive(Clone, Debug)]
pub enum Value {
    Number(Number),
    Text(String),
    Boolean(bool),
    Nil,
    Native(ClockFunction),
}

/// The mathematical model of a [`Value`]: text is a sequence of characters.
pub enum Val {
    Number(Number),
    Text(Seq<char>),
    Boolean(bool),
    Nil,
    Native(ClockFunction),
}

impl View for Value {
    type V = Val;

    open spec fn view(&self) -> Val {
        match self {
            Value::Number(n) => Val::Number(*n),
            Value::Text(s) => Val::Text(s@),
            Value::Boolean(b) => Val::Boolean(*b),
            Value::Nil => Val::Nil,
            Value::Native(f) => Val::Native(*f),
        }
    }
}

/// Only `false` and `nil` are falsy.
pub open spec fn truthy(v: Val) -> bool {
    match v {
        Val::Boolean(b) => b,
        Val::Nil => false,
        _ => true,
    }
}

/// `==` of the language: by value within a type, `nil` equal only to `nil`,
/// and unequal across types.
pub open spec fn values_equal(a: Val, b: Val) -> bool {
    match (a, b) {
        (Val::Number(x), Val::Number(y)) => num_eq(x, y),
        (Val::Text(x), Val::Text(y)) => x == y,
        (Val::Boolean(x), Val::Boolean(y)) => x == y,
        (Val::Nil, Val::Nil) => true,
        (Val::Native(_), Val::Native(_)) => true,
        _ => false,
    }
}

pub open spec fn clock_text() -> Seq<char> {
    seq!['n', 'a', 't', 'i', 'v', 'e', ' ', 'f', 'n', ' ', 'c', 'l', 'o', 'c', 'k', '(', ')']
}

/// The text that `print` writes for a value.
pub open spec fn value_text(v: Val) -> Seq<char> {
    match v {
        Val::Number(n) => number_text(n),
        Val::Text(s) => s,
        Val::Boolean(b) => if b { seq!['t', 'r', 'u', 'e'] } else { seq!['f', 'a', 'l', 's', 'e'] },
        Val::Nil => seq!['n', 'i', 'l'],
        Val::Native(_) => clock_text(),
    }
}

/// Relies on `str::chars`: the characters of a string, in order; and on
/// `Vec`, whose capacity never exceeds `isize::MAX`.
#[verifier::external_body]
pub(crate) fn chars_of(s: &str) -> (r: Vec<char>)
    ensures
        r@ == s@,
        r@.len() <= isize::MAX,
{
    s.chars().collect()
}

/// Relies on `String: FromIterator<char>`: the string of the characters `cs[a..b]`.
#[verifier::external_body]
pub(crate) fn string_of(cs: &Vec<char>, a: usize, b: usize) -> (r: String)
    requires
        a <= b <= cs@.len(),
    ensures
        r@ == cs@.subrange(a as int, b as int),
{
    cs[a..b].iter().collect()
}

pub(crate) fn push_str_chars(s: &String, out: &mut Vec<char>)
    ensures
        final(out)@ == old(out)@ + s@,
{
    let mut cs = chars_of(s.as_str());
    out.append(&mut cs);
}

impl Value {
    /// A copy of this value.
    pub fn duplicate(&self) -> (r: Value)
        ensures
            r == *self,
    {
        match self {
            Value::Number(n) => Value::Number(*n),
            Value::Text(s) => Value::Text(s.clone()),
            Value::Boolean(b) => Value::Boolean(*b),
            Value::Nil => Value::Nil,
            Value::Native(f) => Value::Native(*f),
        }
    }

    /// Truthiness: only `false` and `nil` are falsy.
    pub fn is_truthy(&self) -> (r: bool)
        ensures
            r == truthy(self@),
    {
        match self {
            Value::Boolean(b) => *b,
            Value::Nil => false,
            _ => true,
        }
    }

    /// The language's `==`.
    pub fn equals(&self, other: &Value) -> (r: bool)
        ensures
            r == values_equal(self@, other@),
    {
        match (self, other) {
            (Value::Number(x), Value::Number(y)) => x.num_eq(y),
            (Value::Text(x), Value::Text(y)) => x.eq(y),
            (Value::Boolean(x), Value::Boolean(y)) => *x == *y,
            (Value::Nil, Value::Nil) => true,
            (Value::Native(_), Value::Native(_)) => true,
            _ => false,
        }
    }

    /// Appends the text that `print` writes for this value.
    pub fn push_text(&self, out: &mut Vec<char>)
        ensures
            final(out)@ == old(out)@ + value_text(self@),
    {
        match self {
            Value::Number(n) => n.push_text(out),
            Value::Text(s) => push_str_chars(s, out),
            Value::Boolean(b) => {
                let ghost start = out@;
                if *b {
                    out.push('t');
                    out.push('r');
                    out.push('u');
                    out.push('e');
                } else {
                    out.push('f');
                    out.push('a');
                    out.push('l');
                    out.push('s');
                    out.push('e');
                }
                assert(out@ =~= start + value_text(self@));
            },
            Value::Nil => {
                let ghost start = out@;
                out.push('n');
                out.push('i');
                out.push('l');
                assert(out@ =~= start + value_text(self@));
            },
            Value::Native(f) => {
                let ghost start = out@;
                let t = crate::native_fn::NativeFunction::to_string(f);
                push_str_chars(&t, out);
                assert(out@ =~= start + value_text(self@));
            },
        }
    }

    /// The text that `print` writes for this value.
    pub fn stringify(&self) -> (r: String)
        ensures
            r@ == value_text(self@),
    {
        let mut out: Vec<char> = Vec::new();
        self.push_text(&mut out);
        assert(out@ =~= value_text(self@));
        let r = string_of(&out, 0, out.len());
        assert(out@.subrange(0, out@.len() as int) =~= out@);
        r
    }
}

} // verus!
