//! Runtime values: numbers, booleans, nil and strings.
//!
//! A number is an IEEE-754 double held as its 64-bit pattern. Comparing and
//! negating doubles only looks at the sign and the magnitude of the pattern,
//! so both are done here; arithmetic that rounds is left to the host.
use vstd::prelude::*;
use vstd::std_specs::cmp::PartialEqSpecImpl;
use vstd::string::*;

verus! {

/// The sign bit of a double.
pub const SIGN_BIT: u64 = 0x8000_0000_0000_0000u64;

/// The pattern of positive infinity; every larger magnitude is a NaN.
pub const INFINITY_BITS: u64 = 0x7FF0_0000_0000_0000u64;

/// The pattern with the sign bit cleared.
pub open spec fn magnitude(bits: u64) -> u64 {
    if bits >= SIGN_BIT {
        (bits - SIGN_BIT) as u64
    } else {
        bits
    }
}

/// Whether the pattern has its sign bit set.
pub open spec fn is_negative(bits: u64) -> bool {
    bits >= SIGN_BIT
}

/// Whether the pattern is a NaN: all exponent bits set and a non-zero fraction.
pub open spec fn is_nan(bits: u64) -> bool {
    magnitude(bits) > INFINITY_BITS
}

/// The position of a non-NaN double on the number line, up to a monotone
/// rescaling: both zeros map to 0, and larger doubles map to larger integers.
pub open spec fn rank(bits: u64) -> int {
    if is_negative(bits) {
        -(magnitude(bits) as int)
    } else {
        magnitude(bits) as int
    }
}

/// IEEE-754 equality: a NaN equals nothing, the two zeros equal each other,
/// and any other two doubles are equal exactly when their patterns are.
pub open spec fn number_eq(a: u64, b: u64) -> bool {
    !is_nan(a) && !is_nan(b) && rank(a) == rank(b)
}

/// IEEE-754 `<`: false when either side is a NaN.
pub open spec fn number_lt(a: u64, b: u64) -> bool {
    !is_nan(a) && !is_nan(b) && rank(a) < rank(b)
}

/// The pattern with its sign bit flipped.
pub open spec fn negated(bits: u64) -> u64 {
    if bits >= SIGN_BIT {
        (bits - SIGN_BIT) as u64
    } else {
        (bits + SIGN_BIT) as u64
    }
}

/// Different patterns that compare equal can only be the two zeros.
pub proof fn lemma_number_eq_patterns(a: u64, b: u64)
    requires
        number_eq(a, b),
    ensures
        a == b || (magnitude(a) == 0 && magnitude(b) == 0),
{
}

fn magnitude_of(bits: u64) -> (m: u64)
    ensures
        m == magnitude(bits),
{
    if bits >= SIGN_BIT {
        bits - SIGN_BIT
    } else {
        bits
    }
}

/// Decides IEEE-754 equality of two doubles from their patterns.
pub fn numbers_equal(a: u64, b: u64) -> (r: bool)
    ensures
        r == number_eq(a, b),
{
    let ma = magnitude_of(a);
    let mb = magnitude_of(b);
    if ma > INFINITY_BITS || mb > INFINITY_BITS {
        false
    } else if ma == 0 && mb == 0 {
        true
    } else {
        a == b
    }
}

/// Decides IEEE-754 `a < b` from the patterns.
pub fn number_less(a: u64, b: u64) -> (r: bool)
    ensures
        r == number_lt(a, b),
{
    let ma = magnitude_of(a);
    let mb = magnitude_of(b);
    if ma > INFINITY_BITS || mb > INFINITY_BITS {
        false
    } else if a >= SIGN_BIT {
        if b >= SIGN_BIT {
            ma > mb
        } else {
            ma != 0 || mb != 0
        }
    } else {
        if b >= SIGN_BIT {
            false
        } else {
            ma < mb
        }
    }
}

/// Negates a double by flipping the sign bit of its pattern.
pub fn negate_number(bits: u64) -> (r: u64)
    ensures
        r == negated(bits),
{
    if bits >= SIGN_BIT {
        bits - SIGN_BIT
    } else {
        bits + SIGN_BIT
    }
}

/// The mathematical content of a [`Value`].
pub enum Datum {
    Number(u64),
    Boolean(bool),
    Nil,
    Text(Seq<char>),
}

impl Datum {
    /// Only `nil` and `false` are falsey.
    pub open spec fn is_falsey(self) -> bool {
        self == Datum::Nil || self == Datum::Boolean(false)
    }

    /// Equality of the language: same variant and equal payload, with numbers
    /// compared as IEEE-754 doubles.
    pub open spec fn equals(self, other: Datum) -> bool {
        match (self, other) {
            (Datum::Number(a), Datum::Number(b)) => number_eq(a, b),
            (Datum::Boolean(a), Datum::Boolean(b)) => a == b,
            (Datum::Nil, Datum::Nil) => true,
            (Datum::Text(a), Datum::Text(b)) => a == b,
            _ => false,
        }
    }

    /// Whether this is a number whose pattern is a NaN.
    pub open spec fn is_nan(self) -> bool {
        match self {
            Datum::Number(bits) => is_nan(bits),
            _ => false,
        }
    }
}

/// A value of the language.
#[derive(Debug)]
pub enum Value {
    /// A double, as its IEEE-754 bit pattern.
    Number(u64),
    Boolean(bool),
    Nil,
    String(String),
}

impl View for Value {
    type V = Datum;

    open spec fn view(&self) -> Datum {
        match self {
            Value::Number(bits) => Datum::Number(*bits),
            Value::Boolean(b) => Datum::Boolean(*b),
            Value::Nil => Datum::Nil,
            Value::String(s) => Datum::Text(s@),
        }
    }
}

impl Value {
    /// Whether the value counts as false in a condition.
    pub fn is_falsey(&self) -> (r: bool)
        ensures
            r == self@.is_falsey(),
            r <==> (self@ == Datum::Nil || self@ == Datum::Boolean(false)),
    {
        match self {
            Value::Nil => true,
            Value::Boolean(b) => !*b,
            _ => false,
        }
    }

    /// Whether the value is a number.
    pub fn is_number(&self) -> (r: bool)
        ensures
            r == (self@ is Number),
    {
        match self {
            Value::Number(_) => true,
            _ => false,
        }
    }

    /// Whether the value is a string.
    pub fn is_string(&self) -> (r: bool)
        ensures
            r == (self@ is Text),
    {
        match self {
            Value::String(_) => true,
            _ => false,
        }
    }

    /// The bit pattern of a number.
    pub fn into_number(self) -> (bits: u64)
        requires
            self@ is Number,
        ensures
            self@ == Datum::Number(bits),
    {
        match self {
            Value::Number(bits) => bits,
            _ => 0,
        }
    }

    /// Equality of the language.
    pub fn equals(&self, other: &Value) -> (r: bool)
        ensures
            r == self@.equals(other@),
    {
        match self {
            Value::Number(a) => match other {
                Value::Number(b) => numbers_equal(*a, *b),
                _ => false,
            },
            Value::Boolean(a) => match other {
                Value::Boolean(b) => *a == *b,
                _ => false,
            },
            Value::Nil => match other {
                Value::Nil => true,
                _ => false,
            },
            Value::String(a) => match other {
                Value::String(b) => *a == *b,
                _ => false,
            },
        }
    }

    /// The printed form of every value that is not a number: `true`, `false`,
    /// `nil`, or the characters of a string without quotes. Numbers have no
    /// printed form here; their shortest decimal is the host's to produce.
    pub fn to_text(&self) -> (r: Option<String>)
        ensures
            r is None <==> self@ is Number,
            r is Some ==> r->0@ == printed(self@),
    {
        match self {
            Value::Number(_) => None,
            Value::Boolean(b) => {
                if *b {
                    Some(String::from_str("true"))
                } else {
                    Some(String::from_str("false"))
                }
            },
            Value::Nil => Some(String::from_str("nil")),
            Value::String(s) => Some(s.clone()),
        }
    }
}

/// The characters that printing a non-number writes.
pub open spec fn printed(d: Datum) -> Seq<char> {
    match d {
        Datum::Boolean(true) => "true"@,
        Datum::Boolean(false) => "false"@,
        Datum::Nil => "nil"@,
        Datum::Text(s) => s,
        Datum::Number(_) => Seq::empty(),
    }
}

impl Clone for Value {
    fn clone(&self) -> (r: Value)
        ensures
            r@ == self@,
    {
        match self {
            Value::Number(bits) => Value::Number(*bits),
            Value::Boolean(b) => Value::Boolean(*b),
            Value::Nil => Value::Nil,
            Value::String(s) => Value::String(s.clone()),
        }
    }
}

impl PartialEq for Value {
    fn eq(&self, other: &Value) -> (r: bool) {
        self.equals(other)
    }
}

impl PartialEqSpecImpl for Value {
    open spec fn obeys_eq_spec() -> bool {
        true
    }

    open spec fn eq_spec(&self, other: &Value) -> bool {
        self@.equals(other@)
    }
}

/// Equality is reflexive on every value that is not a NaN.
pub proof fn lemma_equals_reflexive(v: Datum)
    requires
        !v.is_nan(),
    ensures
        v.equals(v),
{
}

/// Equality is symmetric.
pub proof fn lemma_equals_symmetric(a: Datum, b: Datum)
    ensures
        a.equals(b) == b.equals(a),
{
}

/// A NaN is the only value that differs from itself.
pub proof fn lemma_nan_differs_from_itself(v: Datum)
    ensures
        !v.equals(v) <==> v.is_nan(),
{
}

} // verus!
