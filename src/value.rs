//! The dynamically typed runtime value.
use vstd::prelude::*;

verus! {

/// A decimal number: the integer that the decimal digits `digits` spell
/// (none for zero), divided by `10^scale`, negated when `negative` holds.
///
/// The engine performs no arithmetic; numbers are carried from literals and
/// host conversions to host callbacks unchanged, with every digit kept.
#[derive(Clone, Debug, PartialEq, Eq)]
pub struct Number {
    pub negative: bool,
    pub digits: String,
    pub scale: usize,
}

/// The digits of the natural number `m` without leading zeros: none for zero.
pub open spec fn int_digits(m: nat) -> Seq<char> {
    if m == 0 {
        Seq::empty()
    } else {
        digit_chars(m)
    }
}

impl Number {
    /// This number is the integer `n`: no sign for zero or more, no fraction,
    /// and the digits of `|n|` without leading zeros.
    pub open spec fn is_integer(&self, n: int) -> bool {
        &&& self.negative == (n < 0)
        &&& self.scale == 0
        &&& self.digits@ == int_digits((if n < 0 { -n } else { n }) as nat)
    }

    /// A copy of this number.
    pub fn duplicate(&self) -> (r: Number)
        ensures
            r == *self,
    {
        Number { negative: self.negative, digits: self.digits.clone(), scale: self.scale }
    }

    fn of_magnitude(negative: bool, m: u64) -> (r: Number)
        ensures
            r.negative == negative,
            r.scale == 0,
            r.digits@ == int_digits(m as nat),
    {
        if m == 0 {
            let none: Vec<char> = Vec::new();
            Number { negative, digits: crate::parser::text_of(none.as_slice()), scale: 0 }
        } else {
            let ds = digit_vec(m);
            Number { negative, digits: crate::parser::text_of(ds.as_slice()), scale: 0 }
        }
    }

    pub fn from_i64(v: i64) -> (r: Number)
        ensures
            r.is_integer(v as int),
    {
        if v < 0 {
            let magnitude: i128 = -(v as i128);
            Number::of_magnitude(true, magnitude as u64)
        } else {
            Number::of_magnitude(false, v as u64)
        }
    }

    pub fn from_u64(v: u64) -> (r: Number)
        ensures
            r.is_integer(v as int),
    {
        Number::of_magnitude(false, v)
    }
}

/// A handle naming one native callback that the host has registered.
///
/// Copies of a handle alias the same callback; the engine never looks inside.
#[derive(Clone, Copy, Debug, PartialEq, Eq, Structural)]
pub struct Function {
    pub id: u64,
}

/// A runtime value of the scripting language.
#[derive(Clone, Debug)]
pub enum Value {
    Nil,
    Boolean(bool),
    Number(Number),
    String(String),
    Function(Function),
}

/// The dynamic type of a value.
#[derive(Clone, Copy, Debug, PartialEq, Eq, Structural)]
pub enum Kind {
    Nil,
    Boolean,
    Number,
    String,
    Function,
}

/// The dynamic type of `v`.
pub open spec fn kind_of(v: Value) -> Kind {
    match v {
        Value::Nil => Kind::Nil,
        Value::Boolean(_) => Kind::Boolean,
        Value::Number(_) => Kind::Number,
        Value::String(_) => Kind::String,
        Value::Function(_) => Kind::Function,
    }
}

impl Kind {
    /// The diagnostic tag of this type, as `Value::as_type` gives it.
    pub fn as_str(&self) -> (r: &'static str)
        ensures
            r@ == kind_name_of(*self),
    {
        match self {
            Kind::Nil => "nil",
            Kind::Boolean => "boolean",
            Kind::Number => "number",
            Kind::String => "string",
            Kind::Function => "function",
        }
    }
}

/// The diagnostic tag of a dynamic type.
pub open spec fn kind_name_of(k: Kind) -> Seq<char> {
    match k {
        Kind::Nil => "nil"@,
        Kind::Boolean => "boolean"@,
        Kind::Number => "number"@,
        Kind::String => "string"@,
        Kind::Function => "function"@,
    }
}

impl Default for Value {
    fn default() -> (r: Value)
        ensures
            r == Value::Nil,
    {
        Value::Nil
    }
}

impl Value {
    /// A copy of this value; a function handle is shared, not duplicated.
    pub fn duplicate(&self) -> (r: Value)
        ensures
            r == *self,
    {
        match self {
            Value::Nil => Value::Nil,
            Value::Boolean(b) => Value::Boolean(*b),
            Value::Number(n) => Value::Number(n.duplicate()),
            Value::String(s) => Value::String(s.clone()),
            Value::Function(f) => Value::Function(*f),
        }
    }

    /// The dynamic type of this value.
    pub fn kind(&self) -> (r: Kind)
        ensures
            r == kind_of(*self),
    {
        match self {
            Value::Nil => Kind::Nil,
            Value::Boolean(_) => Kind::Boolean,
            Value::Number(_) => Kind::Number,
            Value::String(_) => Kind::String,
            Value::Function(_) => Kind::Function,
        }
    }

    pub fn as_type(&self) -> (r: &'static str)
        ensures
            r@ == kind_name_of(kind_of(*self)),
    {
        match self {
            Value::Nil => "nil",
            Value::Boolean(_) => "boolean",
            Value::Number(_) => "number",
            Value::String(_) => "string",
            Value::Function(_) => "function",
        }
    }

    /// The display text of this value; see [`display_text`].
    pub fn to_text(&self) -> (r: String)
        ensures
            r@ == display_text(*self),
    {
        match self {
            Value::Nil => "nil".to_owned(),
            Value::Boolean(b) => if *b {
                "true".to_owned()
            } else {
                "false".to_owned()
            },
            Value::Number(n) => n.to_text(),
            Value::String(s) => quoted(s.as_str()),
            Value::Function(_) => "<function>".to_owned(),
        }
    }

    /// Returns `true` if the value is `Nil`.
    pub fn is_nil(&self) -> (r: bool)
        ensures
            r == (*self is Nil),
    {
        matches!(self, Value::Nil)
    }

    /// Returns `true` if the value is a `Boolean`.
    pub fn is_boolean(&self) -> (r: bool)
        ensures
            r == (*self is Boolean),
    {
        matches!(self, Value::Boolean(..))
    }

    /// Returns `true` if the value is a `Number`.
    pub fn is_number(&self) -> (r: bool)
        ensures
            r == (*self is Number),
    {
        matches!(self, Value::Number(..))
    }

    /// Returns `true` if the value is a `String`.
    pub fn is_string(&self) -> (r: bool)
        ensures
            r == (*self is String),
    {
        matches!(self, Value::String(..))
    }

    /// Returns `true` if the value is a `Function`.
    pub fn is_function(&self) -> (r: bool)
        ensures
            r == (*self is Function),
    {
        matches!(self, Value::Function(..))
    }

    pub fn as_boolean(&self) -> (r: Option<&bool>)
        ensures
            r is Some <==> *self is Boolean,
            r matches Some(b) ==> *self == Value::Boolean(*b),
    {
        if let Value::Boolean(v) = self {
            Some(v)
        } else {
            None
        }
    }

    pub fn as_number(&self) -> (r: Option<&Number>)
        ensures
            r is Some <==> *self is Number,
            r matches Some(n) ==> *self == Value::Number(*n),
    {
        if let Value::Number(v) = self {
            Some(v)
        } else {
            None
        }
    }

    pub fn as_string(&self) -> (r: Option<&String>)
        ensures
            r is Some <==> *self is String,
            r matches Some(s) ==> *self == Value::String(*s),
    {
        if let Value::String(v) = self {
            Some(v)
        } else {
            None
        }
    }

    pub fn as_function(&self) -> (r: Option<&Function>)
        ensures
            r is Some <==> *self is Function,
            r matches Some(f) ==> *self == Value::Function(*f),
    {
        if let Value::Function(v) = self {
            Some(v)
        } else {
            None
        }
    }
}

impl From<()> for Value {
    fn from(v: ()) -> (r: Value)
        ensures
            r == Value::Nil,
    {
        Value::Nil
    }
}

impl vstd::std_specs::convert::FromSpecImpl<()> for Value {
    open spec fn obeys_from_spec() -> bool {
        true
    }

    open spec fn from_spec(v: ()) -> Value {
        Value::Nil
    }
}

impl From<bool> for Value {
    fn from(v: bool) -> (r: Value)
        ensures
            r == Value::Boolean(v),
    {
        Value::Boolean(v)
    }
}

impl vstd::std_specs::convert::FromSpecImpl<bool> for Value {
    open spec fn obeys_from_spec() -> bool {
        true
    }

    open spec fn from_spec(v: bool) -> Value {
        Value::Boolean(v)
    }
}

impl From<String> for Value {
    fn from(v: String) -> (r: Value)
        ensures
            r == Value::String(v),
    {
        Value::String(v)
    }
}

impl vstd::std_specs::convert::FromSpecImpl<String> for Value {
    open spec fn obeys_from_spec() -> bool {
        true
    }

    open spec fn from_spec(v: String) -> Value {
        Value::String(v)
    }
}

impl From<Number> for Value {
    fn from(v: Number) -> (r: Value)
        ensures
            r == Value::Number(v),
    {
        Value::Number(v)
    }
}

impl vstd::std_specs::convert::FromSpecImpl<Number> for Value {
    open spec fn obeys_from_spec() -> bool {
        true
    }

    open spec fn from_spec(v: Number) -> Value {
        Value::Number(v)
    }
}

impl From<Function> for Value {
    fn from(v: Function) -> (r: Value)
        ensures
            r == Value::Function(v),
    {
        Value::Function(v)
    }
}

impl vstd::std_specs::convert::FromSpecImpl<Function> for Value {
    open spec fn obeys_from_spec() -> bool {
        true
    }

    open spec fn from_spec(v: Function) -> Value {
        Value::Function(v)
    }
}

impl From<i8> for Value {
    fn from(v: i8) -> (r: Value)
        ensures
            r matches Value::Number(x) && x.is_integer(v as int),
    {
        Value::Number(Number::from_i64(v as i64))
    }
}

impl vstd::std_specs::convert::FromSpecImpl<i8> for Value {
    // A number's digits are text, which no spec function builds: `from`
    // states its result in its own `ensures` instead.
    open spec fn obeys_from_spec() -> bool {
        false
    }

    open spec fn from_spec(v: i8) -> Value {
        arbitrary()
    }
}

impl From<u8> for Value {
    fn from(v: u8) -> (r: Value)
        ensures
            r matches Value::Number(x) && x.is_integer(v as int),
    {
        Value::Number(Number::from_u64(v as u64))
    }
}

impl vstd::std_specs::convert::FromSpecImpl<u8> for Value {
    // A number's digits are text, which no spec function builds: `from`
    // states its result in its own `ensures` instead.
    open spec fn obeys_from_spec() -> bool {
        false
    }

    open spec fn from_spec(v: u8) -> Value {
        arbitrary()
    }
}

impl From<i16> for Value {
    fn from(v: i16) -> (r: Value)
        ensures
            r matches Value::Number(x) && x.is_integer(v as int),
    {
        Value::Number(Number::from_i64(v as i64))
    }
}

impl vstd::std_specs::convert::FromSpecImpl<i16> for Value {
    // A number's digits are text, which no spec function builds: `from`
    // states its result in its own `ensures` instead.
    open spec fn obeys_from_spec() -> bool {
        false
    }

    open spec fn from_spec(v: i16) -> Value {
        arbitrary()
    }
}

impl From<u16> for Value {
    fn from(v: u16) -> (r: Value)
        ensures
            r matches Value::Number(x) && x.is_integer(v as int),
    {
        Value::Number(Number::from_u64(v as u64))
    }
}

impl vstd::std_specs::convert::FromSpecImpl<u16> for Value {
    // A number's digits are text, which no spec function builds: `from`
    // states its result in its own `ensures` instead.
    open spec fn obeys_from_spec() -> bool {
        false
    }

    open spec fn from_spec(v: u16) -> Value {
        arbitrary()
    }
}

impl From<i32> for Value {
    fn from(v: i32) -> (r: Value)
        ensures
            r matches Value::Number(x) && x.is_integer(v as int),
    {
        Value::Number(Number::from_i64(v as i64))
    }
}

impl vstd::std_specs::convert::FromSpecImpl<i32> for Value {
    // A number's digits are text, which no spec function builds: `from`
    // states its result in its own `ensures` instead.
    open spec fn obeys_from_spec() -> bool {
        false
    }

    open spec fn from_spec(v: i32) -> Value {
        arbitrary()
    }
}

impl From<u32> for Value {
    fn from(v: u32) -> (r: Value)
        ensures
            r matches Value::Number(x) && x.is_integer(v as int),
    {
        Value::Number(Number::from_u64(v as u64))
    }
}

impl vstd::std_specs::convert::FromSpecImpl<u32> for Value {
    // A number's digits are text, which no spec function builds: `from`
    // states its result in its own `ensures` instead.
    open spec fn obeys_from_spec() -> bool {
        false
    }

    open spec fn from_spec(v: u32) -> Value {
        arbitrary()
    }
}

impl From<i64> for Value {
    fn from(v: i64) -> (r: Value)
        ensures
            r matches Value::Number(x) && x.is_integer(v as int),
    {
        Value::Number(Number::from_i64(v as i64))
    }
}

impl vstd::std_specs::convert::FromSpecImpl<i64> for Value {
    // A number's digits are text, which no spec function builds: `from`
    // states its result in its own `ensures` instead.
    open spec fn obeys_from_spec() -> bool {
        false
    }

    open spec fn from_spec(v: i64) -> Value {
        arbitrary()
    }
}

impl From<u64> for Value {
    fn from(v: u64) -> (r: Value)
        ensures
            r matches Value::Number(x) && x.is_integer(v as int),
    {
        Value::Number(Number::from_u64(v as u64))
    }
}

impl vstd::std_specs::convert::FromSpecImpl<u64> for Value {
    // A number's digits are text, which no spec function builds: `from`
    // states its result in its own `ensures` instead.
    open spec fn obeys_from_spec() -> bool {
        false
    }

    open spec fn from_spec(v: u64) -> Value {
        arbitrary()
    }
}

impl From<isize> for Value {
    fn from(v: isize) -> (r: Value)
        ensures
            r matches Value::Number(x) && x.is_integer(v as int),
    {
        Value::Number(Number::from_i64(v as i64))
    }
}

impl vstd::std_specs::convert::FromSpecImpl<isize> for Value {
    // A number's digits are text, which no spec function builds: `from`
    // states its result in its own `ensures` instead.
    open spec fn obeys_from_spec() -> bool {
        false
    }

    open spec fn from_spec(v: isize) -> Value {
        arbitrary()
    }
}

impl From<usize> for Value {
    fn from(v: usize) -> (r: Value)
        ensures
            r matches Value::Number(x) && x.is_integer(v as int),
    {
        Value::Number(Number::from_u64(v as u64))
    }
}

impl vstd::std_specs::convert::FromSpecImpl<usize> for Value {
    // A number's digits are text, which no spec function builds: `from`
    // states its result in its own `ensures` instead.
    open spec fn obeys_from_spec() -> bool {
        false
    }

    open spec fn from_spec(v: usize) -> Value {
        arbitrary()
    }
}

/// The character of the decimal digit `d`.
pub open spec fn digit_char(d: nat) -> char
    recommends
        d < 10,
{
    (('0' as u32) + d) as char
}

/// The decimal digits of `n`, most significant first, without leading zeros
/// (zero is the single digit `0`).
pub open spec fn digit_chars(n: nat) -> Seq<char>
    decreases n,
{
    if n < 10 {
        seq![digit_char(n)]
    } else {
        digit_chars(n / 10).push(digit_char(n % 10))
    }
}

/// `n` zero characters.
pub open spec fn zeros(n: nat) -> Seq<char> {
    Seq::new(n, |i: int| '0')
}

/// The decimal text of a number: its digits, padded with zeros so that one
/// stands before the point (so zero, which has no digits, reads `0`), the point placed `scale` digits from the right
/// (no point when `scale` is zero), and a minus sign when negative.
pub open spec fn decimal_text(x: Number) -> Seq<char> {
    let d = x.digits@;
    let padded = if d.len() > x.scale { d } else { zeros((x.scale + 1 - d.len()) as nat) + d };
    let body = if x.scale == 0 {
        padded
    } else {
        padded.take(padded.len() - x.scale) + seq!['.'] + padded.skip(padded.len() - x.scale)
    };
    if x.negative {
        seq!['-'] + body
    } else {
        body
    }
}

/// What std's `Debug` formatting of a string gives: the text in double
/// quotes, with quotes, backslashes and control characters escaped.
pub uninterp spec fn debug_quoted(s: Seq<char>) -> Seq<char>;

/// Relies on `<str as Debug>::fmt` (through `format!("{:?}")`); the result
/// depends on the characters alone.
#[verifier::external_body]
fn quoted(s: &str) -> (r: String)
    ensures
        r@ == debug_quoted(s@),
{
    format!("{s:?}")
}

/// The display text of a value: `nil`, `true` or `false`, the decimal text of
/// a number, a string quoted and escaped, or `<function>`.
pub open spec fn display_text(v: Value) -> Seq<char> {
    match v {
        Value::Nil => "nil"@,
        Value::Boolean(b) => if b { "true"@ } else { "false"@ },
        Value::Number(n) => decimal_text(n),
        Value::String(s) => debug_quoted(s@),
        Value::Function(_) => "<function>"@,
    }
}

/// The character of the decimal digit `d`.
fn digit(d: u8) -> (c: char)
    requires
        d < 10,
    ensures
        c == digit_char(d as nat),
{
    match d {
        0 => '0',
        1 => '1',
        2 => '2',
        3 => '3',
        4 => '4',
        5 => '5',
        6 => '6',
        7 => '7',
        8 => '8',
        _ => '9',
    }
}

/// The decimal digits of `m`, most significant first.
fn digit_vec(m: u64) -> (r: Vec<char>)
    ensures
        r@ == digit_chars(m as nat),
{
        let mut n: u64 = m;
        let mut acc: Vec<char> = Vec::new();
        while n >= 10
            invariant
                digit_chars(m as nat) == digit_chars(n as nat) + acc@,
            decreases n,
        {
            let d = n % 10;
            let c = digit(d as u8);
            let ghost before = acc@;
            acc.insert(0, c);
            assert(digit_chars(n as nat) == digit_chars((n / 10) as nat).push(c));
            assert(digit_chars((n / 10) as nat) + acc@ =~= digit_chars(n as nat) + before);
            n = n / 10;
        }
        let ghost before = acc@;
        acc.insert(0, digit(n as u8));
        assert(acc@ =~= digit_chars(n as nat) + before);
        acc
}

impl Number {

    /// The decimal text of this number; see [`decimal_text`].
    pub fn to_text(&self) -> (r: String)
        ensures
            r@ == decimal_text(*self),
    {
        let ghost d = self.digits@;
        let mut padded = crate::table::chars_of(self.digits.as_str());
        let scale = self.scale;
        assert(padded@ =~= zeros(0) + d);
        while padded.len() <= scale
            invariant
                scale == self.scale,
                d.len() <= padded@.len(),
                padded@.len() <= d.len() || padded@.len() <= scale + 1,
                padded@ == zeros((padded@.len() - d.len()) as nat) + d,
            decreases scale + 1 - padded@.len(),
        {
            let ghost before = padded@;
            padded.insert(0, '0');
            assert(padded@ =~= zeros((padded@.len() - d.len()) as nat) + d);
        }
        let ghost p = if d.len() > self.scale { d } else { zeros((self.scale + 1 - d.len()) as nat) + d };
        assert(padded@ =~= p);
        let mut out: Vec<char> = Vec::new();
        if self.negative {
            out.push('-');
        }
        let ghost sign: Seq<char> = if self.negative { seq!['-'] } else { Seq::empty() };
        assert(out@ =~= sign);
        let n = padded.len();
        let point = n - scale;
        let mut i: usize = 0;
        while i < n
            invariant
                n == padded@.len(),
                point == n - scale,
                0 < point <= n,
                i <= n,
                scale == 0 || i <= point ==> out@ == sign + padded@.take(i as int),
                scale > 0 && i > point ==> out@ == sign + padded@.take(point as int) + seq!['.']
                    + padded@.subrange(point as int, i as int),
            decreases n - i,
        {
            if scale > 0 && i == point {
                out.push('.');
            }
            out.push(padded[i]);
            proof {
                if scale == 0 || i + 1 <= point {
                    assert(padded@.take(i + 1) =~= padded@.take(i as int).push(padded@[i as int]));
                } else if i == point {
                    assert(padded@.subrange(point as int, i + 1) =~= seq![padded@[i as int]]);
                } else {
                    assert(padded@.subrange(point as int, i + 1) =~= padded@.subrange(point as int, i as int).push(padded@[i as int]));
                }
            }
            i = i + 1;
        }
        proof {
            if scale == 0 {
                assert(padded@.take(n as int) =~= padded@);
            } else {
                assert(padded@.subrange(point as int, n as int) =~= padded@.skip(point as int));
            }
        }
        crate::parser::text_of(out.as_slice())
    }
}

} // verus!
