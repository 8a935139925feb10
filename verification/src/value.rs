use vstd::prelude::*;

use crate::strmap::{lemma_insert_absent, lemma_unique_prefix, StrMap};

verus! {

/// The value of a dataset property: either an integer or free text.
#[derive(Debug)]
pub enum PropertyValue {
    Integer(i64),
    String(String),
}

/// Mathematical model of a [`PropertyValue`].
pub enum PropertyValueView {
    Integer(i64),
    String(Seq<char>),
}

impl View for PropertyValue {
    type V = PropertyValueView;

    open spec fn view(&self) -> PropertyValueView {
        match self {
            PropertyValue::Integer(i) => PropertyValueView::Integer(*i),
            PropertyValue::String(s) => PropertyValueView::String(s@),
        }
    }
}

/// The ASCII digit for `d`, which must be below ten.
pub open spec fn digit_char(d: nat) -> char {
    ((48 + d) as u32) as char
}

/// The decimal digits of `n`, most significant first, without leading zeros.
pub open spec fn decimal_digits(n: nat) -> Seq<char>
    decreases n,
{
    if n < 10 {
        seq![digit_char(n)]
    } else {
        decimal_digits(n / 10).push(digit_char(n % 10))
    }
}

/// The decimal rendering of a signed integer: a minus sign for negative
/// numbers, then the digits of its magnitude.
pub open spec fn decimal(i: i64) -> Seq<char> {
    if i < 0 {
        seq!['-'] + decimal_digits((-i) as nat)
    } else {
        decimal_digits(i as nat)
    }
}

/// The text a property value is written as on a command line.
pub open spec fn value_text(v: PropertyValueView) -> Seq<char> {
    match v {
        PropertyValueView::Integer(i) => decimal(i),
        PropertyValueView::String(s) => s,
    }
}

/// The number that the decimal digits `s` stand for.
pub open spec fn digits_value(s: Seq<char>) -> int
    decreases s.len(),
{
    if s.len() == 0 {
        0
    } else {
        digits_value(s.drop_last()) * 10 + (s.last() as int - 48)
    }
}

/// The number that a decimal text stands for: digits, with a leading minus
/// sign for a negative number.
pub open spec fn decimal_value(s: Seq<char>) -> int {
    if s.len() > 0 && s[0] == '-' {
        -digits_value(s.drop_first())
    } else {
        digits_value(s)
    }
}

/// Whether `c` is one of the ASCII digits.
pub open spec fn is_digit(c: char) -> bool {
    '0' <= c && c <= '9'
}

proof fn lemma_digits(n: nat)
    ensures
        decimal_digits(n).len() >= 1,
        digits_value(decimal_digits(n)) == n,
        forall|k: int| 0 <= k < decimal_digits(n).len() ==> is_digit(#[trigger] decimal_digits(n)[k]),
        decimal_digits(n).len() > 1 ==> decimal_digits(n)[0] != '0',
        n < 10 <==> decimal_digits(n).len() == 1,
    decreases n,
{
    let d = digit_char(n % 10);
    assert(d as int - 48 == n % 10);
    if n >= 10 {
        lemma_digits(n / 10);
        let prev = decimal_digits(n / 10);
        let s = decimal_digits(n);
        assert(s == prev.push(d));
        assert(s.drop_last() =~= prev);
        assert(s.last() == d);
        assert(digits_value(s) == digits_value(prev) * 10 + (d as int - 48));
        assert(digits_value(prev) == n / 10);
        assert(n / 10 * 10 + n % 10 == n);
        assert forall|k: int| 0 <= k < s.len() implies is_digit(#[trigger] s[k]) by {
            if k < prev.len() {
                assert(s[k] == prev[k]);
            }
        }
        assert(s[0] == prev[0]);
        if prev.len() == 1 {
            assert(n / 10 >= 1);
            assert(prev[0] == digit_char(n / 10));
        }
    } else {
        assert(decimal_digits(n).drop_last() =~= Seq::<char>::empty());
        assert(decimal_digits(n).last() == d);
        assert(n % 10 == n);
        assert(digits_value(decimal_digits(n)) == digits_value(Seq::<char>::empty()) * 10 + (d as int - 48));
    }
}

/// The text of a value reads back as the value: a string is its own text,
/// and an integer is written as plain decimal digits without leading zeros,
/// preceded by a minus sign exactly when it is negative, which stand for the
/// integer itself.
pub proof fn lemma_value_text_round_trip(text: Seq<char>, i: i64)
    ensures
        value_text(PropertyValueView::String(text)) == text,
        decimal_value(value_text(PropertyValueView::Integer(i))) == i,
        decimal(i).len() > 0 && (decimal(i)[0] == '-' <==> i < 0),
        forall|k: int| (if i < 0 { 1int } else { 0int }) <= k < decimal(i).len() ==> is_digit(#[trigger] decimal(i)[k]),
        decimal(i).len() > (if i < 0 { 2int } else { 1int }) ==> decimal(i)[if i < 0 { 1int } else { 0int }] != '0',
{
    if i < 0 {
        let n = (-i) as nat;
        lemma_digits(n);
        let s = decimal(i);
        assert(s.drop_first() =~= decimal_digits(n));
        assert forall|k: int| 1 <= k < s.len() implies is_digit(#[trigger] s[k]) by {
            assert(s[k] == decimal_digits(n)[k - 1]);
        }
    } else {
        lemma_digits(i as nat);
        assert(is_digit(decimal(i)[0]));
    }
}

fn digit_str(d: u64) -> (r: &'static str)
    requires
        d < 10,
    ensures
        r@ == seq![digit_char(d as nat)],
{
    proof {
        reveal_strlit("0");
        reveal_strlit("1");
        reveal_strlit("2");
        reveal_strlit("3");
        reveal_strlit("4");
        reveal_strlit("5");
        reveal_strlit("6");
        reveal_strlit("7");
        reveal_strlit("8");
        reveal_strlit("9");
    }
    let r = if d == 0 {
        "0"
    } else if d == 1 {
        "1"
    } else if d == 2 {
        "2"
    } else if d == 3 {
        "3"
    } else if d == 4 {
        "4"
    } else if d == 5 {
        "5"
    } else if d == 6 {
        "6"
    } else if d == 7 {
        "7"
    } else if d == 8 {
        "8"
    } else {
        "9"
    };
    assert(r@ =~= seq![digit_char(d as nat)]);
    r
}

fn digits_of(n: u64) -> (r: String)
    ensures
        r@ == decimal_digits(n as nat),
    decreases n,
{
    if n < 10 {
        String::from_str(digit_str(n))
    } else {
        let mut s = digits_of(n / 10);
        s.append(digit_str(n % 10));
        s
    }
}

/// Renders `i` in decimal, as `i64`'s `Display` does.
pub fn decimal_string(i: i64) -> (r: String)
    ensures
        r@ == decimal(i),
{
    if i < 0 {
        let magnitude: u64 = ((-(i + 1)) as u64) + 1;
        let mut s = String::from_str("-");
        proof {
            reveal_strlit("-");
        }
        let digits = digits_of(magnitude);
        s.append(digits.as_str());
        assert(s@ =~= seq!['-'] + decimal_digits((-i) as nat));
        s
    } else {
        digits_of(i as u64)
    }
}

impl PropertyValue {
    /// The text of the value: an integer in decimal, a string as it is.
    pub fn to_string(&self) -> (r: String)
        ensures
            r@ == value_text(self@),
    {
        match self {
            PropertyValue::Integer(number) => decimal_string(*number),
            PropertyValue::String(string) => string.clone(),
        }
    }

    /// A text value holding a copy of `text`.
    pub fn new_string(text: &str) -> (r: PropertyValue)
        ensures
            r@ == PropertyValueView::String(text@),
    {
        PropertyValue::String(text.to_owned())
    }

    /// The integer value read from an unsigned number: the same 64 bits
    /// taken as a signed integer, so numbers above `i64::MAX` wrap around.
    pub fn from_unsigned(number: u64) -> (r: PropertyValue)
        ensures
            r@ == PropertyValueView::Integer(number as i64),
    {
        PropertyValue::Integer(number as i64)
    }

    /// An integer value.
    pub fn new_integer(integer: i64) -> (r: PropertyValue)
        ensures
            r@ == PropertyValueView::Integer(integer),
    {
        PropertyValue::Integer(integer)
    }
}

impl Clone for PropertyValue {
    fn clone(&self) -> (r: Self)
        ensures
            r == *self,
    {
        match self {
            PropertyValue::Integer(number) => PropertyValue::Integer(*number),
            PropertyValue::String(string) => PropertyValue::String(string.clone()),
        }
    }
}

impl vstd::std_specs::cmp::PartialEqSpecImpl for PropertyValue {
    open spec fn obeys_eq_spec() -> bool {
        true
    }

    open spec fn eq_spec(&self, other: &Self) -> bool {
        self@ == other@
    }
}

impl PartialEq for PropertyValue {
    fn eq(&self, other: &Self) -> (r: bool) {
        match self {
            PropertyValue::Integer(a) => match other {
                PropertyValue::Integer(b) => *a == *b,
                PropertyValue::String(_) => false,
            },
            PropertyValue::String(a) => match other {
                PropertyValue::Integer(_) => false,
                PropertyValue::String(b) => *a == *b,
            },
        }
    }
}

impl Eq for PropertyValue {}

impl Clone for StrMap<PropertyValue> {
    fn clone(&self) -> (r: Self)
        ensures
            r.pairs() == self.pairs(),
    {
        let n = self.len();
        let mut r: StrMap<PropertyValue> = StrMap::new();
        let mut i: usize = 0;
        while i < n
            invariant
                n == self.pairs().len(),
                i <= n,
                crate::strmap::unique_keys(self.pairs()),
                r.pairs() == self.pairs().take(i as int),
            decreases n - i,
        {
            let k = self.key_at(i).clone();
            let v = self.value_at(i).clone();
            proof {
                lemma_unique_prefix(self.pairs(), i as int);
                lemma_insert_absent(self.pairs().take(i as int), k@, v);
            }
            r.insert(k, v);
            i = i + 1;
        }
        assert(self.pairs().take(n as int) =~= self.pairs());
        r
    }
}

} // verus!
