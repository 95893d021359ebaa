//! Typed literals: which lexical forms and datatypes denote which values.

use vstd::prelude::*;
use vstd::string::*;

use crate::datavalues::{
    integer_datatype, integer_domain, is_literal, lexical_form, literal_datatype, signed_decimal,
    valid_literal, AnyDataValue, ValueView,
};
use crate::text::{
    char_vec, decimal, decimal_value, is_digits, lemma_decimal_round_trip, same_text,
};

verus! {

/// The datatypes whose lexical forms are interpreted.
#[derive(Clone, Copy)]
pub enum Datatype {
    Text,
    Boolean,
    Integer,
    Long,
    Int,
    UnsignedInt,
    UnsignedLong,
    Float,
    Double,
}

/// The IRI of an interpreted datatype.
pub open spec fn datatype_iri(datatype: Datatype) -> Seq<char> {
    match datatype {
        Datatype::Text => "http://www.w3.org/2001/XMLSchema#string"@,
        Datatype::Boolean => "http://www.w3.org/2001/XMLSchema#boolean"@,
        Datatype::Integer => "http://www.w3.org/2001/XMLSchema#integer"@,
        Datatype::Long => "http://www.w3.org/2001/XMLSchema#long"@,
        Datatype::Int => "http://www.w3.org/2001/XMLSchema#int"@,
        Datatype::UnsignedInt => "http://www.w3.org/2001/XMLSchema#unsignedInt"@,
        Datatype::UnsignedLong => "http://www.w3.org/2001/XMLSchema#unsignedLong"@,
        Datatype::Float => "http://www.w3.org/2001/XMLSchema#float"@,
        Datatype::Double => "http://www.w3.org/2001/XMLSchema#double"@,
    }
}

/// The interpreted datatype with the given IRI.
pub open spec fn datatype_of(iri: Seq<char>) -> Option<Datatype> {
    if exists|datatype: Datatype| #[trigger] datatype_iri(datatype) == iri {
        Some(choose|datatype: Datatype| #[trigger] datatype_iri(datatype) == iri)
    } else {
        None
    }
}

/// The length of a datatype's IRI and the first character behind its namespace.
spec fn iri_shape(datatype: Datatype) -> (nat, char) {
    match datatype {
        Datatype::Text => (39, 's'),
        Datatype::Boolean => (40, 'b'),
        Datatype::Integer => (40, 'i'),
        Datatype::Long => (37, 'l'),
        Datatype::Int => (36, 'i'),
        Datatype::UnsignedInt => (44, 'u'),
        Datatype::UnsignedLong => (45, 'u'),
        Datatype::Float => (38, 'f'),
        Datatype::Double => (39, 'd'),
    }
}

proof fn lemma_iri_shape(datatype: Datatype)
    ensures
        datatype_iri(datatype).len() == iri_shape(datatype).0,
        datatype_iri(datatype)[33] == iri_shape(datatype).1,
{
    match datatype {
        Datatype::Text => reveal_strlit("http://www.w3.org/2001/XMLSchema#string"),
        Datatype::Boolean => reveal_strlit("http://www.w3.org/2001/XMLSchema#boolean"),
        Datatype::Integer => reveal_strlit("http://www.w3.org/2001/XMLSchema#integer"),
        Datatype::Long => reveal_strlit("http://www.w3.org/2001/XMLSchema#long"),
        Datatype::Int => reveal_strlit("http://www.w3.org/2001/XMLSchema#int"),
        Datatype::UnsignedInt => reveal_strlit("http://www.w3.org/2001/XMLSchema#unsignedInt"),
        Datatype::UnsignedLong => reveal_strlit("http://www.w3.org/2001/XMLSchema#unsignedLong"),
        Datatype::Float => reveal_strlit("http://www.w3.org/2001/XMLSchema#float"),
        Datatype::Double => reveal_strlit("http://www.w3.org/2001/XMLSchema#double"),
    }
}

/// Different datatypes have different IRIs.
pub proof fn lemma_datatype_iri_injective(left: Datatype, right: Datatype)
    requires
        datatype_iri(left) == datatype_iri(right),
    ensures
        left == right,
{
    lemma_iri_shape(left);
    lemma_iri_shape(right);
}

/// The interpreted datatype of an IRI is the one that has it.
pub proof fn lemma_datatype_of(datatype: Datatype)
    ensures
        datatype_of(datatype_iri(datatype)) == Some(datatype),
{
    let found = choose|other: Datatype| #[trigger]
        datatype_iri(other) == datatype_iri(datatype);
    lemma_datatype_iri_injective(found, datatype);
}

/// The IRI of an interpreted datatype.
pub fn datatype_text(datatype: &Datatype) -> (iri: &'static str)
    ensures
        iri@ == datatype_iri(*datatype),
{
    match datatype {
        Datatype::Text => "http://www.w3.org/2001/XMLSchema#string",
        Datatype::Boolean => "http://www.w3.org/2001/XMLSchema#boolean",
        Datatype::Integer => "http://www.w3.org/2001/XMLSchema#integer",
        Datatype::Long => "http://www.w3.org/2001/XMLSchema#long",
        Datatype::Int => "http://www.w3.org/2001/XMLSchema#int",
        Datatype::UnsignedInt => "http://www.w3.org/2001/XMLSchema#unsignedInt",
        Datatype::UnsignedLong => "http://www.w3.org/2001/XMLSchema#unsignedLong",
        Datatype::Float => "http://www.w3.org/2001/XMLSchema#float",
        Datatype::Double => "http://www.w3.org/2001/XMLSchema#double",
    }
}

/// Looks an IRI up among the interpreted datatypes.
pub fn find_datatype(iri: &str) -> (found: Option<Datatype>)
    ensures
        found == datatype_of(iri@),
{
    let found: Option<Datatype> = if same_text(iri, datatype_text(&Datatype::Text)) {
        Some(Datatype::Text)
    } else if same_text(iri, datatype_text(&Datatype::Boolean)) {
        Some(Datatype::Boolean)
    } else if same_text(iri, datatype_text(&Datatype::Integer)) {
        Some(Datatype::Integer)
    } else if same_text(iri, datatype_text(&Datatype::Long)) {
        Some(Datatype::Long)
    } else if same_text(iri, datatype_text(&Datatype::Int)) {
        Some(Datatype::Int)
    } else if same_text(iri, datatype_text(&Datatype::UnsignedInt)) {
        Some(Datatype::UnsignedInt)
    } else if same_text(iri, datatype_text(&Datatype::UnsignedLong)) {
        Some(Datatype::UnsignedLong)
    } else if same_text(iri, datatype_text(&Datatype::Float)) {
        Some(Datatype::Float)
    } else if same_text(iri, datatype_text(&Datatype::Double)) {
        Some(Datatype::Double)
    } else {
        None
    };
    proof {
        if let Some(datatype) = found {
            lemma_datatype_of(datatype);
        }
    }
    found
}

/// The index behind the sign that may stand at `from`.
pub open spec fn sign_end(text: Seq<char>, from: int) -> int {
    if 0 <= from < text.len() && (text[from] == '+' || text[from] == '-') {
        from + 1
    } else {
        from
    }
}

/// The index of the first character from `from` on that is no digit.
pub open spec fn digits_end(text: Seq<char>, from: int) -> int
    decreases text.len() - from,
{
    if 0 <= from < text.len() && '0' <= text[from] <= '9' {
        digits_end(text, from + 1)
    } else {
        from
    }
}

/// The index behind the fraction that may stand at `from`.
pub open spec fn fraction_end(text: Seq<char>, from: int) -> int {
    if 0 <= from < text.len() && text[from] == '.' {
        digits_end(text, from + 1)
    } else {
        from
    }
}

/// Whether `text` is a decimal number with an optional fraction and exponent.
pub open spec fn is_floating(text: Seq<char>) -> bool {
    let whole_start = sign_end(text, 0);
    let whole_end = digits_end(text, whole_start);
    let mantissa_end = fraction_end(text, whole_end);
    let fraction_digits = if mantissa_end > whole_end {
        mantissa_end - whole_end - 1
    } else {
        0
    };
    &&& whole_end - whole_start + fraction_digits > 0
    &&& mantissa_end == text.len() || ((text[mantissa_end] == 'e' || text[mantissa_end] == 'E') && {
        let exponent_start = sign_end(text, mantissa_end + 1);
        &&& exponent_start < text.len()
        &&& digits_end(text, exponent_start) == text.len()
    })
}

/// The integer that `text` denotes, if it is one: an optional sign and digits.
pub open spec fn integer_value(text: Seq<char>) -> Option<int> {
    let digits = text.skip(sign_end(text, 0));
    if !is_digits(digits) {
        None
    } else if text[0] == '-' {
        Some(-decimal_value(digits))
    } else {
        Some(decimal_value(digits) as int)
    }
}

/// The integers that a datatype admits.
pub open spec fn in_range(datatype: Datatype, number: int) -> bool {
    match datatype {
        Datatype::Integer => i64::MIN <= number <= u64::MAX,
        Datatype::Long => i64::MIN <= number <= i64::MAX,
        Datatype::Int => i32::MIN <= number <= i32::MAX,
        Datatype::UnsignedInt => 0 <= number <= u32::MAX,
        Datatype::UnsignedLong => 0 <= number <= u64::MAX,
        _ => false,
    }
}

/// The value of an integer between `i64::MIN` and `u64::MAX`.
pub open spec fn integer_view(number: int) -> ValueView {
    if number <= i64::MAX {
        ValueView::Long(number as i64)
    } else {
        ValueView::UnsignedLong(number as u64)
    }
}

/// The value that a lexical form denotes in a datatype, if it denotes one.
///
/// An `xsd:integer` beyond 64 bits is kept by its lexical form, as is every
/// literal of a datatype that is not interpreted.
pub open spec fn typed_literal(lexical: Seq<char>, iri: Seq<char>) -> Option<ValueView> {
    match datatype_of(iri) {
        None => Some(ValueView::Other(lexical, iri)),
        Some(Datatype::Text) => Some(ValueView::PlainString(lexical)),
        Some(Datatype::Boolean) => if lexical == "true"@ || lexical == "1"@ {
            Some(ValueView::Boolean(true))
        } else if lexical == "false"@ || lexical == "0"@ {
            Some(ValueView::Boolean(false))
        } else {
            None
        },
        Some(Datatype::Float) => if is_floating(lexical) {
            Some(ValueView::Float(lexical))
        } else {
            None
        },
        Some(Datatype::Double) => if is_floating(lexical) {
            Some(ValueView::Double(lexical))
        } else {
            None
        },
        Some(datatype) => match integer_value(lexical) {
            None => None,
            Some(number) => if in_range(datatype, number) {
                Some(integer_view(number))
            } else if datatype is Integer {
                Some(ValueView::Other(lexical, iri))
            } else {
                None
            },
        },
    }
}

/// The largest magnitude that integers are told apart by.
pub const MAGNITUDE_LIMIT: u128 = 0x1_0000_0000_0000_0000;

/// `number`, or the nearest number within the magnitude limit.
spec fn clamped(number: int) -> int {
    if number > MAGNITUDE_LIMIT {
        MAGNITUDE_LIMIT as int
    } else if number < -(MAGNITUDE_LIMIT as int) {
        -(MAGNITUDE_LIMIT as int)
    } else {
        number
    }
}

/// Reads an optional sign and digits.
fn parse_integer(text: &str) -> (number: Option<i128>)
    ensures
        match integer_value(text@) {
            None => number is None,
            Some(value) => number == Some(clamped(value) as i128),
        },
{
    let chars = char_vec(text);
    let mut index: usize = 0;
    let mut negative = false;
    if chars.len() > 0 && (chars[0] == '+' || chars[0] == '-') {
        negative = chars[0] == '-';
        index = 1;
    }
    let ghost digits = text@.skip(sign_end(text@, 0));
    let ghost start = index as int;
    if index == chars.len() {
        return None;
    }
    let mut magnitude: u128 = 0;
    while index < chars.len()
        invariant
            chars@ == text@,
            start == sign_end(text@, 0),
            0 <= start <= index <= chars@.len(),
            digits == text@.skip(start),
            forall|i: int| 0 <= i < index - start ==> '0' <= #[trigger] digits[i] <= '9',
            magnitude == (if decimal_value(digits.take(index - start)) > MAGNITUDE_LIMIT {
                MAGNITUDE_LIMIT as nat
            } else {
                decimal_value(digits.take(index - start))
            }),
        decreases chars@.len() - index,
    {
        let c = chars[index];
        assert(c == digits[index - start]);
        if c < '0' || c > '9' {
            return None;
        }
        let digit: u128 = (c as u32 - 48) as u128;
        let ghost before = digits.take(index - start);
        let ghost after = digits.take(index + 1 - start);
        assert(after.drop_last() =~= before);
        assert(after.last() == c);
        let next: u128 = 10 * magnitude + digit;
        magnitude = if next > MAGNITUDE_LIMIT {
            MAGNITUDE_LIMIT
        } else {
            next
        };
        index = index + 1;
    }
    assert(digits.take(index - start) =~= digits);
    if negative {
        Some(-(magnitude as i128))
    } else {
        Some(magnitude as i128)
    }
}

fn skip_sign(chars: &Vec<char>, from: usize) -> (end: usize)
    requires
        from <= chars@.len(),
    ensures
        end == sign_end(chars@, from as int),
        from <= end <= chars@.len(),
{
    if from < chars.len() && (chars[from] == '+' || chars[from] == '-') {
        from + 1
    } else {
        from
    }
}

fn skip_digits(chars: &Vec<char>, from: usize) -> (end: usize)
    requires
        from <= chars@.len(),
    ensures
        end == digits_end(chars@, from as int),
        from <= end <= chars@.len(),
{
    let mut end: usize = from;
    while end < chars.len() && '0' <= chars[end] && chars[end] <= '9'
        invariant
            from <= end <= chars@.len(),
            digits_end(chars@, from as int) == digits_end(chars@, end as int),
        decreases chars@.len() - end,
    {
        end = end + 1;
    }
    end
}

/// Whether `text` is a decimal number with an optional fraction and exponent.
fn check_floating(text: &str) -> (floating: bool)
    ensures
        floating == is_floating(text@),
{
    let chars = char_vec(text);
    let whole_start = skip_sign(&chars, 0);
    let whole_end = skip_digits(&chars, whole_start);
    let mut mantissa_end: usize = whole_end;
    let mut fraction_digits: usize = 0;
    if whole_end < chars.len() && chars[whole_end] == '.' {
        mantissa_end = skip_digits(&chars, whole_end + 1);
        fraction_digits = mantissa_end - whole_end - 1;
    }
    if whole_end == whole_start && fraction_digits == 0 {
        return false;
    }
    if mantissa_end == chars.len() {
        return true;
    }
    if chars[mantissa_end] != 'e' && chars[mantissa_end] != 'E' {
        return false;
    }
    let exponent_start = skip_sign(&chars, mantissa_end + 1);
    exponent_start < chars.len() && skip_digits(&chars, exponent_start) == chars.len()
}

/// Whether a datatype admits an integer.
fn check_range(datatype: Datatype, number: i128) -> (inside: bool)
    ensures
        inside == in_range(datatype, number as int),
{
    match datatype {
        Datatype::Integer => i64::MIN as i128 <= number && number <= u64::MAX as i128,
        Datatype::Long => i64::MIN as i128 <= number && number <= i64::MAX as i128,
        Datatype::Int => i32::MIN as i128 <= number && number <= i32::MAX as i128,
        Datatype::UnsignedInt => 0 <= number && number <= u32::MAX as i128,
        Datatype::UnsignedLong => 0 <= number && number <= u64::MAX as i128,
        _ => false,
    }
}

/// The value of an integer between `i64::MIN` and `u64::MAX`.
fn integer_from(number: i128) -> (value: AnyDataValue)
    requires
        i64::MIN <= number <= u64::MAX,
    ensures
        value@ == integer_view(number as int),
{
    if number <= i64::MAX as i128 {
        AnyDataValue::Long(number as i64)
    } else {
        AnyDataValue::UnsignedLong(number as u64)
    }
}

/// Builds the value that a lexical form denotes in a datatype, if any.
pub fn typed_literal_value(lexical: &str, iri: &str) -> (value: Option<AnyDataValue>)
    ensures
        match typed_literal(lexical@, iri@) {
            None => value is None,
            Some(expected) => value matches Some(built) && built@ == expected,
        },
{
    match find_datatype(iri) {
        None => Some(AnyDataValue::Other(lexical.to_owned(), iri.to_owned())),
        Some(Datatype::Text) => Some(AnyDataValue::PlainString(lexical.to_owned())),
        Some(Datatype::Boolean) => if same_text(lexical, "true") || same_text(lexical, "1") {
            Some(AnyDataValue::Boolean(true))
        } else if same_text(lexical, "false") || same_text(lexical, "0") {
            Some(AnyDataValue::Boolean(false))
        } else {
            None
        },
        Some(Datatype::Float) => if check_floating(lexical) {
            Some(AnyDataValue::Float(lexical.to_owned()))
        } else {
            None
        },
        Some(Datatype::Double) => if check_floating(lexical) {
            Some(AnyDataValue::Double(lexical.to_owned()))
        } else {
            None
        },
        Some(datatype) => match parse_integer(lexical) {
            None => None,
            Some(number) => if check_range(datatype, number) {
                Some(integer_from(number))
            } else if matches!(datatype, Datatype::Integer) {
                Some(AnyDataValue::Other(lexical.to_owned(), iri.to_owned()))
            } else {
                None
            },
        },
    }
}

/// The decimal form of an integer denotes the integer.
proof fn lemma_signed_decimal(number: int)
    ensures
        integer_value(signed_decimal(number)) == Some(number),
{
    let text = signed_decimal(number);
    if number < 0 {
        let digits = decimal((-number) as nat);
        lemma_decimal_round_trip((-number) as nat);
        reveal_strlit("-");
        assert(text.skip(1) =~= digits);
        assert(text[0] == '-');
    } else {
        lemma_decimal_round_trip(number as nat);
        assert('0' <= text[0] <= '9');
        assert(text.skip(0) =~= text);
    }
}

/// A valid literal is rebuilt from its lexical form and its datatype.
pub proof fn lemma_literal_rebuilds(value: ValueView)
    requires
        is_literal(value),
        valid_literal(value),
    ensures
        typed_literal(lexical_form(value), literal_datatype(value)) == Some(value),
{
    match value {
        ValueView::Float(_) => lemma_datatype_of(Datatype::Float),
        ValueView::Double(_) => lemma_datatype_of(Datatype::Double),
        ValueView::Boolean(truth) => {
            lemma_datatype_of(Datatype::Boolean);
            reveal_strlit("true");
            reveal_strlit("false");
            reveal_strlit("1");
            reveal_strlit("0");
            assert("true"@.len() != "false"@.len() && "1"@.len() != "false"@.len());
        },
        ValueView::Long(number) => {
            lemma_datatype_of(integer_datatype(integer_domain(number as int)));
            lemma_signed_decimal(number as int);
        },
        ValueView::UnsignedLong(number) => {
            lemma_datatype_of(integer_datatype(integer_domain(number as int)));
            lemma_signed_decimal(number as int);
        },
        _ => {},
    }
}

/// A literal of a datatype that is not interpreted is kept as it is, whatever its
/// lexical form.
pub proof fn lemma_other_datatypes_kept(lexical: Seq<char>, iri: Seq<char>)
    requires
        iri != "http://www.w3.org/2001/XMLSchema#string"@,
        iri != "http://www.w3.org/2001/XMLSchema#boolean"@,
        iri != "http://www.w3.org/2001/XMLSchema#integer"@,
        iri != "http://www.w3.org/2001/XMLSchema#long"@,
        iri != "http://www.w3.org/2001/XMLSchema#int"@,
        iri != "http://www.w3.org/2001/XMLSchema#unsignedInt"@,
        iri != "http://www.w3.org/2001/XMLSchema#unsignedLong"@,
        iri != "http://www.w3.org/2001/XMLSchema#float"@,
        iri != "http://www.w3.org/2001/XMLSchema#double"@,
    ensures
        typed_literal(lexical, iri) == Some(ValueView::Other(lexical, iri)),
{
}

/// Every text is a string literal, and four texts are truth values.
pub proof fn lemma_texts_and_truth_values(lexical: Seq<char>)
    ensures
        typed_literal(lexical, "http://www.w3.org/2001/XMLSchema#string"@) == Some(
            ValueView::PlainString(lexical),
        ),
        typed_literal(lexical, "http://www.w3.org/2001/XMLSchema#boolean"@) == (if lexical
            == seq!['t', 'r', 'u', 'e'] || lexical == seq!['1'] {
            Some(ValueView::Boolean(true))
        } else if lexical == seq!['f', 'a', 'l', 's', 'e'] || lexical == seq!['0'] {
            Some(ValueView::Boolean(false))
        } else {
            None
        }),
{
    lemma_datatype_of(Datatype::Text);
    lemma_datatype_of(Datatype::Boolean);
    reveal_strlit("true");
    reveal_strlit("false");
    reveal_strlit("1");
    reveal_strlit("0");
    assert("true"@ =~= seq!['t', 'r', 'u', 'e']);
    assert("false"@ =~= seq!['f', 'a', 'l', 's', 'e']);
    assert("1"@ =~= seq!['1']);
    assert("0"@ =~= seq!['0']);
}

/// What a text of digits denotes, with a sign in front of it or without one, in each
/// of the integer datatypes: the integer, where the datatype holds it, and otherwise
/// nothing, but for the unbounded datatype, which keeps the text.
pub proof fn lemma_integer_literals(sign: Seq<char>, digits: Seq<char>)
    requires
        sign.len() == 0 || sign == seq!['+'] || sign == seq!['-'],
        digits.len() > 0,
        forall|i: int| 0 <= i < digits.len() ==> '0' <= #[trigger] digits[i] <= '9',
    ensures
        ({
            let text = sign + digits;
            let number = if sign == seq!['-'] {
                -decimal_value(digits)
            } else {
                decimal_value(digits) as int
            };
            let value = if number <= 0x7fff_ffff_ffff_ffff {
                ValueView::Long(number as i64)
            } else {
                ValueView::UnsignedLong(number as u64)
            };
            &&& typed_literal(text, "http://www.w3.org/2001/XMLSchema#integer"@) == (if
                -0x8000_0000_0000_0000 <= number <= 0xffff_ffff_ffff_ffff {
                Some(value)
            } else {
                Some(ValueView::Other(text, "http://www.w3.org/2001/XMLSchema#integer"@))
            })
            &&& typed_literal(text, "http://www.w3.org/2001/XMLSchema#long"@) == (if
                -0x8000_0000_0000_0000 <= number <= 0x7fff_ffff_ffff_ffff {
                Some(value)
            } else {
                None
            })
            &&& typed_literal(text, "http://www.w3.org/2001/XMLSchema#int"@) == (if -0x8000_0000
                <= number <= 0x7fff_ffff {
                Some(value)
            } else {
                None
            })
            &&& typed_literal(text, "http://www.w3.org/2001/XMLSchema#unsignedInt"@) == (if 0
                <= number <= 0xffff_ffff {
                Some(value)
            } else {
                None
            })
            &&& typed_literal(text, "http://www.w3.org/2001/XMLSchema#unsignedLong"@) == (if 0
                <= number <= 0xffff_ffff_ffff_ffff {
                Some(value)
            } else {
                None
            })
        }),
{
    let text = sign + digits;
    lemma_datatype_of(Datatype::Integer);
    lemma_datatype_of(Datatype::Long);
    lemma_datatype_of(Datatype::Int);
    lemma_datatype_of(Datatype::UnsignedInt);
    lemma_datatype_of(Datatype::UnsignedLong);
    if sign.len() == 0 {
        assert('0' <= digits[0] <= '9');
        assert(text[0] == digits[0]);
    } else {
        assert(text[0] == sign[0]);
        assert(seq!['+'][0] != seq!['-'][0]);
    }
    assert(sign_end(text, 0) == sign.len());
    assert(text.skip(sign.len() as int) =~= digits);
}

/// What digits denote: nothing is zero, and a further digit is added to ten times what
/// stands before it.
pub proof fn lemma_digits_denote(digits: Seq<char>, last: char)
    requires
        '0' <= last <= '9',
    ensures
        decimal_value(Seq::empty()) == 0,
        decimal_value(digits.push(last)) == 10 * decimal_value(digits) + (last as nat - 48),
{
    assert(digits.push(last).drop_last() =~= digits);
}

/// Whether a character can stand in a number.
pub open spec fn may_stand_in_numbers(c: char) -> bool {
    ||| '0' <= c <= '9'
    ||| c == '+'
    ||| c == '-'
    ||| c == '.'
    ||| c == 'e'
    ||| c == 'E'
}

proof fn lemma_digits_between(text: Seq<char>, from: int)
    requires
        0 <= from <= text.len(),
    ensures
        from <= digits_end(text, from) <= text.len(),
        forall|i: int|
            from <= i < digits_end(text, from) ==> '0' <= #[trigger] text[i] <= '9',
    decreases text.len() - from,
{
    if from < text.len() && '0' <= text[from] <= '9' {
        lemma_digits_between(text, from + 1);
    }
}

proof fn lemma_digits_until(text: Seq<char>, from: int, to: int)
    requires
        0 <= from <= to <= text.len(),
        forall|i: int| from <= i < to ==> '0' <= #[trigger] text[i] <= '9',
        to == text.len() || !('0' <= text[to] <= '9'),
    ensures
        digits_end(text, from) == to,
    decreases to - from,
{
    if from < to {
        lemma_digits_until(text, from + 1, to);
    }
}

proof fn lemma_floating_characters(text: Seq<char>, place: int)
    requires
        is_floating(text),
        0 <= place < text.len(),
    ensures
        may_stand_in_numbers(text[place]),
{
    let whole_start = sign_end(text, 0);
    let whole_end = digits_end(text, whole_start);
    lemma_digits_between(text, whole_start);
    let mantissa_end = fraction_end(text, whole_end);
    if whole_end < text.len() && text[whole_end] == '.' {
        lemma_digits_between(text, whole_end + 1);
    }
    if mantissa_end < text.len() {
        lemma_digits_between(text, sign_end(text, mantissa_end + 1));
    }
}

/// A text with a character that cannot stand in a number, or with no digit, denotes
/// no number in any datatype.
pub proof fn lemma_other_texts_are_no_numbers(text: Seq<char>)
    requires
        (exists|i: int| 0 <= i < text.len() && !#[trigger] may_stand_in_numbers(text[i])) || (
        forall|i: int| 0 <= i < text.len() ==> !('0' <= #[trigger] text[i] <= '9')),
    ensures
        typed_literal(text, "http://www.w3.org/2001/XMLSchema#integer"@) is None,
        typed_literal(text, "http://www.w3.org/2001/XMLSchema#long"@) is None,
        typed_literal(text, "http://www.w3.org/2001/XMLSchema#int"@) is None,
        typed_literal(text, "http://www.w3.org/2001/XMLSchema#unsignedInt"@) is None,
        typed_literal(text, "http://www.w3.org/2001/XMLSchema#unsignedLong"@) is None,
        typed_literal(text, "http://www.w3.org/2001/XMLSchema#float"@) is None,
        typed_literal(text, "http://www.w3.org/2001/XMLSchema#double"@) is None,
{
    lemma_datatype_of(Datatype::Integer);
    lemma_datatype_of(Datatype::Long);
    lemma_datatype_of(Datatype::Int);
    lemma_datatype_of(Datatype::UnsignedInt);
    lemma_datatype_of(Datatype::UnsignedLong);
    lemma_datatype_of(Datatype::Float);
    lemma_datatype_of(Datatype::Double);
    assert(!is_floating(text)) by {
        if is_floating(text) {
            assert forall|i: int| 0 <= i < text.len() implies #[trigger] may_stand_in_numbers(
                text[i],
            ) by {
                lemma_floating_characters(text, i);
            }
            lemma_has_digit(text);
        }
    }
    assert(integer_value(text) is None) by {
        let start = sign_end(text, 0);
        let digits = text.skip(start);
        if is_digits(digits) {
            assert('0' <= digits[0] <= '9');
            assert(text[start] == digits[0]);
            assert forall|i: int| 0 <= i < text.len() implies #[trigger] may_stand_in_numbers(
                text[i],
            ) by {
                if i >= start {
                    assert(text[i] == digits[i - start]);
                }
            }
        }
    }
}

proof fn lemma_has_digit(text: Seq<char>)
    requires
        is_floating(text),
    ensures
        exists|i: int| 0 <= i < text.len() && '0' <= #[trigger] text[i] <= '9',
{
    let whole_start = sign_end(text, 0);
    let whole_end = digits_end(text, whole_start);
    lemma_digits_between(text, whole_start);
    if whole_end > whole_start {
        assert('0' <= text[whole_start] <= '9');
    } else {
        lemma_digits_between(text, whole_end + 1);
        assert('0' <= text[whole_end + 1] <= '9');
    }
}

/// A number with a fraction and an exponent, each of which may be missing, is kept by
/// its text, where it has a digit in front of the exponent.
#[verifier::rlimit(40)]
pub proof fn lemma_floating_literals(
    sign: Seq<char>,
    whole: Seq<char>,
    fraction: Option<Seq<char>>,
    exponent: Option<(char, Seq<char>, Seq<char>)>,
)
    requires
        sign.len() == 0 || sign == seq!['+'] || sign == seq!['-'],
        forall|i: int| 0 <= i < whole.len() ==> '0' <= #[trigger] whole[i] <= '9',
        fraction matches Some(digits) ==> forall|i: int|
            0 <= i < digits.len() ==> '0' <= #[trigger] digits[i] <= '9',
        exponent matches Some((mark, sign, digits)) ==> (mark == 'e' || mark == 'E') && (sign.len()
            == 0 || sign == seq!['+'] || sign == seq!['-']) && digits.len() > 0 && forall|i: int|
            0 <= i < digits.len() ==> '0' <= #[trigger] digits[i] <= '9',
    ensures
        ({
            let text = sign + whole + fraction_text(fraction) + exponent_text(exponent);
            let digits = whole.len() + (match fraction {
                Some(fraction) => fraction.len(),
                None => 0,
            });
            &&& typed_literal(text, "http://www.w3.org/2001/XMLSchema#float"@) == (if digits > 0 {
                Some(ValueView::Float(text))
            } else {
                None
            })
            &&& typed_literal(text, "http://www.w3.org/2001/XMLSchema#double"@) == (if digits > 0 {
                Some(ValueView::Double(text))
            } else {
                None
            })
        }),
{
    let behind = exponent_text(exponent);
    let middle = fraction_text(fraction);
    let text = sign + whole + middle + behind;
    let whole_start = sign.len() as int;
    let whole_end = whole_start + whole.len();
    let mantissa_end = whole_end + middle.len();
    lemma_datatype_of(Datatype::Float);
    lemma_datatype_of(Datatype::Double);
    assert(forall|i: int| 0 <= i < whole.len() ==> #[trigger] text[whole_start + i] == whole[i]);
    assert(forall|i: int|
        0 <= i < middle.len() ==> #[trigger] text[whole_end + i] == middle[i]);
    assert(forall|i: int|
        0 <= i < behind.len() ==> #[trigger] text[mantissa_end + i] == behind[i]);
    if sign.len() > 0 {
        assert(text[0] == sign[0]);
    } else if whole.len() > 0 {
        assert(text[0] == text[whole_start + 0]);
    } else if middle.len() > 0 {
        assert(text[0] == text[whole_end + 0]);
    } else if behind.len() > 0 {
        assert(text[0] == text[mantissa_end + 0]);
    }
    assert(sign_end(text, 0) == whole_start);
    assert forall|i: int| whole_start <= i < whole_end implies '0' <= #[trigger] text[i] <= '9' by {
        assert(text[whole_start + (i - whole_start)] == whole[i - whole_start]);
    }
    if middle.len() > 0 {
        assert(text[whole_end] == text[whole_end + 0]);
    } else if behind.len() > 0 {
        assert(text[whole_end] == text[mantissa_end + 0]);
    }
    lemma_digits_until(text, whole_start, whole_end);
    if behind.len() > 0 {
        assert(text[mantissa_end] == text[mantissa_end + 0]);
    }
    if middle.len() > 0 {
        assert forall|i: int| whole_end + 1 <= i < mantissa_end implies '0' <= #[trigger] text[i]
            <= '9' by {
            assert(text[whole_end + (i - whole_end)] == middle[i - whole_end]);
            assert(middle[i - whole_end] == fraction->0[i - whole_end - 1]);
        }
        lemma_digits_until(text, whole_end + 1, mantissa_end);
    }
    assert(fraction_end(text, whole_end) == mantissa_end);
    if let Some((mark, inner, digits)) = exponent {
        let start = mantissa_end + 1 + inner.len();
        if inner.len() > 0 {
            assert(text[mantissa_end + 1] == inner[0]);
        } else {
            assert(text[mantissa_end + 1] == digits[0]);
        }
        assert(sign_end(text, mantissa_end + 1) == start);
        assert forall|i: int| start <= i < text.len() implies '0' <= #[trigger] text[i] <= '9' by {
            assert(text[mantissa_end + (i - mantissa_end)] == behind[i - mantissa_end]);
            assert(behind[i - mantissa_end] == digits[i - start]);
        }
        lemma_digits_until(text, start, text.len() as int);
    }
}

/// The text of a fraction.
pub open spec fn fraction_text(fraction: Option<Seq<char>>) -> Seq<char> {
    match fraction {
        Some(digits) => seq!['.'] + digits,
        None => Seq::empty(),
    }
}

/// The text of an exponent, with the letter in front of it and its sign.
pub open spec fn exponent_text(exponent: Option<(char, Seq<char>, Seq<char>)>) -> Seq<char> {
    match exponent {
        Some((mark, sign, digits)) => seq![mark] + sign + digits,
        None => Seq::empty(),
    }
}

} // verus!
