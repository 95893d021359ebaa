//! The values a dictionary can hold.

use vstd::prelude::*;
use vstd::string::*;

use crate::literals::{
    datatype_iri, datatype_text, is_floating, lemma_datatype_of, typed_literal,
    typed_literal_value, Datatype,
};
use crate::text::{decimal, decimal_text, same_text};

verus! {

/// A value of any kind.
#[derive(Debug, PartialEq, Eq)]
pub enum AnyDataValue {
    /// A string without a language tag.
    PlainString(String),
    /// A string and its language tag.
    LanguageTaggedString(String, String),
    /// An IRI.
    Iri(String),
    /// A single-precision number, by its lexical form.
    Float(String),
    /// A double-precision number, by its lexical form.
    Double(String),
    /// An integer that fits in 64 bits with a sign.
    Long(i64),
    /// An integer that only fits in 64 bits without a sign.
    UnsignedLong(u64),
    /// A truth value.
    Boolean(bool),
    /// A named null, which is nothing but its id.
    Null(usize),
    /// A tuple with an optional label.
    Tuple(Option<String>, Vec<AnyDataValue>),
    /// A finite map with an optional label, as pairs of key and value.
    MapValue(Option<String>, Vec<(AnyDataValue, AnyDataValue)>),
    /// A literal of any other datatype: lexical form and datatype IRI.
    Other(String, String),
}

/// What an [AnyDataValue] denotes.
pub enum ValueView {
    PlainString(Seq<char>),
    LanguageTaggedString(Seq<char>, Seq<char>),
    Iri(Seq<char>),
    Float(Seq<char>),
    Double(Seq<char>),
    Long(i64),
    UnsignedLong(u64),
    Boolean(bool),
    Null(usize),
    Tuple(Option<Seq<char>>, Seq<ValueView>),
    MapValue(Option<Seq<char>>, Seq<(ValueView, ValueView)>),
    Other(Seq<char>, Seq<char>),
}

pub open spec fn label_view(label: Option<String>) -> Option<Seq<char>> {
    match label {
        Some(text) => Some(text@),
        None => None,
    }
}

/// What a value that may be absent denotes.
pub open spec fn optional_view(value: Option<AnyDataValue>) -> Option<ValueView> {
    match value {
        Some(present) => Some(present@),
        None => None,
    }
}

/// What a list of values denotes.
pub open spec fn values_view(values: Seq<AnyDataValue>) -> Seq<ValueView> {
    Seq::new(values.len(), |i: int| values[i]@)
}

/// What a list of pairs denotes.
pub open spec fn pairs_view(pairs: Seq<(AnyDataValue, AnyDataValue)>) -> Seq<
    (ValueView, ValueView),
> {
    Seq::new(pairs.len(), |i: int| (pairs[i].0@, pairs[i].1@))
}

/// What `value` denotes.
pub open spec fn value_view(value: AnyDataValue) -> ValueView
    decreases value,
{
    match value {
        AnyDataValue::PlainString(text) => ValueView::PlainString(text@),
        AnyDataValue::LanguageTaggedString(text, tag) => ValueView::LanguageTaggedString(
            text@,
            tag@,
        ),
        AnyDataValue::Iri(text) => ValueView::Iri(text@),
        AnyDataValue::Float(text) => ValueView::Float(text@),
        AnyDataValue::Double(text) => ValueView::Double(text@),
        AnyDataValue::Long(number) => ValueView::Long(number),
        AnyDataValue::UnsignedLong(number) => ValueView::UnsignedLong(number),
        AnyDataValue::Boolean(truth) => ValueView::Boolean(truth),
        AnyDataValue::Null(id) => ValueView::Null(id),
        AnyDataValue::Tuple(label, elements) => ValueView::Tuple(
            label_view(label),
            Seq::new(
                elements@.len(),
                |i: int|
                    if 0 <= i < elements@.len() {
                        value_view(elements@[i])
                    } else {
                        ValueView::Null(0)
                    },
            ),
        ),
        AnyDataValue::MapValue(label, pairs) => ValueView::MapValue(
            label_view(label),
            Seq::new(
                pairs@.len(),
                |i: int|
                    if 0 <= i < pairs@.len() {
                        (value_view(pairs@[i].0), value_view(pairs@[i].1))
                    } else {
                        (ValueView::Null(0), ValueView::Null(0))
                    },
            ),
        ),
        AnyDataValue::Other(lexical, datatype) => ValueView::Other(lexical@, datatype@),
    }
}

impl View for AnyDataValue {
    type V = ValueView;

    open spec fn view(&self) -> ValueView {
        value_view(*self)
    }
}

/// The view of a tuple and of a map, in terms of the views of their parts.
pub proof fn lemma_composite_view(value: AnyDataValue)
    ensures
        value matches AnyDataValue::Tuple(label, elements) ==> value@ == ValueView::Tuple(
            label_view(label),
            values_view(elements@),
        ),
        value matches AnyDataValue::MapValue(label, pairs) ==> value@ == ValueView::MapValue(
            label_view(label),
            pairs_view(pairs@),
        ),
{
    match value {
        AnyDataValue::Tuple(label, elements) => {
            assert(value@->Tuple_1 =~= values_view(elements@));
        },
        AnyDataValue::MapValue(label, pairs) => {
            assert(value@->MapValue_1 =~= pairs_view(pairs@));
        },
        _ => {},
    }
}

fn clone_label(label: &Option<String>) -> (copy: Option<String>)
    ensures
        label_view(copy) == label_view(*label),
{
    match label {
        Some(text) => Some(text.clone()),
        None => None,
    }
}

fn same_label(left: &Option<String>, right: &Option<String>) -> (same: bool)
    ensures
        same == (label_view(*left) == label_view(*right)),
{
    match (left, right) {
        (Some(a), Some(b)) => same_text(a.as_str(), b.as_str()),
        (None, None) => true,
        _ => false,
    }
}

/// The domain that a value belongs to.
#[derive(Clone, Copy, Debug, PartialEq, Eq, Structural)]
pub enum ValueDomain {
    /// Strings without a language tag.
    PlainString,
    /// Strings with a language tag.
    LanguageTaggedString,
    /// IRIs.
    Iri,
    /// Single-precision numbers.
    Float,
    /// Double-precision numbers.
    Double,
    /// Integers from 2^63 to 2^64 - 1.
    UnsignedLong,
    /// Integers from 2^32 to 2^63 - 1.
    NonNegativeLong,
    /// Integers from 2^31 to 2^32 - 1.
    UnsignedInt,
    /// Integers from 0 to 2^31 - 1.
    NonNegativeInt,
    /// Integers from -2^63 to -2^31 - 1.
    Long,
    /// Integers from -2^31 to -1.
    Int,
    /// Truth values.
    Boolean,
    /// Named nulls.
    Null,
    /// Tuples.
    Tuple,
    /// Finite maps.
    MapValue,
    /// Literals of any other datatype.
    Other,
}

/// The domain of an integer.
pub open spec fn integer_domain(number: int) -> ValueDomain {
    if number < i32::MIN {
        ValueDomain::Long
    } else if number < 0 {
        ValueDomain::Int
    } else if number <= i32::MAX {
        ValueDomain::NonNegativeInt
    } else if number <= u32::MAX {
        ValueDomain::UnsignedInt
    } else if number <= i64::MAX {
        ValueDomain::NonNegativeLong
    } else {
        ValueDomain::UnsignedLong
    }
}

/// The domain of a value.
pub open spec fn domain_of(value: ValueView) -> ValueDomain {
    match value {
        ValueView::PlainString(_) => ValueDomain::PlainString,
        ValueView::LanguageTaggedString(_, _) => ValueDomain::LanguageTaggedString,
        ValueView::Iri(_) => ValueDomain::Iri,
        ValueView::Float(_) => ValueDomain::Float,
        ValueView::Double(_) => ValueDomain::Double,
        ValueView::Long(number) => integer_domain(number as int),
        ValueView::UnsignedLong(number) => integer_domain(number as int),
        ValueView::Boolean(_) => ValueDomain::Boolean,
        ValueView::Null(_) => ValueDomain::Null,
        ValueView::Tuple(_, _) => ValueDomain::Tuple,
        ValueView::MapValue(_, _) => ValueDomain::MapValue,
        ValueView::Other(_, _) => ValueDomain::Other,
    }
}

/// Whether a value is given by a lexical form and a datatype: a number, a
/// truth value or a literal of another datatype.
pub open spec fn is_literal(value: ValueView) -> bool {
    match value {
        ValueView::Float(_) => true,
        ValueView::Double(_) => true,
        ValueView::Long(_) => true,
        ValueView::UnsignedLong(_) => true,
        ValueView::Boolean(_) => true,
        ValueView::Other(_, _) => true,
        _ => false,
    }
}

/// The decimal form of an integer.
pub open spec fn signed_decimal(number: int) -> Seq<char> {
    if number < 0 {
        "-"@ + decimal((-number) as nat)
    } else {
        decimal(number as nat)
    }
}

/// The lexical form of a literal.
pub open spec fn lexical_form(value: ValueView) -> Seq<char> {
    match value {
        ValueView::Float(lexical) => lexical,
        ValueView::Double(lexical) => lexical,
        ValueView::Long(number) => signed_decimal(number as int),
        ValueView::UnsignedLong(number) => signed_decimal(number as int),
        ValueView::Boolean(truth) => if truth {
            "true"@
        } else {
            "false"@
        },
        ValueView::Other(lexical, _) => lexical,
        _ => Seq::empty(),
    }
}

/// The datatype of an integer of the given domain.
pub open spec fn integer_datatype(domain: ValueDomain) -> Datatype {
    match domain {
        ValueDomain::UnsignedLong => Datatype::UnsignedLong,
        ValueDomain::UnsignedInt => Datatype::UnsignedInt,
        ValueDomain::NonNegativeInt => Datatype::Int,
        ValueDomain::Int => Datatype::Int,
        _ => Datatype::Long,
    }
}

/// The datatype IRI of a literal.
pub open spec fn literal_datatype(value: ValueView) -> Seq<char> {
    match value {
        ValueView::Float(_) => datatype_iri(Datatype::Float),
        ValueView::Double(_) => datatype_iri(Datatype::Double),
        ValueView::Long(number) => datatype_iri(integer_datatype(integer_domain(number as int))),
        ValueView::UnsignedLong(number) => datatype_iri(
            integer_datatype(integer_domain(number as int)),
        ),
        ValueView::Boolean(_) => datatype_iri(Datatype::Boolean),
        ValueView::Other(_, datatype) => datatype,
        _ => Seq::empty(),
    }
}

/// Whether a literal is the one that its lexical form denotes in its datatype.
pub open spec fn valid_literal(value: ValueView) -> bool {
    match value {
        ValueView::Float(lexical) => is_floating(lexical),
        ValueView::Double(lexical) => is_floating(lexical),
        ValueView::UnsignedLong(number) => number > i64::MAX,
        ValueView::Other(lexical, datatype) => typed_literal(lexical, datatype) == Some(value),
        _ => true,
    }
}

/// Whether no two pairs have the same key.
pub open spec fn distinct_keys(pairs: Seq<(ValueView, ValueView)>) -> bool {
    forall|i: int, j: int|
        0 <= i < j < pairs.len() ==> (#[trigger] pairs[i]).0 != (#[trigger] pairs[j]).0
}

/// Whether every literal in a value is valid and no map has a key twice.
pub open spec fn valid_value(value: ValueView) -> bool
    decreases value,
{
    match value {
        ValueView::Tuple(_, elements) => forall|i: int|
            0 <= i < elements.len() ==> valid_value(#[trigger] elements[i]),
        ValueView::MapValue(_, pairs) => {
            &&& distinct_keys(pairs)
            &&& forall|i: int|
                0 <= i < pairs.len() ==> valid_value((#[trigger] pairs[i]).0) && valid_value(
                    pairs[i].1,
                )
        },
        _ => valid_literal(value),
    }
}

/// `pairs` with `value` under `key`: in the place of the pair that has the key,
/// or else behind all others.
pub open spec fn with_pair(pairs: Seq<(ValueView, ValueView)>, key: ValueView, value: ValueView) -> Seq<
    (ValueView, ValueView),
> {
    if exists|i: int| 0 <= i < pairs.len() && (#[trigger] pairs[i]).0 == key {
        let place = choose|i: int| 0 <= i < pairs.len() && (#[trigger] pairs[i]).0 == key;
        pairs.update(place, (key, value))
    } else {
        pairs.push((key, value))
    }
}

/// The map that holds `pairs`: of two pairs with the same key, the later value
/// counts.
pub open spec fn collapsed(pairs: Seq<(ValueView, ValueView)>) -> Seq<(ValueView, ValueView)>
    decreases pairs.len(),
{
    if pairs.len() == 0 {
        pairs
    } else {
        with_pair(collapsed(pairs.drop_last()), pairs.last().0, pairs.last().1)
    }
}

/// Collapsing leaves no key twice, and keeps pairs whose keys differ as they are.
pub proof fn lemma_collapsed(pairs: Seq<(ValueView, ValueView)>)
    ensures
        distinct_keys(collapsed(pairs)),
        distinct_keys(pairs) ==> collapsed(pairs) == pairs,
    decreases pairs.len(),
{
    if pairs.len() > 0 {
        let front = pairs.drop_last();
        lemma_collapsed(front);
        if distinct_keys(pairs) {
            assert(distinct_keys(front)) by {
                assert forall|i: int, j: int| 0 <= i < j < front.len() implies (
                #[trigger] front[i]).0 != (#[trigger] front[j]).0 by {
                    assert(front[i] == pairs[i]);
                    assert(front[j] == pairs[j]);
                }
            }
            assert forall|i: int| 0 <= i < front.len() implies (#[trigger] front[i]).0
                != pairs.last().0 by {
                assert(front[i] == pairs[i]);
            }
            assert(front.push(pairs.last()) =~= pairs);
        }
    }
}

impl Clone for AnyDataValue {
    fn clone(&self) -> (copy: Self)
        ensures
            copy@ == self@,
    {
        self.duplicate()
    }
}

impl AnyDataValue {
    fn duplicate(&self) -> (copy: Self)
        ensures
            copy@ == self@,
        decreases self,
    {
        let copy = match self {
            AnyDataValue::PlainString(text) => AnyDataValue::PlainString(text.clone()),
            AnyDataValue::LanguageTaggedString(text, tag) => AnyDataValue::LanguageTaggedString(
                text.clone(),
                tag.clone(),
            ),
            AnyDataValue::Iri(text) => AnyDataValue::Iri(text.clone()),
            AnyDataValue::Float(text) => AnyDataValue::Float(text.clone()),
            AnyDataValue::Double(text) => AnyDataValue::Double(text.clone()),
            AnyDataValue::Long(number) => AnyDataValue::Long(*number),
            AnyDataValue::UnsignedLong(number) => AnyDataValue::UnsignedLong(*number),
            AnyDataValue::Boolean(truth) => AnyDataValue::Boolean(*truth),
            AnyDataValue::Null(id) => AnyDataValue::Null(*id),
            AnyDataValue::Tuple(label, elements) => {
                let mut copies: Vec<AnyDataValue> = Vec::new();
                let mut index: usize = 0;
                while index < elements.len()
                    invariant
                        index <= elements@.len(),
                        copies@.len() == index,
                        forall|i: int| 0 <= i < index ==> #[trigger] copies@[i]@ == elements@[i]@,
                        *self is Tuple,
                        self->Tuple_1 == *elements,
                    decreases elements@.len() - index,
                {
                    let element = &elements[index];
                    assert(decreases_to!(*self => self->Tuple_1));
                    assert(decreases_to!(*elements => elements@));
                    assert(decreases_to!(elements@ => elements@[index as int]));
                    copies.push(element.duplicate());
                    index = index + 1;
                }
                assert(values_view(copies@) =~= values_view(elements@));
                AnyDataValue::Tuple(clone_label(label), copies)
            },
            AnyDataValue::MapValue(label, pairs) => {
                let mut copies: Vec<(AnyDataValue, AnyDataValue)> = Vec::new();
                let mut index: usize = 0;
                while index < pairs.len()
                    invariant
                        index <= pairs@.len(),
                        copies@.len() == index,
                        forall|i: int|
                            0 <= i < index ==> (#[trigger] copies@[i]).0@ == pairs@[i].0@
                                && copies@[i].1@ == pairs@[i].1@,
                        *self is MapValue,
                        self->MapValue_1 == *pairs,
                    decreases pairs@.len() - index,
                {
                    let pair = &pairs[index];
                    assert(decreases_to!(*self => self->MapValue_1));
                    assert(decreases_to!(*pairs => pairs@));
                    assert(decreases_to!(pairs@ => pairs@[index as int]));
                    copies.push((pair.0.duplicate(), pair.1.duplicate()));
                    index = index + 1;
                }
                assert(pairs_view(copies@) =~= pairs_view(pairs@));
                AnyDataValue::MapValue(clone_label(label), copies)
            },
            AnyDataValue::Other(lexical, datatype) => AnyDataValue::Other(
                lexical.clone(),
                datatype.clone(),
            ),
        };
        proof {
            lemma_composite_view(*self);
            lemma_composite_view(copy);
        }
        copy
    }
}

impl AnyDataValue {
    /// Whether two values are the same.
    pub fn same(&self, other: &Self) -> (same: bool)
        ensures
            same == (self@ == other@),
        decreases self,
    {
        proof {
            lemma_composite_view(*self);
            lemma_composite_view(*other);
        }
        match (self, other) {
            (AnyDataValue::PlainString(a), AnyDataValue::PlainString(b)) => same_text(a, b),
            (
                AnyDataValue::LanguageTaggedString(a, c),
                AnyDataValue::LanguageTaggedString(b, d),
            ) => same_text(a, b) && same_text(c, d),
            (AnyDataValue::Iri(a), AnyDataValue::Iri(b)) => same_text(a, b),
            (AnyDataValue::Float(a), AnyDataValue::Float(b)) => same_text(a, b),
            (AnyDataValue::Double(a), AnyDataValue::Double(b)) => same_text(a, b),
            (AnyDataValue::Long(a), AnyDataValue::Long(b)) => *a == *b,
            (AnyDataValue::UnsignedLong(a), AnyDataValue::UnsignedLong(b)) => *a == *b,
            (AnyDataValue::Boolean(a), AnyDataValue::Boolean(b)) => *a == *b,
            (AnyDataValue::Null(a), AnyDataValue::Null(b)) => *a == *b,
            (AnyDataValue::Tuple(a, c), AnyDataValue::Tuple(b, d)) => {
                assert(values_view(c@).len() == c@.len() && values_view(d@).len() == d@.len());
                if !same_label(a, b) || c.len() != d.len() {
                    return false;
                }
                let mut index: usize = 0;
                while index < c.len()
                    invariant
                        index <= c@.len() == d@.len(),
                        forall|i: int| 0 <= i < index ==> #[trigger] c@[i]@ == d@[i]@,
                        *self is Tuple,
                        self->Tuple_1 == *c,
                        self@ matches ValueView::Tuple(_, elements) && elements == values_view(c@),
                        other@ matches ValueView::Tuple(_, elements) && elements == values_view(
                            d@,
                        ),
                    decreases c@.len() - index,
                {
                    assert(decreases_to!(*self => self->Tuple_1));
                    assert(decreases_to!(*c => c@));
                    assert(decreases_to!(c@ => c@[index as int]));
                    if !c[index].same(&d[index]) {
                        assert(values_view(c@)[index as int] != values_view(d@)[index as int]);
                        return false;
                    }
                    index = index + 1;
                }
                assert(values_view(c@) =~= values_view(d@));
                true
            },
            (AnyDataValue::MapValue(a, c), AnyDataValue::MapValue(b, d)) => {
                assert(pairs_view(c@).len() == c@.len() && pairs_view(d@).len() == d@.len());
                if !same_label(a, b) || c.len() != d.len() {
                    return false;
                }
                let mut index: usize = 0;
                while index < c.len()
                    invariant
                        index <= c@.len() == d@.len(),
                        forall|i: int|
                            0 <= i < index ==> (#[trigger] c@[i]).0@ == d@[i].0@ && c@[i].1@
                                == d@[i].1@,
                        *self is MapValue,
                        self->MapValue_1 == *c,
                        self@ matches ValueView::MapValue(_, pairs) && pairs == pairs_view(c@),
                        other@ matches ValueView::MapValue(_, pairs) && pairs == pairs_view(d@),
                    decreases c@.len() - index,
                {
                    assert(decreases_to!(*self => self->MapValue_1));
                    assert(decreases_to!(*c => c@));
                    assert(decreases_to!(c@ => c@[index as int]));
                    if !c[index].0.same(&d[index].0) || !c[index].1.same(&d[index].1) {
                        assert(pairs_view(c@)[index as int] != pairs_view(d@)[index as int]);
                        return false;
                    }
                    index = index + 1;
                }
                assert(pairs_view(c@) =~= pairs_view(d@));
                true
            },
            (AnyDataValue::Other(a, c), AnyDataValue::Other(b, d)) => same_text(a, b) && same_text(
                c,
                d,
            ),
            _ => false,
        }
    }

    /// The domain of this value.
    pub fn value_domain(&self) -> (domain: ValueDomain)
        ensures
            domain == domain_of(self@),
    {
        match self {
            AnyDataValue::PlainString(_) => ValueDomain::PlainString,
            AnyDataValue::LanguageTaggedString(_, _) => ValueDomain::LanguageTaggedString,
            AnyDataValue::Iri(_) => ValueDomain::Iri,
            AnyDataValue::Float(_) => ValueDomain::Float,
            AnyDataValue::Double(_) => ValueDomain::Double,
            AnyDataValue::Long(number) => domain_of_integer(*number as i128),
            AnyDataValue::UnsignedLong(number) => domain_of_integer(*number as i128),
            AnyDataValue::Boolean(_) => ValueDomain::Boolean,
            AnyDataValue::Null(_) => ValueDomain::Null,
            AnyDataValue::Tuple(_, _) => ValueDomain::Tuple,
            AnyDataValue::MapValue(_, _) => ValueDomain::MapValue,
            AnyDataValue::Other(_, _) => ValueDomain::Other,
        }
    }

    /// The lexical form of this value, which is a literal.
    pub fn lexical_value(&self) -> (lexical: String)
        requires
            is_literal(self@),
        ensures
            lexical@ == lexical_form(self@),
    {
        match self {
            AnyDataValue::Float(lexical) => lexical.clone(),
            AnyDataValue::Double(lexical) => lexical.clone(),
            AnyDataValue::Long(number) => integer_text(*number as i128),
            AnyDataValue::UnsignedLong(number) => integer_text(*number as i128),
            AnyDataValue::Boolean(truth) => if *truth {
                "true".to_owned()
            } else {
                "false".to_owned()
            },
            AnyDataValue::Other(lexical, _) => lexical.clone(),
            _ => String::new(),
        }
    }

    /// The datatype IRI of this value, which is a literal.
    pub fn datatype_iri(&self) -> (datatype: String)
        requires
            is_literal(self@),
        ensures
            datatype@ == literal_datatype(self@),
    {
        match self {
            AnyDataValue::Float(_) => datatype_text(&Datatype::Float).to_owned(),
            AnyDataValue::Double(_) => datatype_text(&Datatype::Double).to_owned(),
            AnyDataValue::Long(number) => integer_datatype_text(*number as i128).to_owned(),
            AnyDataValue::UnsignedLong(number) => integer_datatype_text(*number as i128).to_owned(),
            AnyDataValue::Boolean(_) => datatype_text(&Datatype::Boolean).to_owned(),
            AnyDataValue::Other(_, datatype) => datatype.clone(),
            _ => String::new(),
        }
    }

    /// A string without a language tag.
    pub fn new_plain_string(text: String) -> (value: Self)
        ensures
            value@ == ValueView::PlainString(text@),
    {
        AnyDataValue::PlainString(text)
    }

    /// A string with a language tag.
    pub fn new_language_tagged_string(text: String, tag: String) -> (value: Self)
        ensures
            value@ == ValueView::LanguageTaggedString(text@, tag@),
    {
        AnyDataValue::LanguageTaggedString(text, tag)
    }

    /// An IRI.
    pub fn new_iri(iri: String) -> (value: Self)
        ensures
            value@ == ValueView::Iri(iri@),
    {
        AnyDataValue::Iri(iri)
    }

    /// A truth value.
    pub fn new_boolean(truth: bool) -> (value: Self)
        ensures
            value@ == ValueView::Boolean(truth),
    {
        AnyDataValue::Boolean(truth)
    }

    /// An integer.
    pub fn new_integer_from_i64(number: i64) -> (value: Self)
        ensures
            value@ == ValueView::Long(number),
    {
        AnyDataValue::Long(number)
    }

    /// An integer, kept with a sign where it fits.
    pub fn new_integer_from_u64(number: u64) -> (value: Self)
        ensures
            value@ == (if number <= i64::MAX {
                ValueView::Long(number as i64)
            } else {
                ValueView::UnsignedLong(number)
            }),
    {
        if number <= i64::MAX as u64 {
            AnyDataValue::Long(number as i64)
        } else {
            AnyDataValue::UnsignedLong(number)
        }
    }

    /// A literal of a datatype that is not interpreted.
    pub fn new_other(lexical: String, datatype: String) -> (value: Self)
        ensures
            value@ == ValueView::Other(lexical@, datatype@),
    {
        AnyDataValue::Other(lexical, datatype)
    }

    /// The value that a lexical form denotes in a datatype, if it denotes one.
    pub fn new_from_typed_literal(lexical: &str, datatype: &str) -> (value: Option<Self>)
        ensures
            match typed_literal(lexical@, datatype@) {
                None => value is None,
                Some(expected) => value matches Some(built) && built@ == expected,
            },
    {
        typed_literal_value(lexical, datatype)
    }

    /// A map with the given pairs. Of two pairs with the same key, the later
    /// value counts.
    pub fn new_map(label: Option<String>, pairs: Vec<(AnyDataValue, AnyDataValue)>) -> (value: Self)
        ensures
            value@ == ValueView::MapValue(label_view(label), collapsed(pairs_view(pairs@))),
    {
        let mut kept: Vec<(AnyDataValue, AnyDataValue)> = Vec::new();
        let mut index: usize = 0;
        assert(pairs_view(kept@) =~= collapsed(pairs_view(pairs@).take(0)));
        while index < pairs.len()
            invariant
                index <= pairs@.len(),
                pairs_view(kept@) == collapsed(pairs_view(pairs@).take(index as int)),
            decreases pairs@.len() - index,
        {
            let key = pairs[index].0.clone();
            let value = pairs[index].1.clone();
            let ghost before = pairs_view(kept@);
            let ghost read = pairs_view(pairs@).take(index as int);
            proof {
                lemma_collapsed(read);
                let now = pairs_view(pairs@).take(index + 1);
                assert(now.drop_last() =~= read);
                assert(now.last() == (key@, value@));
            }
            let mut place: usize = 0;
            while place < kept.len() && !kept[place].0.same(&key)
                invariant
                    place <= kept@.len(),
                    forall|i: int| 0 <= i < place ==> (#[trigger] kept@[i]).0@ != key@,
                decreases kept@.len() - place,
            {
                place = place + 1;
            }
            if place < kept.len() {
                let ghost found = before[place as int];
                let ghost chosen = choose|i: int|
                    0 <= i < before.len() && (#[trigger] before[i]).0 == key@;
                assert(found.0 == key@);
                assert(chosen == place);
                kept.set(place, (key, value));
                assert(pairs_view(kept@) =~= before.update(place as int, (key@, value@)));
            } else {
                assert forall|i: int| 0 <= i < before.len() implies (#[trigger] before[i]).0
                    != key@ by {
                    assert(kept@[i].0@ == before[i].0);
                }
                kept.push((key, value));
                assert(pairs_view(kept@) =~= before.push((key@, value@)));
            }
            index = index + 1;
        }
        assert(pairs_view(pairs@).take(index as int) =~= pairs_view(pairs@));
        let value = AnyDataValue::MapValue(label, kept);
        proof {
            lemma_composite_view(value);
        }
        value
    }

    /// A tuple of the given elements.
    pub fn new_tuple(label: Option<String>, elements: Vec<AnyDataValue>) -> (value: Self)
        ensures
            value@ == ValueView::Tuple(label_view(label), values_view(elements@)),
    {
        let value = AnyDataValue::Tuple(label, elements);
        proof {
            lemma_composite_view(value);
        }
        value
    }

    /// The null with the given id.
    pub fn new_null(id: usize) -> (value: Self)
        ensures
            value@ == ValueView::Null(id),
    {
        AnyDataValue::Null(id)
    }
}

/// The domain of an integer.
fn domain_of_integer(number: i128) -> (domain: ValueDomain)
    ensures
        domain == integer_domain(number as int),
{
    if number < i32::MIN as i128 {
        ValueDomain::Long
    } else if number < 0 {
        ValueDomain::Int
    } else if number <= i32::MAX as i128 {
        ValueDomain::NonNegativeInt
    } else if number <= u32::MAX as i128 {
        ValueDomain::UnsignedInt
    } else if number <= i64::MAX as i128 {
        ValueDomain::NonNegativeLong
    } else {
        ValueDomain::UnsignedLong
    }
}

/// The datatype IRI of an integer.
fn integer_datatype_text(number: i128) -> (text: &'static str)
    ensures
        text@ == datatype_iri(integer_datatype(integer_domain(number as int))),
{
    match domain_of_integer(number) {
        ValueDomain::UnsignedLong => datatype_text(&Datatype::UnsignedLong),
        ValueDomain::UnsignedInt => datatype_text(&Datatype::UnsignedInt),
        ValueDomain::NonNegativeInt => datatype_text(&Datatype::Int),
        ValueDomain::Int => datatype_text(&Datatype::Int),
        _ => datatype_text(&Datatype::Long),
    }
}

/// Renders an integer in decimal.
fn integer_text(number: i128) -> (text: String)
    requires
        -0x1_0000_0000_0000_0000 <= number <= 0x1_0000_0000_0000_0000,
    ensures
        text@ == signed_decimal(number as int),
{
    if number < 0 {
        let mut text = "-".to_owned();
        text.append(decimal_text((-number) as u128).as_str());
        text
    } else {
        decimal_text(number as u128)
    }
}

/// In a map every key has the value that it was last given, and no key is added or
/// lost.
pub proof fn lemma_last_value_counts(pairs: Seq<(ValueView, ValueView)>, key: ValueView)
    ensures
        forall|i: int|
            0 <= i < collapsed(pairs).len() && (#[trigger] collapsed(pairs)[i]).0 == key
                ==> exists|j: int|
                0 <= j < pairs.len() && #[trigger] pairs[j] == collapsed(pairs)[i] && forall|l: int|
                    j < l < pairs.len() ==> (#[trigger] pairs[l]).0 != key,
        forall|j: int|
            0 <= j < pairs.len() && (#[trigger] pairs[j]).0 == key ==> exists|i: int|
                0 <= i < collapsed(pairs).len() && (#[trigger] collapsed(pairs)[i]).0 == key,
    decreases pairs.len(),
{
    if pairs.len() > 0 {
        let front = pairs.drop_last();
        let end = pairs.len() - 1;
        let before = collapsed(front);
        let after = collapsed(pairs);
        let last = pairs.last();
        lemma_last_value_counts(front, key);
        lemma_collapsed(front);
        lemma_collapsed(pairs);
        assert forall|i: int| 0 <= i < after.len() && (#[trigger] after[i]).0 == key implies exists|
            j: int,
        |
            0 <= j < pairs.len() && #[trigger] pairs[j] == after[i] && forall|l: int|
                j < l < pairs.len() ==> (#[trigger] pairs[l]).0 != key by {
            if key == last.0 {
                if exists|m: int| 0 <= m < before.len() && (#[trigger] before[m]).0 == key {
                    let place = choose|m: int| 0 <= m < before.len() && (#[trigger] before[m]).0 == key;
                    assert(after[place].0 == key);
                    assert(i == place);
                }
                assert(pairs[end] == after[i]);
            } else {
                assert(i < before.len() && before[i] == after[i]);
                let j = choose|j: int|
                    0 <= j < front.len() && #[trigger] front[j] == before[i] && forall|l: int|
                        j < l < front.len() ==> (#[trigger] front[l]).0 != key;
                assert(pairs[j] == after[i]);
                assert forall|l: int| j < l < pairs.len() implies (#[trigger] pairs[l]).0
                    != key by {
                    if l < end {
                        assert(front[l] == pairs[l]);
                    }
                }
            }
        }
        assert forall|j: int| 0 <= j < pairs.len() && (#[trigger] pairs[j]).0 == key implies exists|
            i: int,
        |
            0 <= i < after.len() && (#[trigger] after[i]).0 == key by {
            if j < end {
                assert(front[j] == pairs[j]);
                let i = choose|i: int| 0 <= i < before.len() && (#[trigger] before[i]).0 == key;
                assert(after[i].0 == key);
            } else if exists|m: int| 0 <= m < before.len() && (#[trigger] before[m]).0 == key {
                let place = choose|m: int| 0 <= m < before.len() && (#[trigger] before[m]).0 == key;
                assert(after[place].0 == key);
            } else {
                assert(after[before.len() as int].0 == key);
            }
        }
    }
}

/// Which integers belong to which domain, and that an integer has its domain whether
/// it is kept with a sign or without one.
pub proof fn lemma_integer_domains(value: ValueView, number: int)
    requires
        value == ValueView::Long(number as i64) && i64::MIN <= number <= i64::MAX || value
            == ValueView::UnsignedLong(number as u64) && 0 <= number <= u64::MAX,
    ensures
        domain_of(value) == ValueDomain::Long <==> number < -0x8000_0000,
        domain_of(value) == ValueDomain::Int <==> -0x8000_0000 <= number < 0,
        domain_of(value) == ValueDomain::NonNegativeInt <==> 0 <= number < 0x8000_0000,
        domain_of(value) == ValueDomain::UnsignedInt <==> 0x8000_0000 <= number < 0x1_0000_0000,
        domain_of(value) == ValueDomain::NonNegativeLong <==> 0x1_0000_0000 <= number
            < 0x8000_0000_0000_0000,
        domain_of(value) == ValueDomain::UnsignedLong <==> 0x8000_0000_0000_0000 <= number,
{
}

/// The datatype of an integer is the narrowest that holds it, and its lexical form has
/// a sign only where it is negative.
pub proof fn lemma_integer_literal(value: ValueView, number: int)
    requires
        value == ValueView::Long(number as i64) && i64::MIN <= number <= i64::MAX || value
            == ValueView::UnsignedLong(number as u64) && 0 <= number <= u64::MAX,
    ensures
        literal_datatype(value) == (if -0x8000_0000 <= number < 0x8000_0000 {
            "http://www.w3.org/2001/XMLSchema#int"@
        } else if 0 <= number < 0x1_0000_0000 {
            "http://www.w3.org/2001/XMLSchema#unsignedInt"@
        } else if number < 0x8000_0000_0000_0000 {
            "http://www.w3.org/2001/XMLSchema#long"@
        } else {
            "http://www.w3.org/2001/XMLSchema#unsignedLong"@
        }),
        lexical_form(value) == (if number < 0 {
            seq!['-'] + decimal((-number) as nat)
        } else {
            decimal(number as nat)
        }),
{
    reveal_strlit("-");
    assert("-"@ =~= seq!['-']);
}

/// A value that is no integer has the domain that it is made for.
pub proof fn lemma_other_domains(value: ValueView)
    ensures
        domain_of(value) == ValueDomain::PlainString <==> value is PlainString,
        domain_of(value) == ValueDomain::LanguageTaggedString <==> value is LanguageTaggedString,
        domain_of(value) == ValueDomain::Iri <==> value is Iri,
        domain_of(value) == ValueDomain::Float <==> value is Float,
        domain_of(value) == ValueDomain::Double <==> value is Double,
        domain_of(value) == ValueDomain::Boolean <==> value is Boolean,
        domain_of(value) == ValueDomain::Null <==> value is Null,
        domain_of(value) == ValueDomain::Tuple <==> value is Tuple,
        domain_of(value) == ValueDomain::MapValue <==> value is MapValue,
        domain_of(value) == ValueDomain::Other <==> value is Other,
{
}

/// Two values that say the same are made the same way from parts that say the same.
pub proof fn lemma_values_say_everything(left: AnyDataValue, right: AnyDataValue)
    requires
        left@ == right@,
    ensures
        match (left, right) {
            (AnyDataValue::PlainString(a), AnyDataValue::PlainString(b)) => a@ == b@,
            (
                AnyDataValue::LanguageTaggedString(a, c),
                AnyDataValue::LanguageTaggedString(b, d),
            ) => a@ == b@ && c@ == d@,
            (AnyDataValue::Iri(a), AnyDataValue::Iri(b)) => a@ == b@,
            (AnyDataValue::Float(a), AnyDataValue::Float(b)) => a@ == b@,
            (AnyDataValue::Double(a), AnyDataValue::Double(b)) => a@ == b@,
            (AnyDataValue::Long(a), AnyDataValue::Long(b)) => a == b,
            (AnyDataValue::UnsignedLong(a), AnyDataValue::UnsignedLong(b)) => a == b,
            (AnyDataValue::Boolean(a), AnyDataValue::Boolean(b)) => a == b,
            (AnyDataValue::Null(a), AnyDataValue::Null(b)) => a == b,
            (AnyDataValue::Tuple(a, c), AnyDataValue::Tuple(b, d)) => {
                &&& (a is Some) == (b is Some)
                &&& (a is Some && b is Some ==> a->0@ == b->0@)
                &&& c@.len() == d@.len()
                &&& forall|i: int| 0 <= i < c@.len() ==> (#[trigger] c@[i])@ == d@[i]@
            },
            (AnyDataValue::MapValue(a, c), AnyDataValue::MapValue(b, d)) => {
                &&& (a is Some) == (b is Some)
                &&& (a is Some && b is Some ==> a->0@ == b->0@)
                &&& c@.len() == d@.len()
                &&& forall|i: int|
                    0 <= i < c@.len() ==> (#[trigger] c@[i]).0@ == d@[i].0@ && c@[i].1@
                        == d@[i].1@
            },
            (AnyDataValue::Other(a, c), AnyDataValue::Other(b, d)) => a@ == b@ && c@ == d@,
            _ => false,
        },
{
    lemma_composite_view(left);
    lemma_composite_view(right);
    match (left, right) {
        (AnyDataValue::Tuple(_, c), AnyDataValue::Tuple(_, d)) => {
            assert(values_view(c@).len() == values_view(d@).len());
            assert forall|i: int| 0 <= i < c@.len() implies (#[trigger] c@[i])@ == d@[i]@ by {
                assert(values_view(c@)[i] == values_view(d@)[i]);
            }
        },
        (AnyDataValue::MapValue(_, c), AnyDataValue::MapValue(_, d)) => {
            assert(pairs_view(c@).len() == pairs_view(d@).len());
            assert forall|i: int| 0 <= i < c@.len() implies (#[trigger] c@[i]).0@ == d@[i].0@
                && c@[i].1@ == d@[i].1@ by {
                assert(pairs_view(c@)[i] == pairs_view(d@)[i]);
            }
        },
        _ => {},
    }
}

/// Which values are valid: texts, nulls, truth values and signed integers always, other
/// literals where their text denotes them, and composite values where their parts are
/// and no key comes twice.
pub proof fn lemma_valid_values(value: ValueView)
    ensures
        value is PlainString || value is LanguageTaggedString || value is Iri || value is Null
            || value is Boolean || value is Long ==> valid_value(value),
        value matches ValueView::UnsignedLong(number) ==> (valid_value(value) <==> number
            > 0x7fff_ffff_ffff_ffff),
        value matches ValueView::Float(lexical) ==> (valid_value(value) <==> typed_literal(
            lexical,
            "http://www.w3.org/2001/XMLSchema#float"@,
        ) == Some(value)),
        value matches ValueView::Double(lexical) ==> (valid_value(value) <==> typed_literal(
            lexical,
            "http://www.w3.org/2001/XMLSchema#double"@,
        ) == Some(value)),
        value matches ValueView::Other(lexical, datatype) ==> (valid_value(value) <==> typed_literal(
            lexical,
            datatype,
        ) == Some(value)),
        value matches ValueView::Tuple(_, elements) ==> (valid_value(value) <==> forall|i: int|
            0 <= i < elements.len() ==> valid_value(#[trigger] elements[i])),
        value matches ValueView::MapValue(_, pairs) ==> (valid_value(value) <==> {
            &&& forall|i: int, j: int|
                0 <= i < j < pairs.len() ==> (#[trigger] pairs[i]).0 != (#[trigger] pairs[j]).0
            &&& forall|i: int|
                0 <= i < pairs.len() ==> valid_value((#[trigger] pairs[i]).0) && valid_value(
                    pairs[i].1,
                )
        }),
{
    lemma_datatype_of(Datatype::Float);
    lemma_datatype_of(Datatype::Double);
}

} // verus!
