//! Typed literals.

use nemo_store::datavalues::{AnyDataValue, ValueDomain};

fn xsd(name: &str) -> String {
    format!("http://www.w3.org/2001/XMLSchema#{name}")
}

fn literal(lexical: &str, name: &str) -> Option<AnyDataValue> {
    AnyDataValue::new_from_typed_literal(lexical, &xsd(name))
}

#[test]
fn integers_are_read_by_value() {
    assert_eq!(literal("+007", "integer"), Some(AnyDataValue::Long(7)));
    assert_eq!(
        literal("-9223372036854775808", "long"),
        Some(AnyDataValue::Long(i64::MIN))
    );
    assert_eq!(
        literal("18446744073709551615", "integer"),
        Some(AnyDataValue::UnsignedLong(u64::MAX))
    );
    assert_eq!(literal("9223372036854775808", "long"), None);
    assert_eq!(literal("2147483648", "int"), None);
    assert_eq!(literal("-1", "unsignedInt"), None);
    assert_eq!(literal("", "integer"), None);
    assert_eq!(literal("-", "integer"), None);
    assert_eq!(literal("1.0", "integer"), None);
}

#[test]
fn integers_beyond_64_bits_keep_their_lexical_form() {
    let huge = "123456789012345678901234567890123456789012345678901234567890";
    assert_eq!(
        literal(huge, "integer"),
        Some(AnyDataValue::Other(huge.to_string(), xsd("integer")))
    );
    assert_eq!(literal(huge, "unsignedLong"), None);
}

#[test]
fn floating_literals_follow_a_grammar() {
    for lexical in ["1", "-1.5", ".5", "5.", "1e10", "1.25E-3", "+0.0"] {
        assert_eq!(
            literal(lexical, "double"),
            Some(AnyDataValue::Double(lexical.to_string())),
            "{lexical}"
        );
    }
    for lexical in ["", ".", "e5", "1e", "1e+", "1.2.3", "0x1", "1 "] {
        assert_eq!(literal(lexical, "float"), None, "{lexical}");
    }
}

#[test]
fn booleans_have_two_forms_each() {
    assert_eq!(literal("1", "boolean"), Some(AnyDataValue::Boolean(true)));
    assert_eq!(
        literal("false", "boolean"),
        Some(AnyDataValue::Boolean(false))
    );
    assert_eq!(literal("True", "boolean"), None);
}

#[test]
fn strings_and_other_datatypes_keep_their_text() {
    assert_eq!(
        literal("text", "string"),
        Some(AnyDataValue::PlainString("text".to_string()))
    );
    assert_eq!(
        literal("2026-01-01", "date"),
        Some(AnyDataValue::Other("2026-01-01".to_string(), xsd("date")))
    );
}

#[test]
fn integers_are_typed_by_their_size() {
    for (number, domain, datatype) in [
        (i64::MIN, ValueDomain::Long, "long"),
        (-2147483649, ValueDomain::Long, "long"),
        (-2147483648, ValueDomain::Int, "int"),
        (0, ValueDomain::NonNegativeInt, "int"),
        (2147483647, ValueDomain::NonNegativeInt, "int"),
        (2147483648, ValueDomain::UnsignedInt, "unsignedInt"),
        (4294967296, ValueDomain::NonNegativeLong, "long"),
    ] {
        let value = AnyDataValue::new_integer_from_i64(number);
        assert_eq!(value.value_domain(), domain);
        assert_eq!(value.lexical_value(), number.to_string());
        assert_eq!(value.datatype_iri(), xsd(datatype));
        assert_eq!(
            AnyDataValue::new_from_typed_literal(&value.lexical_value(), &value.datatype_iri()),
            Some(value)
        );
    }
    let largest = AnyDataValue::new_integer_from_u64(u64::MAX);
    assert_eq!(largest.value_domain(), ValueDomain::UnsignedLong);
    assert_eq!(largest.datatype_iri(), xsd("unsignedLong"));
}
