//! Dictionary snapshots: capturing, encoding and resolving.

use nemo_store::{
    datavalues::AnyDataValue,
    dictionary::{
        encoding::{decode_value, encode_value, Cursor},
        meta_dv_dict::{AddResult, MetaDvDictionary, NONEXISTING_ID_MARK},
        storage::{DictionarySnapshot, DictionaryStorageError, FORMAT_VERSION, MAGIC},
        DvDict,
    },
};

const XSD_DOUBLE: &str = "http://www.w3.org/2001/XMLSchema#double";
const XSD_FLOAT: &str = "http://www.w3.org/2001/XMLSchema#float";

fn new_double_from_f64(number: f64) -> Option<AnyDataValue> {
    AnyDataValue::new_from_typed_literal(&number.to_string(), XSD_DOUBLE)
}

fn new_float_from_f32(number: f32) -> Option<AnyDataValue> {
    AnyDataValue::new_from_typed_literal(&number.to_string(), XSD_FLOAT)
}

/// Put the values into a real dictionary, snapshot the ids it assigned,
/// round-trip the bytes, and require every value to come back.
///
/// Goes through [MetaDvDictionary] rather than constructing a snapshot
/// directly, because the sparse block-allocated id space is the thing the
/// snapshot has to cope with.
fn assert_round_trip(values: Vec<AnyDataValue>) {
    let mut dictionary = MetaDvDictionary::new();
    let ids: Vec<usize> = values
        .iter()
        .map(|value| dictionary.add_datavalue(value.clone()).value())
        .collect();

    let snapshot = DictionarySnapshot::capture(&dictionary, ids.clone());
    assert_eq!(snapshot.len(), values.len(), "every id should be captured");

    let decoded = DictionarySnapshot::decode(&snapshot.encode()).expect("round trip should decode");

    for (id, value) in ids.iter().zip(&values) {
        assert_eq!(
            decoded.id_to_datavalue(*id).as_ref(),
            Some(value),
            "id {id} should resolve to the value it was added for"
        );
    }
}

/// The ids of IRIs with the given local names.
fn add_iris(dictionary: &mut MetaDvDictionary, names: &[&str]) -> Vec<usize> {
    names
        .iter()
        .map(|name| {
            dictionary
                .add_datavalue(AnyDataValue::new_iri(format!("http://example.org/{name}")))
                .value()
        })
        .collect()
}

#[test]
fn round_trip_iris_and_strings() {
    assert_round_trip(vec![
        AnyDataValue::new_iri("http://example.org/a".to_string()),
        AnyDataValue::new_iri("http://www.w3.org/2002/07/owl#equivalentClass".to_string()),
        AnyDataValue::new_plain_string("a plain string".to_string()),
        AnyDataValue::new_plain_string(String::new()),
        AnyDataValue::new_language_tagged_string("hello".to_string(), "en".to_string()),
    ]);
}

#[test]
fn round_trip_dictionary_backed_scalars() {
    assert_round_trip(vec![
        AnyDataValue::new_boolean(true),
        AnyDataValue::new_boolean(false),
        // Too large for an Int64 storage value, so it does need an id.
        AnyDataValue::new_integer_from_u64(u64::MAX),
    ]);
}

#[test]
fn values_carried_inline_have_no_dictionary_id() {
    // Pins the invariant the snapshot's scope depends on: anything a storage
    // value can carry directly is rejected by the dictionary, so a snapshot
    // covers only the Id32/Id64 columns of a trie. If this ever changes, the
    // snapshot is silently incomplete rather than wrong, which is exactly the
    // kind of thing worth failing a test over.
    let mut dictionary = MetaDvDictionary::new();

    for value in [
        AnyDataValue::new_integer_from_i64(-42),
        AnyDataValue::new_integer_from_i64(0),
        new_double_from_f64(1.5).expect("finite"),
        new_float_from_f32(0.25).expect("finite"),
    ] {
        let id = dictionary.add_datavalue(value.clone()).value();
        assert_eq!(
            dictionary.id_to_datavalue(id),
            None,
            "{value:?} should not be dictionary-backed"
        );

        // Feeding such an id to capture must be harmless, since a caller
        // collecting ids from a table cannot tell them apart in advance.
        assert!(DictionarySnapshot::capture(&dictionary, vec![id]).is_empty());
    }
}

#[test]
fn round_trip_other_typed_literals() {
    assert_round_trip(vec![AnyDataValue::new_other(
        "some lexical form".to_string(),
        "http://example.org/customType".to_string(),
    )]);
}

#[test]
fn round_trip_non_ascii() {
    // The encoding is length-prefixed bytes rather than NUL-terminated, so
    // multi-byte characters and embedded control bytes have to survive.
    assert_round_trip(vec![
        AnyDataValue::new_plain_string("héllo wörld — ✓ 日本語".to_string()),
        AnyDataValue::new_plain_string("with\0an\tembedded\nnul".to_string()),
        AnyDataValue::new_iri("http://example.org/ünïcode".to_string()),
    ]);
}

#[test]
fn round_trip_nulls() {
    // Nulls take ids from a dedicated sub-dictionary, so they exercise a
    // different id block from everything else.
    let mut dictionary = MetaDvDictionary::new();
    let (first, first_id) = dictionary.fresh_null().expect("there are addresses left");
    let (second, second_id) = dictionary.fresh_null().expect("there are addresses left");

    let snapshot = DictionarySnapshot::capture(&dictionary, vec![first_id, second_id]);
    let decoded = DictionarySnapshot::decode(&snapshot.encode()).expect("round trip should decode");

    assert_eq!(decoded.id_to_datavalue(first_id), Some(first));
    assert_eq!(decoded.id_to_datavalue(second_id), Some(second));
}

#[test]
fn captures_only_the_requested_ids() {
    let mut dictionary = MetaDvDictionary::new();
    let kept = dictionary
        .add_datavalue(AnyDataValue::new_iri("http://example.org/kept".to_string()))
        .value();
    let _dropped = dictionary
        .add_datavalue(AnyDataValue::new_iri(
            "http://example.org/dropped".to_string(),
        ))
        .value();

    // Bounding the snapshot by the ids the tables reference is the whole
    // reason it can avoid enumerating a sparse id space.
    let snapshot = DictionarySnapshot::capture(&dictionary, vec![kept]);
    assert_eq!(snapshot.len(), 1);
    assert!(snapshot.id_to_datavalue(kept).is_some());
}

#[test]
fn unresolvable_ids_are_skipped_not_fatal() {
    let dictionary = MetaDvDictionary::new();

    // Gaps in the block-allocated id space and merely-marked values both
    // yield None, and a caller collecting ids from tables cannot tell them
    // apart beforehand.
    let snapshot = DictionarySnapshot::capture(&dictionary, vec![0, 1, usize::MAX / 2]);
    assert!(snapshot.is_empty());
    assert!(snapshot.encode().len() >= MAGIC.len());
}

#[test]
fn duplicate_ids_collapse() {
    let mut dictionary = MetaDvDictionary::new();
    let id = dictionary
        .add_datavalue(AnyDataValue::new_iri("http://example.org/x".to_string()))
        .value();

    let snapshot = DictionarySnapshot::capture(&dictionary, vec![id, id, id]);
    assert_eq!(snapshot.len(), 1);
}

#[test]
fn rejects_foreign_input() {
    assert_eq!(
        DictionarySnapshot::decode(b"not a dictionary").unwrap_err(),
        DictionaryStorageError::NotADictionary
    );
}

#[test]
fn rejects_other_layout_version() {
    let snapshot = DictionarySnapshot::default();
    let mut bytes = snapshot.encode();
    bytes[MAGIC.len()] = bytes[MAGIC.len()].wrapping_add(1);

    assert_eq!(
        DictionarySnapshot::decode(&bytes).unwrap_err(),
        DictionaryStorageError::VersionMismatch {
            found: FORMAT_VERSION + 1,
            expected: FORMAT_VERSION,
        }
    );
}

#[test]
fn rejects_truncated_input() {
    let mut dictionary = MetaDvDictionary::new();
    let ids = add_iris(&mut dictionary, &["a", "b", "c"]);

    let bytes = DictionarySnapshot::capture(&dictionary, ids).encode();

    for length in 0..bytes.len() {
        assert!(
            DictionarySnapshot::decode(&bytes[..length]).is_err(),
            "prefix of length {length} decoded, but should not have"
        );
        assert!(matches!(
            DictionarySnapshot::decode(&bytes[..length]),
            Err(DictionaryStorageError::Truncated { .. })
        ));
    }
}

#[test]
fn rejects_unsorted_index() {
    let mut dictionary = MetaDvDictionary::new();
    let ids = add_iris(&mut dictionary, &["a", "b"]);

    let mut bytes = DictionarySnapshot::capture(&dictionary, ids).encode();

    // Swap the two index ids so the index descends. Binary search would
    // silently return wrong answers, so this has to be rejected outright.
    let index_start = MAGIC.len() + 4 + 4 + 8 + 8;
    for byte in 0..8 {
        bytes.swap(index_start + byte, index_start + 16 + byte);
    }

    assert_eq!(
        DictionarySnapshot::decode(&bytes).unwrap_err(),
        DictionaryStorageError::IndexNotSorted
    );
}

#[test]
fn encoding_is_deterministic() {
    let mut dictionary = MetaDvDictionary::new();
    // IRIs, not integers: integers are carried inline and would produce an
    // empty snapshot, making this pass without testing anything.
    let ids = add_iris(&mut dictionary, &["a", "b", "c"]);

    let snapshot = DictionarySnapshot::capture(&dictionary, ids);
    assert_eq!(snapshot.encode(), snapshot.encode());

    // Required for use as a content-addressed cache entry.
    let decoded = DictionarySnapshot::decode(&snapshot.encode()).expect("round trip should decode");
    assert_eq!(decoded.encode(), snapshot.encode());
}

#[test]
fn capture_order_does_not_affect_the_encoding() {
    let mut dictionary = MetaDvDictionary::new();
    let ids = add_iris(&mut dictionary, &["a", "b", "c", "d"]);

    let forward = DictionarySnapshot::capture(&dictionary, ids.clone());
    let reversed = DictionarySnapshot::capture(&dictionary, ids.iter().rev().copied().collect());

    assert_eq!(forward.encode(), reversed.encode());
}

#[test]
fn snapshot_is_reachable_from_another_crate() {
    assert_eq!(MAGIC.len(), 8, "magic is a fixed-width 8-byte header");
    assert!(FORMAT_VERSION >= 1, "layout version starts at 1");
}

#[test]
fn capture_encode_and_resolve_across_the_crate_boundary() {
    let mut dictionary = MetaDvDictionary::new();
    let iri = AnyDataValue::new_iri("http://example.org/thing".to_string());
    let id = dictionary.add_datavalue(iri.clone()).value();

    let bytes = DictionarySnapshot::capture(&dictionary, vec![id]).encode();

    // The point of the whole exercise: resolving an id with no dictionary in
    // scope, only the bytes.
    let decoded = DictionarySnapshot::decode(&bytes).expect("snapshot should decode");
    assert_eq!(decoded.id_to_datavalue(id), Some(iri));
}

#[test]
fn decode_rejects_foreign_bytes() {
    let error = DictionarySnapshot::decode(b"definitely not a dictionary").unwrap_err();

    assert_eq!(error, DictionaryStorageError::NotADictionary);
    assert!(!error.message().is_empty(), "errors are reportable");
}

#[test]
fn empty_input_is_rejected_rather_than_decoded_as_an_empty_snapshot() {
    // A zero-length file is what a crashed writer leaves behind. Decoding it as
    // a valid empty snapshot would turn a partial write into ids that silently
    // resolve to nothing.
    assert!(matches!(
        DictionarySnapshot::decode(&[]).unwrap_err(),
        DictionaryStorageError::Truncated { .. }
    ));
}

/// The bytes of a snapshot with one entry, whose value has the given encoding.
fn snapshot_of(value: &[u8], id: u64, offset: u64) -> Vec<u8> {
    let mut bytes = MAGIC.to_vec();
    bytes.extend_from_slice(&FORMAT_VERSION.to_le_bytes());
    bytes.extend_from_slice(&0u32.to_le_bytes());
    bytes.extend_from_slice(&1u64.to_le_bytes());
    bytes.extend_from_slice(&(value.len() as u64).to_le_bytes());
    bytes.extend_from_slice(&id.to_le_bytes());
    bytes.extend_from_slice(&offset.to_le_bytes());
    bytes.extend_from_slice(value);
    bytes
}

fn encoded_string(text: &[u8]) -> Vec<u8> {
    let mut bytes = (text.len() as u64).to_le_bytes().to_vec();
    bytes.extend_from_slice(text);
    bytes
}

#[test]
fn a_snapshot_is_a_header_an_index_and_values() {
    let mut dictionary = MetaDvDictionary::new();
    let id = dictionary
        .add_datavalue(AnyDataValue::new_plain_string("é".to_string()))
        .value();
    let mut value = vec![1u8];
    value.extend(encoded_string("é".as_bytes()));
    assert_eq!(
        DictionarySnapshot::capture(&dictionary, vec![id]).encode(),
        snapshot_of(&value, id as u64, 0)
    );
}

#[test]
fn unknown_tags_are_rejected() {
    let error = DictionarySnapshot::decode(&snapshot_of(&[9], 5, 0)).unwrap_err();
    assert_eq!(error, DictionaryStorageError::UnknownValueTag(9));
    assert_eq!(error.message(), "unknown datavalue tag 9");
}

#[test]
fn strings_that_are_not_utf8_are_rejected() {
    let mut value = vec![2u8];
    value.extend(encoded_string(&[0xff, 0xfe]));
    let error = DictionarySnapshot::decode(&snapshot_of(&value, 5, 0)).unwrap_err();
    assert_eq!(error, DictionaryStorageError::InvalidUtf8 { offset: 1 });
    assert_eq!(
        error.message(),
        "string field at offset 1 is not valid UTF-8"
    );
}

#[test]
fn literals_that_denote_nothing_are_rejected() {
    let mut value = vec![0u8];
    value.extend(encoded_string(b"one \"and\" a half"));
    value.extend(encoded_string(XSD_DOUBLE.as_bytes()));
    let error = DictionarySnapshot::decode(&snapshot_of(&value, 5, 0)).unwrap_err();
    assert_eq!(
        error,
        DictionaryStorageError::MalformedLiteral {
            lexical: "one \"and\" a half".to_string(),
            datatype: XSD_DOUBLE.to_string(),
        }
    );
    assert_eq!(
        error.message(),
        format!("cannot rebuild literal \"one \\\"and\\\" a half\" of type \"{XSD_DOUBLE}\"")
    );
}

#[test]
fn offsets_beyond_the_values_are_rejected() {
    let error = DictionarySnapshot::decode(&snapshot_of(&[2], 5, 7)).unwrap_err();
    assert_eq!(
        error,
        DictionaryStorageError::Truncated {
            offset: 7,
            needed: 1
        }
    );
    assert_eq!(
        error.message(),
        "dictionary snapshot ends prematurely: needed 1 more byte(s) at offset 7"
    );
}

#[test]
fn huge_counts_are_rejected_rather_than_allocated() {
    let mut value = vec![5u8, 0];
    value.extend_from_slice(&u64::MAX.to_le_bytes());
    assert_eq!(
        DictionarySnapshot::decode(&snapshot_of(&value, 5, 0)).unwrap_err(),
        DictionaryStorageError::Truncated {
            offset: 10,
            needed: 1
        }
    );

    let mut bytes = snapshot_of(&[2], 5, 0);
    bytes[16..24].copy_from_slice(&u64::MAX.to_le_bytes());
    assert!(matches!(
        DictionarySnapshot::decode(&bytes),
        Err(DictionaryStorageError::Truncated { .. })
    ));
}

#[test]
fn messages_name_what_went_wrong() {
    assert_eq!(
        DictionaryStorageError::NotADictionary.message(),
        "input is not an encoded dictionary snapshot"
    );
    assert_eq!(
        DictionaryStorageError::VersionMismatch {
            found: 12,
            expected: 1
        }
        .message(),
        "dictionary snapshot has layout version 12, this build reads 1"
    );
    assert_eq!(
        DictionaryStorageError::ValueOutOfRange(u64::MAX).message(),
        "encoded value 18446744073709551615 does not fit in a pointer on this platform"
    );
    assert_eq!(
        DictionaryStorageError::IndexNotSorted.message(),
        "dictionary snapshot index is not sorted by id"
    );
}

#[test]
fn round_trip_tuples_and_maps() {
    let tuple = AnyDataValue::new_tuple(
        Some("http://example.org/point".to_string()),
        vec![
            AnyDataValue::new_integer_from_i64(-7),
            AnyDataValue::new_integer_from_i64(3_000_000_000),
            new_double_from_f64(-2.5e-3).expect("finite"),
            AnyDataValue::new_tuple(None, Vec::new()),
        ],
    );
    let map = AnyDataValue::new_map(
        None,
        vec![
            (
                AnyDataValue::new_plain_string("key".to_string()),
                tuple.clone(),
            ),
            (
                AnyDataValue::new_iri("http://example.org/k".to_string()),
                AnyDataValue::new_boolean(true),
            ),
        ],
    );
    assert_round_trip(vec![tuple, map]);
}

#[test]
fn the_label_of_a_map_comes_back() {
    let pairs = vec![(
        AnyDataValue::new_boolean(true),
        AnyDataValue::new_boolean(false),
    )];
    let label = Some("http://example.org/label".to_string());
    for labelled in [
        AnyDataValue::new_map(label.clone(), pairs.clone()),
        AnyDataValue::new_map(label.clone(), Vec::new()),
        AnyDataValue::new_map(None, pairs),
    ] {
        let mut dictionary = MetaDvDictionary::new();
        let id = dictionary.add_datavalue(labelled.clone()).value();
        let bytes = DictionarySnapshot::capture(&dictionary, vec![id]).encode();
        let decoded = DictionarySnapshot::decode(&bytes).expect("round trip should decode");
        assert_eq!(decoded.id_to_datavalue(id), Some(labelled));
        assert_eq!(decoded.encode(), bytes);
    }
}

#[test]
fn keys_that_differ_only_in_a_label_stay_apart() {
    let map = AnyDataValue::new_map(
        None,
        vec![
            (
                AnyDataValue::new_map(Some("f".to_string()), Vec::new()),
                AnyDataValue::new_boolean(true),
            ),
            (
                AnyDataValue::new_map(None, Vec::new()),
                AnyDataValue::new_boolean(false),
            ),
        ],
    );
    let mut bytes = Vec::new();
    encode_value(&map, &mut bytes);
    let mut reader = Cursor::new(&bytes);
    assert_eq!(decode_value(&mut reader).expect("this is a value"), map);
    assert_eq!(reader.offset, bytes.len());
}

#[test]
fn labels_stand_behind_a_tag_of_their_own() {
    let mut bytes = Vec::new();
    encode_value(
        &AnyDataValue::new_map(Some("f".to_string()), Vec::new()),
        &mut bytes,
    );
    assert_eq!(
        bytes,
        [8, 1, 0, 0, 0, 0, 0, 0, 0, b'f', 0, 0, 0, 0, 0, 0, 0, 0]
    );
    let mut bytes = Vec::new();
    encode_value(&AnyDataValue::new_map(None, Vec::new()), &mut bytes);
    assert_eq!(bytes, [6, 0, 0, 0, 0, 0, 0, 0, 0]);
}

#[test]
fn a_cursor_stays_where_input_is_too_short() {
    let bytes = [1, 2, 3, 4, 5];
    let mut cursor = Cursor::new(&bytes);
    assert_eq!(cursor.take(2), Ok(&bytes[..2]));
    for count in [4, usize::MAX] {
        assert_eq!(
            cursor.take(count),
            Err(DictionaryStorageError::Truncated {
                offset: 2,
                needed: count
            })
        );
        assert_eq!(cursor.offset, 2);
    }
    assert_eq!(cursor.take(3), Ok(&bytes[2..]));
    assert_eq!(cursor.offset, 5);
}

#[test]
fn later_pairs_of_a_map_replace_earlier_ones() {
    let key = AnyDataValue::new_boolean(true);
    let other = AnyDataValue::new_boolean(false);
    let map = AnyDataValue::new_map(
        None,
        vec![
            (key.clone(), AnyDataValue::new_integer_from_i64(1)),
            (other.clone(), AnyDataValue::new_integer_from_i64(2)),
            (key.clone(), AnyDataValue::new_integer_from_i64(3)),
        ],
    );
    assert_eq!(
        map,
        AnyDataValue::MapValue(
            None,
            vec![
                (key, AnyDataValue::new_integer_from_i64(3)),
                (other, AnyDataValue::new_integer_from_i64(2)),
            ]
        )
    );
}

#[test]
fn snapshots_list_their_ids_in_ascending_order() {
    let mut dictionary = MetaDvDictionary::new();
    let ids = add_iris(&mut dictionary, &["a", "b", "c"]);
    let snapshot =
        DictionarySnapshot::capture(&dictionary, vec![ids[2], ids[0], ids[1], ids[0], 17]);
    let listed: Vec<usize> = snapshot.iter().iter().map(|(id, _)| *id).collect();
    let mut expected = ids.clone();
    expected.sort_unstable();
    assert_eq!(listed, expected);
    assert_eq!(snapshot.clone().encode(), snapshot.encode());
    assert_eq!(snapshot.id_to_datavalue(usize::MAX), None);
}

#[test]
fn dictionaries_know_what_they_have_seen() {
    let mut dictionary = MetaDvDictionary::new();
    let iri = AnyDataValue::new_iri("http://example.org/a".to_string());
    let text = AnyDataValue::new_plain_string("http://example.org/a".to_string());
    let first = dictionary.add_datavalue(iri.clone());
    assert!(matches!(first, AddResult::Fresh(_)));
    assert_eq!(
        dictionary.add_datavalue(iri.clone()),
        AddResult::Known(first.value())
    );
    let second = dictionary.add_datavalue(text);
    assert!(matches!(second, AddResult::Fresh(_)));
    // Each kind of value has blocks of its own.
    assert!(first.value().abs_diff(second.value()) >= 1 << 24);
    assert_eq!(dictionary.id_to_datavalue(first.value()), Some(iri));
    assert_eq!(dictionary.id_to_datavalue(first.value() + 1), None);
    assert_eq!(
        dictionary.add_datavalue(AnyDataValue::new_null(77)).value(),
        NONEXISTING_ID_MARK
    );
}

#[test]
fn a_failed_reading_ends_behind_the_last_whole_part() {
    for (bytes, end) in [
        // Nothing at all, and an unknown tag.
        (vec![], 0),
        (vec![9, 1, 1, 1], 1),
        // A string without a length, without its text, and with a text that is none.
        (vec![1, 1, 0], 1),
        (vec![1, 2, 0, 0, 0, 0, 0, 0, 0, b'a'], 9),
        (vec![1, 1, 0, 0, 0, 0, 0, 0, 0, 0xff], 10),
        // A tuple whose second element is cut off.
        (
            vec![5, 0, 2, 0, 0, 0, 0, 0, 0, 0, 4, 7, 0, 0, 0, 0, 0, 0, 0, 4, 7],
            20,
        ),
        // A map whose value is cut off.
        (
            vec![6, 1, 0, 0, 0, 0, 0, 0, 0, 4, 7, 0, 0, 0, 0, 0, 0, 0],
            18,
        ),
    ] {
        let mut reader = Cursor::new(&bytes);
        assert!(decode_value(&mut reader).is_err());
        assert_eq!(reader.offset, end, "after reading {bytes:?}");
    }
}

#[test]
fn errors_can_be_kept() {
    let error = DictionarySnapshot::decode(b"not a dictionary").unwrap_err();
    assert_eq!(error.clone(), error);
}
