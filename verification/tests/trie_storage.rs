//! Encoding tables.

use nemo_store::columnar::{ColumnBuilderRle, ColumnEnum, Double, Float, StorageValueT};
use nemo_store::tabular::trie::{
    storage::{
        decode_column, encode_column, Reader, TrieStorageError, Writer, FORMAT_VERSION, MAGIC,
    },
    IntervalColumn, IntervalColumnT, Trie, NO_INTERVAL,
};

fn float(number: f32) -> StorageValueT {
    StorageValueT::Float(Float {
        bits: number.to_bits(),
    })
}

fn double(number: f64) -> StorageValueT {
    StorageValueT::Double(Double {
        bits: number.to_bits(),
    })
}

/// The storage type of a value, and where the value stands among its like.
fn order(value: &StorageValueT) -> (usize, i128) {
    match value {
        StorageValueT::Id32(id) => (0, *id as i128),
        StorageValueT::Id64(id) => (1, *id as i128),
        StorageValueT::Int64(number) => (2, *number as i128),
        StorageValueT::Float(number) => (3, number.bits as i128),
        StorageValueT::Double(number) => (4, number.bits as i128),
    }
}

/// The columns of a layer while it is being filled: values, starts of intervals
/// and lookups, for each storage type.
#[derive(Default)]
struct Draft {
    data: Vec<StorageValueT>,
    starts: Vec<usize>,
    lookups: [Vec<usize>; 5],
}

/// Runs of four or more values are worth a run-length column.
fn column<T: nemo_store::columnar::RunLengthEncodable>(values: Vec<T>) -> ColumnEnum<T> {
    if values.len() >= 4 {
        ColumnEnum::rle_from(values)
    } else {
        ColumnEnum::ColumnVector(values)
    }
}

fn typed<T: nemo_store::columnar::RunLengthEncodable>(
    draft: &Draft,
    pick: fn(&StorageValueT) -> T,
) -> IntervalColumn<T> {
    let lookup = |kind: usize| column(draft.lookups[kind].clone());
    IntervalColumn {
        data: column(draft.data.iter().map(pick).collect()),
        interval_starts: column(draft.starts.clone()),
        lookups: [lookup(0), lookup(1), lookup(2), lookup(3), lookup(4)],
    }
}

fn layer(drafts: &[Draft; 5]) -> IntervalColumnT {
    IntervalColumnT {
        id32: typed(&drafts[0], |value| match value {
            StorageValueT::Id32(id) => *id,
            _ => unreachable!(),
        }),
        id64: typed(&drafts[1], |value| match value {
            StorageValueT::Id64(id) => *id,
            _ => unreachable!(),
        }),
        int64: typed(&drafts[2], |value| match value {
            StorageValueT::Int64(number) => *number,
            _ => unreachable!(),
        }),
        float: typed(&drafts[3], |value| match value {
            StorageValueT::Float(number) => *number,
            _ => unreachable!(),
        }),
        double: typed(&drafts[4], |value| match value {
            StorageValueT::Double(number) => *number,
            _ => unreachable!(),
        }),
    }
}

/// Build the trie that holds the given rows.
fn from_rows(mut rows: Vec<Vec<StorageValueT>>) -> Trie {
    rows.sort_by_key(|row| row.iter().map(order).collect::<Vec<_>>());
    rows.dedup();

    let arity = rows.first().map_or(0, Vec::len);
    let mut layers = Vec::new();
    // Prefixes of the layer above, in order.
    let mut parents: Vec<Vec<StorageValueT>> = vec![Vec::new()];

    for depth in 0..arity {
        let mut drafts: [Draft; 5] = Default::default();
        let mut nodes: Vec<Vec<StorageValueT>> = Vec::new();

        for parent in &parents {
            let mut children: Vec<Vec<StorageValueT>> = rows
                .iter()
                .filter(|row| row.starts_with(parent))
                .map(|row| row[..=depth].to_vec())
                .collect();
            children.dedup();

            for (kind, draft) in drafts.iter_mut().enumerate() {
                let own: Vec<StorageValueT> = children
                    .iter()
                    .map(|child| child[depth])
                    .filter(|value| order(value).0 == kind)
                    .collect();
                if let Some(above) = parent.last() {
                    let interval = if own.is_empty() {
                        NO_INTERVAL
                    } else {
                        draft.starts.len()
                    };
                    draft.lookups[order(above).0].push(interval);
                }
                if !own.is_empty() {
                    draft.starts.push(draft.data.len());
                    draft.data.extend(own);
                }
            }
            nodes.extend(children);
        }

        layers.push(layer(&drafts));
        parents = nodes;
    }

    Trie::new(layers, arity == 0 && !rows.is_empty())
}

/// Encode, decode, and require the rows to survive unchanged.
///
/// Rows rather than struct equality on purpose: what has to be preserved is
/// the table, not the particular run-length split the encoder happened to
/// produce.
fn assert_round_trip(rows: Vec<Vec<StorageValueT>>) {
    let original = from_rows(rows.clone());
    let decoded = Trie::decode(&original.encode()).expect("round trip should decode");

    assert_eq!(decoded.arity(), original.arity());
    assert_eq!(decoded.num_rows(), original.num_rows());
    assert_eq!(decoded.rows(), original.rows());

    let mut expected = rows;
    expected.sort_by_key(|row| row.iter().map(order).collect::<Vec<_>>());
    assert_eq!(decoded.rows(), expected);
}

#[test]
fn round_trip_ids() {
    assert_round_trip(vec![
        vec![StorageValueT::Id32(1), StorageValueT::Id32(2)],
        vec![StorageValueT::Id32(1), StorageValueT::Id32(3)],
        vec![StorageValueT::Id32(4), StorageValueT::Id32(5)],
    ]);
}

#[test]
fn round_trip_mixed_storage_types() {
    // Exercises every typed sub-column, which is where a fixed ordering
    // mistake between encoder and decoder would show up.
    assert_round_trip(vec![
        vec![StorageValueT::Id32(1), StorageValueT::Int64(-7)],
        vec![StorageValueT::Id64(1 << 40), StorageValueT::Id32(2)],
        vec![float(1.5), double(-2.25)],
        vec![double(1e100), float(0.0)],
    ]);
}

#[test]
fn round_trip_run_length_friendly() {
    // A long ascending run is what pushes a column into the run-length
    // variant, so this covers the re-encoding path.
    assert_round_trip(
        (0..512)
            .map(|index| vec![StorageValueT::Id32(index), StorageValueT::Id32(index * 2)])
            .collect(),
    );
}

#[test]
fn round_trip_single_column() {
    assert_round_trip((0..16).map(|i| vec![StorageValueT::Id32(i)]).collect());
}

#[test]
fn storage_rejects_foreign_input() {
    // Compares the error rather than the whole Result: Trie has no
    // PartialEq, and adding one just for a test would be the wrong tail
    // wagging the dog.
    assert_eq!(
        error_of(Trie::decode(b"not a trie at all")),
        TrieStorageError::NotATrie
    );
}

#[test]
fn storage_rejects_other_layout_version() {
    let trie = from_rows(vec![vec![StorageValueT::Id32(1)]]);
    let mut bytes = trie.encode();
    bytes[MAGIC.len()] = bytes[MAGIC.len()].wrapping_add(1);

    assert_eq!(
        error_of(Trie::decode(&bytes)),
        TrieStorageError::VersionMismatch {
            found: FORMAT_VERSION + 1,
            expected: FORMAT_VERSION,
        }
    );
}

#[test]
fn storage_rejects_truncated_input() {
    let trie = from_rows(vec![
        vec![StorageValueT::Id32(1), StorageValueT::Id32(2)],
        vec![StorageValueT::Id32(3), StorageValueT::Id32(4)],
    ]);
    let bytes = trie.encode();

    // Every proper prefix must be rejected rather than decoded into a
    // partial trie.
    for length in 0..bytes.len() {
        assert!(
            Trie::decode(&bytes[..length]).is_err(),
            "prefix of length {length} decoded, but should not have"
        );
    }
}

#[test]
fn storage_encoding_is_deterministic() {
    let trie = from_rows(vec![
        vec![StorageValueT::Id32(9), StorageValueT::Id32(8)],
        vec![StorageValueT::Id32(7), StorageValueT::Id32(6)],
    ]);

    assert_eq!(trie.encode(), trie.encode());
    // Re-encoding a decoded trie must reproduce the same bytes, or the
    // format would not be usable as a content-addressed cache entry.
    let decoded = Trie::decode(&trie.encode()).expect("should decode");
    assert_eq!(decoded.encode(), trie.encode());
}

#[test]
fn encoding_is_reachable_from_another_crate() {
    assert_eq!(MAGIC.len(), 8, "magic is a fixed-width 8-byte header");
    assert!(FORMAT_VERSION >= 1, "layout version starts at 1");
}

#[test]
fn decode_rejects_foreign_bytes_across_the_crate_boundary() {
    // Also checks that the error type is nameable externally, not just the
    // function -- a caller has to be able to match on why a load failed in order
    // to decide between recomputing and giving up.
    let error = error_of(Trie::decode(b"definitely not a trie"));

    assert_eq!(error, TrieStorageError::NotATrie);
    assert!(!error.message().is_empty(), "errors are reportable");
}

#[test]
fn empty_input_is_rejected_rather_than_decoded_as_an_empty_trie() {
    // A zero-length file is the shape a crashed writer leaves behind, and
    // decoding it as a valid empty trie would turn a partial write into silently
    // missing data.
    assert!(matches!(
        error_of(Trie::decode(&[])),
        TrieStorageError::Truncated { .. }
    ));
}

/// Why a trie could not be decoded.
fn error_of(result: Result<Trie, TrieStorageError>) -> TrieStorageError {
    match result {
        Ok(_) => panic!("decoded, but should not have"),
        Err(error) => error,
    }
}

#[test]
fn tables_without_columns_hold_the_empty_row_or_nothing() {
    for empty_row in [false, true] {
        let trie = Trie::new(Vec::new(), empty_row);
        let bytes = trie.encode();
        assert_eq!(bytes.len(), 32);
        let decoded = Trie::decode(&bytes).expect("should decode");
        assert_eq!(decoded.arity(), 0);
        assert_eq!(decoded.num_rows(), usize::from(empty_row));
    }
}

#[test]
fn headers_and_columns_are_aligned() {
    let bytes = from_rows(vec![vec![StorageValueT::Id32(7)]]).encode();
    assert_eq!(&bytes[..8], b"NMOTRIE\0");
    assert_eq!(&bytes[8..16], &[1, 0, 0, 0, 0, 0, 0, 0]);
    assert_eq!(&bytes[16..24], &[1, 0, 0, 0, 0, 0, 0, 0]);
    assert_eq!(&bytes[24..32], &[0; 8]);
    // The first data column: a vector with one value and its padding.
    assert_eq!(&bytes[32..40], &[0; 8]);
    assert_eq!(&bytes[40..48], &[1, 0, 0, 0, 0, 0, 0, 0]);
    assert_eq!(&bytes[48..56], &[7, 0, 0, 0, 0, 0, 0, 0]);
    assert_eq!(bytes.len() % 8, 0);
}

#[test]
fn unknown_column_tags_are_rejected() {
    let mut bytes = from_rows(vec![vec![StorageValueT::Id32(7)]]).encode();
    bytes[32] = 2;
    let error = error_of(Trie::decode(&bytes));
    assert_eq!(error, TrieStorageError::UnknownColumnTag(2));
    assert_eq!(error.message(), "unknown column tag 2");
}

#[test]
fn huge_columns_are_rejected_rather_than_allocated() {
    let mut bytes = from_rows(vec![vec![StorageValueT::Id32(7)]]).encode();
    bytes[40..48].copy_from_slice(&u64::MAX.to_le_bytes());
    assert!(matches!(
        error_of(Trie::decode(&bytes)),
        TrieStorageError::Truncated { needed: 4, .. }
    ));
}

#[test]
fn trie_messages_name_what_went_wrong() {
    assert_eq!(
        TrieStorageError::NotATrie.message(),
        "input is not an encoded trie"
    );
    assert_eq!(
        TrieStorageError::VersionMismatch {
            found: 3,
            expected: 1
        }
        .message(),
        "encoded trie has layout version 3, this build reads 1"
    );
    assert_eq!(
        TrieStorageError::Truncated {
            offset: 24,
            needed: 8
        }
        .message(),
        "encoded trie ends prematurely: needed 8 more byte(s) at offset 24"
    );
    assert_eq!(
        TrieStorageError::ValueOutOfRange(5).message(),
        "encoded value 5 does not fit in a pointer on this platform"
    );
}

#[test]
fn runs_stand_for_the_values_they_were_built_from() {
    let values: Vec<i64> = vec![-3, -1, 1, 3, 3, 3, i64::MAX, i64::MIN, 0, 7];
    let mut builder = ColumnBuilderRle::new();
    for value in &values {
        builder.add(*value);
    }
    assert_eq!(builder.finalize().values(), values);

    let ids: Vec<u32> = vec![u32::MAX, 0, 1, 1, 5, 9, 13, 2];
    match ColumnEnum::rle_from(ids.clone()) {
        ColumnEnum::ColumnRle(column) => assert_eq!(column.values(), ids),
        ColumnEnum::ColumnVector(_) => panic!("the column should be run-length encoded"),
    }
}

#[test]
fn round_trip_three_layers() {
    let mut rows = Vec::new();
    for a in 0..5u32 {
        for b in [-1i64, 4] {
            for c in 0..(a as u64) {
                rows.push(vec![
                    StorageValueT::Id32(a),
                    StorageValueT::Int64(b),
                    StorageValueT::Id64(c * 100),
                ]);
            }
            rows.push(vec![
                StorageValueT::Id32(a),
                StorageValueT::Int64(b),
                double(0.5),
            ]);
        }
    }
    assert_round_trip(rows);
}

#[test]
fn columns_are_read_back_in_the_form_they_were_written() {
    for column in [
        ColumnEnum::ColumnVector(vec![3u32, 1, 2]),
        ColumnEnum::rle_from(vec![3u32, 1, 2]),
        ColumnEnum::rle_from((0..100u32).collect()),
    ] {
        let mut writer = Writer::new();
        writer.u64(77);
        encode_column(&column, &mut writer);
        let end = writer.bytes.len();
        assert_eq!(end % 8, 0);
        writer.raw(b"rest");

        let mut reader = Reader::new(&writer.bytes);
        assert_eq!(reader.u64(), Ok(77));
        let decoded: ColumnEnum<u32> = decode_column(&mut reader).expect("this is a column");
        assert_eq!(decoded.values(), column.values());
        assert_eq!(
            matches!(decoded, ColumnEnum::ColumnRle(_)),
            matches!(column, ColumnEnum::ColumnRle(_))
        );
        assert_eq!(reader.offset, end);
        assert!(reader.take(5).is_err());
        assert_eq!(reader.offset, end);
    }
}

#[test]
fn columns_are_written_as_tag_count_and_values() {
    let mut writer = Writer::new();
    encode_column(&ColumnEnum::ColumnVector(vec![1u32, 2, 3]), &mut writer);
    let mut expected = vec![0; 8];
    expected.extend([3, 0, 0, 0, 0, 0, 0, 0]);
    expected.extend([1, 0, 0, 0, 2, 0, 0, 0, 3, 0, 0, 0, 0, 0, 0, 0]);
    assert_eq!(writer.bytes, expected);
}

#[test]
fn a_failed_reading_of_a_column_ends_behind_the_last_whole_part() {
    let mut writer = Writer::new();
    encode_column(&ColumnEnum::ColumnVector(vec![1u32, 2, 3]), &mut writer);
    let whole = writer.bytes;
    for (length, end) in [
        (0, 0),
        (5, 1),
        (8, 8),
        (15, 8),
        (16, 16),
        (22, 20),
        (27, 24),
        (28, 28),
        (31, 28),
    ] {
        let mut reader = Reader::new(&whole[..length]);
        assert!(decode_column::<u32>(&mut reader).is_err());
        assert_eq!(reader.offset, end, "after reading {length} bytes");
    }
    let mut unknown = whole;
    unknown[0] = 2;
    let mut reader = Reader::new(&unknown);
    assert!(matches!(
        decode_column::<u32>(&mut reader),
        Err(TrieStorageError::UnknownColumnTag(2))
    ));
    assert_eq!(reader.offset, 32);
}
