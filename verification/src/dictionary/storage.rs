//! Persistence for the `id -> datavalue` direction of a dictionary.
//!
//! An encoded snapshot is a header, a sorted `(id, offset)` index and a blob of
//! encoded values. Only the ids that are actually used are captured, and only
//! that one direction: tables are read and joined in id space, and a value is
//! needed only to render a result.

use vstd::prelude::*;

use crate::datavalues::{optional_view, valid_value, AnyDataValue, ValueView};
use crate::dictionary::encoding::{
    decode_value, encode_value, lemma_parse_length, lemma_value_round_trip, parse_bytes,
    parse_length, parse_u32, parse_value, value_bytes, values_bytes, Cursor, DictionaryFault,
};
use crate::dictionary::DvDict;
use crate::little_endian::{
    holds_at, le_bytes, lemma_holds_behind, lemma_holds_longer, lemma_holds_parts, lemma_le_len,
    lemma_le_round_trip, lemma_pow256_values, push_le,
};
use crate::text::same_bytes;

pub use crate::dictionary::encoding::DictionaryStorageError;

verus! {

/// Identifies the encoding.
pub const MAGIC: [u8; 8] = [78, 77, 79, 68, 73, 67, 84, 0];

/// Layout version. Bump on any layout change; consumers put it in a cache key,
/// so an increment invalidates rather than migrates.
pub const FORMAT_VERSION: u32 = 1;

/// The number of bytes in front of the index.
pub const HEADER_LENGTH: usize = 32;

/// Whether the ids strictly ascend.
pub open spec fn ids_ascend(entries: Seq<(usize, ValueView)>) -> bool {
    forall|i: int, j: int|
        0 <= i < j < entries.len() ==> (#[trigger] entries[i]).0 < (#[trigger] entries[j]).0
}

/// The value stored under an id.
pub open spec fn lookup(entries: Seq<(usize, ValueView)>, id: usize) -> Option<ValueView> {
    if exists|i: int| 0 <= i < entries.len() && (#[trigger] entries[i]).0 == id {
        Some(
            entries[choose|i: int| 0 <= i < entries.len() && (#[trigger] entries[i]).0 == id].1,
        )
    } else {
        None
    }
}

/// Whether `entries` are the given ids as far as they resolve, each once and in
/// ascending order.
pub open spec fn captures(
    entries: Seq<(usize, ValueView)>,
    resolve: spec_fn(usize) -> Option<ValueView>,
    ids: Seq<usize>,
) -> bool {
    &&& ids_ascend(entries)
    &&& forall|id: usize| #[trigger]
        lookup(entries, id) == (if ids.contains(id) {
            resolve(id)
        } else {
            None
        })
}

/// The values of the entries.
pub open spec fn entry_values(entries: Seq<(usize, ValueView)>) -> Seq<ValueView> {
    Seq::new(entries.len(), |i: int| entries[i].1)
}

/// The encoding of the index: each id with the offset of its value.
pub open spec fn index_bytes(entries: Seq<(usize, ValueView)>) -> Seq<u8>
    decreases entries.len(),
{
    if entries.len() == 0 {
        Seq::empty()
    } else {
        let front = entries.drop_last();
        index_bytes(front) + (le_bytes(entries.last().0 as nat, 8) + le_bytes(
            values_bytes(entry_values(front)).len(),
            8,
        ))
    }
}

/// The encoding of the header.
pub open spec fn header_bytes(count: nat, values_length: nat) -> Seq<u8> {
    MAGIC@ + (le_bytes(FORMAT_VERSION as nat, 4) + (le_bytes(0, 4) + (le_bytes(count, 8) + le_bytes(
        values_length,
        8,
    ))))
}

/// The encoding of a snapshot.
pub open spec fn snapshot_bytes(entries: Seq<(usize, ValueView)>) -> Seq<u8> {
    let values = values_bytes(entry_values(entries));
    header_bytes(entries.len(), values.len()) + (index_bytes(entries) + values)
}

/// The number of entries and the length of the values, as the header has them.
pub open spec fn parse_header(bytes: Seq<u8>) -> Result<(usize, usize), DictionaryFault> {
    match parse_bytes(bytes, 0, 8) {
        Ok((magic, _)) => if magic != MAGIC@ {
            Err(DictionaryFault::NotADictionary)
        } else {
            match parse_u32(bytes, 8) {
                Ok((version, _)) => if version != FORMAT_VERSION {
                    Err(
                        DictionaryFault::VersionMismatch {
                            found: version,
                            expected: FORMAT_VERSION,
                        },
                    )
                } else {
                    parse_sizes(bytes)
                },
                Err(fault) => Err(fault),
            }
        },
        Err(fault) => Err(fault),
    }
}

/// The sizes behind the reserved part of the header.
pub open spec fn parse_sizes(bytes: Seq<u8>) -> Result<(usize, usize), DictionaryFault> {
    match parse_u32(bytes, 12) {
        Ok(_) => match parse_length(bytes, 16) {
            Ok((count, _)) => match parse_length(bytes, 24) {
                Ok((values_length, _)) => Ok((count, values_length)),
                Err(fault) => Err(fault),
            },
            Err(fault) => Err(fault),
        },
        Err(fault) => Err(fault),
    }
}

/// The `count` pairs of id and offset from `at` on.
pub open spec fn parse_index(bytes: Seq<u8>, at: nat, count: nat) -> Result<
    (Seq<(usize, usize)>, nat),
    DictionaryFault,
>
    decreases count,
{
    if count == 0 {
        Ok((Seq::empty(), 0))
    } else {
        match parse_index(bytes, at, (count - 1) as nat) {
            Ok((front, used)) => match parse_length(bytes, at + used) {
                Ok((id, more)) => match parse_length(bytes, at + used + more) {
                    Ok((offset, rest)) => Ok((front.push((id, offset)), used + more + rest)),
                    Err(fault) => Err(fault),
                },
                Err(fault) => Err(fault),
            },
            Err(fault) => Err(fault),
        }
    }
}

/// The value at an offset of the value blob.
pub open spec fn parse_entry_value(values: Seq<u8>, offset: usize) -> Result<
    (ValueView, nat),
    DictionaryFault,
> {
    if offset > values.len() {
        Err(DictionaryFault::Truncated { offset: offset as nat, needed: 1 })
    } else {
        parse_value(values, offset as nat)
    }
}

/// The entries of an index, each with the value at its offset. Every id must be
/// above the one before it.
pub open spec fn parse_entries(values: Seq<u8>, index: Seq<(usize, usize)>) -> Result<
    Seq<(usize, ValueView)>,
    DictionaryFault,
>
    decreases index.len(),
{
    if index.len() == 0 {
        Ok(Seq::empty())
    } else {
        match parse_entries(values, index.drop_last()) {
            Ok(front) => if front.len() > 0 && front.last().0 >= index.last().0 {
                Err(DictionaryFault::IndexNotSorted)
            } else {
                match parse_entry_value(values, index.last().1) {
                    Ok((value, _)) => Ok(front.push((index.last().0, value))),
                    Err(fault) => Err(fault),
                }
            },
            Err(fault) => Err(fault),
        }
    }
}

/// The entries that an encoded snapshot holds.
pub open spec fn parse_snapshot(bytes: Seq<u8>) -> Result<
    Seq<(usize, ValueView)>,
    DictionaryFault,
> {
    match parse_header(bytes) {
        Ok((count, values_length)) => match parse_index(
            bytes,
            HEADER_LENGTH as nat,
            count as nat,
        ) {
            Ok((index, used)) => match parse_bytes(
                bytes,
                HEADER_LENGTH as nat + used,
                values_length as nat,
            ) {
                Ok((values, _)) => parse_entries(values, index),
                Err(fault) => Err(fault),
            },
            Err(fault) => Err(fault),
        },
        Err(fault) => Err(fault),
    }
}

proof fn lemma_index_fault(bytes: Seq<u8>, at: nat, count: nat, more: nat)
    requires
        count <= more,
        parse_index(bytes, at, count) is Err,
    ensures
        parse_index(bytes, at, more) == parse_index(bytes, at, count),
    decreases more,
{
    if count < more {
        lemma_index_fault(bytes, at, count, (more - 1) as nat);
    }
}

proof fn lemma_entries_fault(values: Seq<u8>, index: Seq<(usize, usize)>, count: int)
    requires
        0 <= count <= index.len(),
        parse_entries(values, index.take(count)) is Err,
    ensures
        parse_entries(values, index) == parse_entries(values, index.take(count)),
    decreases index.len(),
{
    if count < index.len() {
        assert(index.drop_last().take(count) =~= index.take(count));
        lemma_entries_fault(values, index.drop_last(), count);
    } else {
        assert(index.take(count) =~= index);
    }
}

/// Looking up the id of an entry gives its value.
pub proof fn lemma_lookup(entries: Seq<(usize, ValueView)>, place: int)
    requires
        ids_ascend(entries),
        0 <= place < entries.len(),
    ensures
        lookup(entries, entries[place].0) == Some(entries[place].1),
{
    let id = entries[place].0;
    let found = choose|i: int| 0 <= i < entries.len() && (#[trigger] entries[i]).0 == id;
    assert(found == place);
}

/// The `id -> datavalue` mapping for a fixed set of ids.
///
/// Captured from a live dictionary, encodable to bytes, and queryable after
/// decoding without a dictionary being present at all.
#[derive(Debug)]
pub struct DictionarySnapshot {
    entries: Vec<(usize, AnyDataValue)>,
}

/// What a list of entries denotes.
pub open spec fn entries_view(entries: Seq<(usize, AnyDataValue)>) -> Seq<(usize, ValueView)> {
    Seq::new(entries.len(), |i: int| (entries[i].0, entries[i].1@))
}

impl View for DictionarySnapshot {
    type V = Seq<(usize, ValueView)>;

    closed spec fn view(&self) -> Seq<(usize, ValueView)> {
        entries_view(self.entries@)
    }
}

impl DictionarySnapshot {
    /// Sortedness is what makes binary search sound.
    #[verifier::type_invariant]
    spec fn sorted(self) -> bool {
        ids_ascend(self@)
    }
}

impl Default for DictionarySnapshot {
    /// The snapshot without ids.
    fn default() -> (snapshot: Self)
        ensures
            snapshot@ == Seq::<(usize, ValueView)>::empty(),
    {
        let snapshot = DictionarySnapshot { entries: Vec::new() };
        assert(snapshot@ =~= Seq::<(usize, ValueView)>::empty());
        snapshot
    }
}

impl Clone for DictionarySnapshot {
    fn clone(&self) -> (copy: Self)
        ensures
            copy@ == self@,
    {
        proof {
            use_type_invariant(self);
        }
        let mut entries: Vec<(usize, AnyDataValue)> = Vec::new();
        let mut index: usize = 0;
        while index < self.entries.len()
            invariant
                index <= self.entries@.len(),
                entries@.len() == index,
                forall|i: int|
                    0 <= i < index ==> (#[trigger] entries@[i]).0 == self.entries@[i].0
                        && entries@[i].1@ == self.entries@[i].1@,
            decreases self.entries@.len() - index,
        {
            entries.push((self.entries[index].0, self.entries[index].1.clone()));
            index = index + 1;
        }
        assert(entries_view(entries@) =~= self@);
        DictionarySnapshot { entries }
    }
}

/// Sorts ids by the `sort_unstable` method of slices, which leaves the same ids
/// behind, in ascending order.
#[verifier::external_body]
fn sort_ids(ids: &mut Vec<usize>)
    ensures
        final(ids)@.to_multiset() == old(ids)@.to_multiset(),
        forall|i: int, j: int| 0 <= i < j < final(ids)@.len() ==> final(ids)@[i] <= final(ids)@[j],
{
    ids.sort_unstable();
}

impl DictionarySnapshot {
    /// Captures the given ids from a dictionary.
    ///
    /// Ids the dictionary cannot resolve are skipped rather than reported: a
    /// caller that collects ids out of tables cannot tell them apart in advance.
    /// Duplicate ids collapse.
    pub fn capture<Dict: DvDict + ?Sized>(dictionary: &Dict, ids: Vec<usize>) -> (snapshot: Self)
        ensures
            captures(snapshot@, |id: usize| dictionary.resolve(id), ids@),
    {
        let ghost given = ids@;
        let mut ids = ids;
        sort_ids(&mut ids);
        proof {
            given.to_multiset_ensures();
            ids@.to_multiset_ensures();
            assert forall|id: usize| given.contains(id) <==> #[trigger] ids@.contains(id) by {
                assert(given.to_multiset().count(id) > 0 <==> given.contains(id));
                assert(ids@.to_multiset().count(id) > 0 <==> ids@.contains(id));
            }
        }
        let mut entries: Vec<(usize, AnyDataValue)> = Vec::new();
        let mut index: usize = 0;
        while index < ids.len()
            invariant
                index <= ids@.len(),
                forall|i: int, j: int| 0 <= i < j < ids@.len() ==> ids@[i] <= ids@[j],
                ids_ascend(entries_view(entries@)),
                forall|k: int|
                    0 <= k < entries@.len() ==> ids@.take(index as int).contains(
                        (#[trigger] entries@[k]).0,
                    ) && dictionary.resolve(entries@[k].0) == Some(entries@[k].1@),
                forall|i: int|
                    0 <= i < index && dictionary.resolve(#[trigger] ids@[i]) is Some ==> exists|
                        k: int,
                    |
                        0 <= k < entries@.len() && (#[trigger] entries@[k]).0 == ids@[i],
            decreases ids@.len() - index,
        {
            let id: usize = ids[index];
            let ghost before = entries@;
            let ghost read = ids@.take(index as int);
            let ghost now = ids@.take(index + 1);
            assert(now =~= read.push(id));
            assert forall|k: int| 0 <= k < before.len() implies now.contains(
                (#[trigger] before[k]).0,
            ) && before[k].0 <= id by {
                let place = choose|i: int| 0 <= i < read.len() && read[i] == before[k].0;
                assert(now[place] == before[k].0);
                assert(ids@[place] == before[k].0);
            }
            if entries.len() > 0 && entries[entries.len() - 1].0 == id {
                assert(before[before.len() - 1].0 == id);
            } else {
                match dictionary.id_to_datavalue(id) {
                    Some(value) => {
                        entries.push((id, value));
                        proof {
                            let view = entries_view(entries@);
                            assert(now[index as int] == id);
                            assert forall|i: int, j: int| 0 <= i < j < view.len() implies (
                            #[trigger] view[i]).0 < (#[trigger] view[j]).0 by {
                                if j < before.len() {
                                    assert(entries_view(before)[i].0 < entries_view(before)[j].0);
                                } else {
                                    let last = before.len() - 1;
                                    assert(before[last].0 < id);
                                    if i < last {
                                        assert(entries_view(before)[i].0 < entries_view(
                                            before,
                                        )[last].0);
                                    }
                                }
                            }
                            assert forall|i: int|
                                0 <= i < index + 1 && dictionary.resolve(
                                    #[trigger] ids@[i],
                                ) is Some implies exists|k: int|
                                0 <= k < entries@.len() && (#[trigger] entries@[k]).0
                                    == ids@[i] by {
                                if i < index {
                                    let k = choose|k: int|
                                        0 <= k < before.len() && (#[trigger] before[k]).0 == ids@[i];
                                    assert(entries@[k] == before[k]);
                                } else {
                                    assert(entries@[before.len() as int].0 == id);
                                }
                            }
                        }
                    },
                    None => {},
                }
            }
            index = index + 1;
        }
        assert(ids@.take(index as int) =~= ids@);
        let ghost view = entries_view(entries@);
        let ghost resolve = |id: usize| dictionary.resolve(id);
        assert forall|id: usize| #[trigger]
            lookup(view, id) == (if given.contains(id) {
                resolve(id)
            } else {
                None
            }) by {
            if exists|i: int| 0 <= i < view.len() && (#[trigger] view[i]).0 == id {
                let k = choose|i: int| 0 <= i < view.len() && (#[trigger] view[i]).0 == id;
                lemma_lookup(view, k);
                assert(entries@[k].0 == id);
                assert(ids@.contains(id));
            } else if given.contains(id) && dictionary.resolve(id) is Some {
                assert(ids@.contains(id));
                let i = choose|i: int| 0 <= i < ids@.len() && ids@[i] == id;
                assert(dictionary.resolve(ids@[i]) is Some);
                let k = choose|k: int| 0 <= k < entries@.len() && (#[trigger] entries@[k]).0 == ids@[i];
                assert(view[k].0 == id);
            }
        }
        DictionarySnapshot { entries }
    }

    /// Number of ids in this snapshot.
    pub fn len(&self) -> (count: usize)
        ensures
            count == self@.len(),
    {
        self.entries.len()
    }

    /// Whether this snapshot holds no ids.
    pub fn is_empty(&self) -> (empty: bool)
        ensures
            empty == (self@.len() == 0),
    {
        self.entries.len() == 0
    }

    /// Resolves an id, or gives `None` if it was not captured.
    pub fn id_to_datavalue(&self, id: usize) -> (value: Option<AnyDataValue>)
        ensures
            optional_view(value) == lookup(self@, id),
    {
        proof {
            use_type_invariant(self);
        }
        let mut low: usize = 0;
        let mut high: usize = self.entries.len();
        while low < high
            invariant
                low <= high <= self.entries@.len(),
                ids_ascend(self@),
                self@ == entries_view(self.entries@),
                forall|i: int| 0 <= i < low ==> (#[trigger] self@[i]).0 < id,
                forall|i: int| high <= i < self@.len() ==> (#[trigger] self@[i]).0 > id,
            decreases high - low,
        {
            let middle: usize = low + (high - low) / 2;
            let found: usize = self.entries[middle].0;
            assert(self@[middle as int].0 == found);
            if found == id {
                proof {
                    lemma_lookup(self@, middle as int);
                }
                return Some(self.entries[middle].1.clone());
            } else if found < id {
                low = middle + 1;
            } else {
                high = middle;
            }
        }
        None
    }

    /// The captured pairs in ascending id order.
    pub fn iter(&self) -> (pairs: Vec<(usize, &AnyDataValue)>)
        ensures
            pairs@.len() == self@.len(),
            forall|i: int|
                0 <= i < pairs@.len() ==> (#[trigger] pairs@[i]).0 == self@[i].0 && pairs@[i].1@
                    == self@[i].1,
            ids_ascend(self@),
    {
        proof {
            use_type_invariant(self);
        }
        let mut pairs: Vec<(usize, &AnyDataValue)> = Vec::new();
        let mut index: usize = 0;
        while index < self.entries.len()
            invariant
                index <= self.entries@.len(),
                self@ == entries_view(self.entries@),
                pairs@.len() == index,
                forall|i: int|
                    0 <= i < index ==> (#[trigger] pairs@[i]).0 == self@[i].0 && pairs@[i].1@
                        == self@[i].1,
            decreases self.entries@.len() - index,
        {
            pairs.push((self.entries[index].0, &self.entries[index].1));
            index = index + 1;
        }
        pairs
    }

    /// Encodes this snapshot into a byte buffer.
    pub fn encode(&self) -> (bytes: Vec<u8>)
        ensures
            bytes@ == snapshot_bytes(self@),
    {
        let ghost view = self@;
        let ghost all_values = entry_values(view);
        let mut values: Vec<u8> = Vec::new();
        let mut index: Vec<u8> = Vec::new();
        let mut position: usize = 0;
        while position < self.entries.len()
            invariant
                position <= self.entries@.len(),
                view == entries_view(self.entries@),
                values@ == values_bytes(entry_values(view.take(position as int))),
                index@ == index_bytes(view.take(position as int)),
            decreases self.entries@.len() - position,
        {
            let ghost read = view.take(position as int);
            let ghost now = view.take(position + 1);
            proof {
                assert(now.drop_last() =~= read);
                assert(now.last() == view[position as int]);
                assert(entry_values(now).drop_last() =~= entry_values(read));
                assert(entry_values(now)[now.len() - 1] == view[position as int].1);
            }
            push_le(&mut index, self.entries[position].0 as u64, 8);
            push_le(&mut index, values.len() as u64, 8);
            encode_value(&self.entries[position].1, &mut values);
            assert(index@ =~= index_bytes(now));
            position = position + 1;
        }
        assert(view.take(position as int) =~= view);
        let mut bytes: Vec<u8> = Vec::new();
        bytes.extend_from_slice(&MAGIC);
        push_le(&mut bytes, FORMAT_VERSION as u64, 4);
        push_le(&mut bytes, 0, 4);
        push_le(&mut bytes, self.entries.len() as u64, 8);
        push_le(&mut bytes, values.len() as u64, 8);
        assert(bytes@ =~= header_bytes(view.len(), values@.len()));
        bytes.extend_from_slice(index.as_slice());
        bytes.extend_from_slice(values.as_slice());
        assert(bytes@ =~= snapshot_bytes(self@));
        bytes
    }

    /// Decodes a snapshot produced by [DictionarySnapshot::encode].
    pub fn decode(bytes: &[u8]) -> (snapshot: Result<Self, DictionaryStorageError>)
        ensures
            match parse_snapshot(bytes@) {
                Ok(entries) => snapshot matches Ok(read) && read@ == entries,
                Err(fault) => snapshot matches Err(error) && error@ == fault,
            },
    {
        let mut reader = Cursor::new(bytes);
        match reader.take(8) {
            Ok(magic) => if !same_bytes(magic, &MAGIC) {
                return Err(DictionaryStorageError::NotADictionary);
            },
            Err(error) => return Err(error),
        }
        match reader.u32() {
            Ok(version) => if version != FORMAT_VERSION {
                return Err(
                    DictionaryStorageError::VersionMismatch {
                        found: version,
                        expected: FORMAT_VERSION,
                    },
                );
            },
            Err(error) => return Err(error),
        }
        match reader.u32() {
            Ok(_) => {},
            Err(error) => return Err(error),
        }
        let count: usize = match reader.length() {
            Ok(count) => count,
            Err(error) => return Err(error),
        };
        let values_length: usize = match reader.length() {
            Ok(length) => length,
            Err(error) => return Err(error),
        };
        assert(parse_header(bytes@) == Ok::<_, DictionaryFault>((count, values_length)));
        let index = match decode_index(&mut reader, count) {
            Ok(index) => index,
            Err(error) => return Err(error),
        };
        let values = match reader.take(values_length) {
            Ok(values) => values,
            Err(error) => return Err(error),
        };
        decode_entries(values, &index)
    }
}

/// Reads pairs of id and offset.
fn decode_index(reader: &mut Cursor<'_>, count: usize) -> (index: Result<
    Vec<(usize, usize)>,
    DictionaryStorageError,
>)
    requires
        old(reader).offset <= old(reader).bytes@.len(),
    ensures
        final(reader).bytes@ == old(reader).bytes@,
        final(reader).offset <= final(reader).bytes@.len(),
        match parse_index(old(reader).bytes@, old(reader).offset as nat, count as nat) {
            Ok((expected, used)) => {
                &&& index matches Ok(read) && read@ == expected
                &&& final(reader).offset == old(reader).offset + used
            },
            Err(fault) => index matches Err(error) && error@ == fault,
        },
{
    let ghost bytes = reader.bytes@;
    let ghost start = reader.offset as nat;
    let mut index: Vec<(usize, usize)> = Vec::new();
    let mut done: usize = 0;
    while done < count
        invariant
            done <= count,
            reader.bytes@ == bytes,
            bytes == old(reader).bytes@,
            start == old(reader).offset,
            start <= reader.offset <= bytes.len(),
            parse_index(bytes, start, done as nat) == Ok::<_, DictionaryFault>(
                (index@, (reader.offset - start) as nat),
            ),
        decreases count - done,
    {
        let id: usize = match reader.length() {
            Ok(id) => id,
            Err(error) => {
                proof {
                    lemma_index_fault(bytes, start, (done + 1) as nat, count as nat);
                }
                return Err(error);
            },
        };
        match reader.length() {
            Ok(offset) => index.push((id, offset)),
            Err(error) => {
                proof {
                    lemma_index_fault(bytes, start, (done + 1) as nat, count as nat);
                }
                return Err(error);
            },
        }
        done = done + 1;
    }
    Ok(index)
}

/// Reads the value of each entry of an index.
fn decode_entries(values: &[u8], index: &Vec<(usize, usize)>) -> (snapshot: Result<
    DictionarySnapshot,
    DictionaryStorageError,
>)
    ensures
        match parse_entries(values@, index@) {
            Ok(entries) => snapshot matches Ok(read) && read@ == entries,
            Err(fault) => snapshot matches Err(error) && error@ == fault,
        },
{
    let mut entries: Vec<(usize, AnyDataValue)> = Vec::new();
    let mut position: usize = 0;
    assert(entries_view(entries@) =~= Seq::<(usize, ValueView)>::empty());
    while position < index.len()
        invariant
            position <= index@.len(),
            parse_entries(values@, index@.take(position as int)) == Ok::<_, DictionaryFault>(
                entries_view(entries@),
            ),
            ids_ascend(entries_view(entries@)),
            entries@.len() == position,
        decreases index@.len() - position,
    {
        let (id, offset): (usize, usize) = index[position];
        let ghost view = entries_view(entries@);
        let ghost now = index@.take(position + 1);
        proof {
            assert(now.drop_last() =~= index@.take(position as int));
            assert(now.last() == (id, offset));
            if parse_entries(values@, now) is Err {
                lemma_entries_fault(values@, index@, position + 1);
            }
        }
        if entries.len() > 0 && entries[entries.len() - 1].0 >= id {
            return Err(DictionaryStorageError::IndexNotSorted);
        }
        let mut value_reader = match Cursor::at(values, offset) {
            Ok(reader) => reader,
            Err(error) => return Err(error),
        };
        match decode_value(&mut value_reader) {
            Ok(value) => {
                entries.push((id, value));
                assert(entries_view(entries@) =~= view.push((id, value@)));
                assert forall|i: int, j: int| 0 <= i < j < view.len() + 1 implies (
                #[trigger] view.push((id, value@))[i]).0 < (#[trigger] view.push(
                    (id, value@),
                )[j]).0 by {
                    if j == view.len() && i < view.len() - 1 {
                        assert(view[i].0 < view[view.len() - 1].0);
                    }
                }
            },
            Err(error) => return Err(error),
        }
        position = position + 1;
    }
    assert(index@.take(position as int) =~= index@);
    Ok(DictionarySnapshot { entries })
}

/// The index that the encoding of `entries` holds.
spec fn index_of(entries: Seq<(usize, ValueView)>) -> Seq<(usize, usize)> {
    Seq::new(
        entries.len(),
        |i: int|
            (entries[i].0, values_bytes(entry_values(entries.take(i))).len() as usize),
    )
}

proof fn lemma_index_of_front(entries: Seq<(usize, ValueView)>)
    requires
        entries.len() > 0,
    ensures
        index_of(entries).drop_last() == index_of(entries.drop_last()),
        index_of(entries).last() == (
            entries.last().0,
            values_bytes(entry_values(entries.drop_last())).len() as usize,
        ),
{
    let front = entries.drop_last();
    assert(entries.take(entries.len() - 1) =~= front);
    assert forall|i: int| 0 <= i < front.len() implies index_of(entries).drop_last()[i] == index_of(
        front,
    )[i] by {
        assert(entries.take(i) =~= front.take(i));
    }
    assert(index_of(entries).drop_last() =~= index_of(front));
}

proof fn lemma_values_front(entries: Seq<(usize, ValueView)>)
    requires
        entries.len() > 0,
    ensures
        values_bytes(entry_values(entries)) == values_bytes(entry_values(entries.drop_last()))
            + value_bytes(entries.last().1),
{
    assert(entry_values(entries).drop_last() =~= entry_values(entries.drop_last()));
}

proof fn lemma_header_round_trip(bytes: Seq<u8>, count: nat, values_length: nat)
    requires
        holds_at(bytes, 0, header_bytes(count, values_length)),
        count <= usize::MAX,
        values_length <= usize::MAX,
    ensures
        parse_header(bytes) == Ok::<_, DictionaryFault>((count as usize, values_length as usize)),
        header_bytes(count, values_length).len() == HEADER_LENGTH,
{
    let sizes = le_bytes(count, 8) + le_bytes(values_length, 8);
    let version = le_bytes(FORMAT_VERSION as nat, 4);
    lemma_le_len(count, 8);
    lemma_le_len(values_length, 8);
    lemma_pow256_values();
    lemma_le_round_trip(FORMAT_VERSION as nat, 4);
    lemma_le_round_trip(0, 4);
    lemma_holds_parts(bytes, 0, MAGIC@, version + (le_bytes(0, 4) + sizes));
    lemma_holds_parts(bytes, 8, version, le_bytes(0, 4) + sizes);
    lemma_holds_parts(bytes, 12, le_bytes(0, 4), sizes);
    lemma_holds_parts(bytes, 16, le_bytes(count, 8), le_bytes(values_length, 8));
    lemma_parse_length(bytes, 16, count);
    lemma_parse_length(bytes, 24, values_length);
}

proof fn lemma_index_round_trip(bytes: Seq<u8>, at: nat, entries: Seq<(usize, ValueView)>)
    requires
        holds_at(bytes, at, index_bytes(entries)),
        values_bytes(entry_values(entries)).len() <= usize::MAX,
    ensures
        parse_index(bytes, at, entries.len()) == Ok::<_, DictionaryFault>(
            (index_of(entries), 16 * entries.len()),
        ),
        index_bytes(entries).len() == 16 * entries.len(),
    decreases entries.len(),
{
    if entries.len() > 0 {
        let front = entries.drop_last();
        let id = entries.last().0 as nat;
        let offset = values_bytes(entry_values(front)).len();
        lemma_values_front(entries);
        lemma_le_len(id, 8);
        lemma_le_len(offset, 8);
        lemma_holds_parts(bytes, at, index_bytes(front), le_bytes(id, 8) + le_bytes(offset, 8));
        lemma_index_round_trip(bytes, at, front);
        let after = at + index_bytes(front).len();
        lemma_holds_parts(bytes, after, le_bytes(id, 8), le_bytes(offset, 8));
        lemma_parse_length(bytes, after, id);
        lemma_parse_length(bytes, after + 8, offset);
        lemma_index_of_front(entries);
        assert(index_of(entries) =~= index_of(front).push(index_of(entries).last()));
    } else {
        assert(index_of(entries) =~= Seq::<(usize, usize)>::empty());
    }
}

proof fn lemma_entries_round_trip(values: Seq<u8>, entries: Seq<(usize, ValueView)>)
    requires
        values.len() <= usize::MAX,
        holds_at(values, 0, values_bytes(entry_values(entries))),
        ids_ascend(entries),
        forall|i: int| 0 <= i < entries.len() ==> valid_value((#[trigger] entries[i]).1),
    ensures
        parse_entries(values, index_of(entries)) == Ok::<_, DictionaryFault>(entries),
    decreases entries.len(),
{
    if entries.len() > 0 {
        let front = entries.drop_last();
        let last = entries[entries.len() - 1];
        let before = values_bytes(entry_values(front));
        lemma_values_front(entries);
        lemma_holds_parts(values, 0, before, value_bytes(last.1));
        lemma_index_of_front(entries);
        assert forall|i: int, j: int| 0 <= i < j < front.len() implies (#[trigger] front[i]).0 < (
        #[trigger] front[j]).0 by {
            assert(entries[i].0 < entries[j].0);
        }
        assert forall|i: int| 0 <= i < front.len() implies valid_value((#[trigger] front[i]).1) by {
            assert(entries[i] == front[i]);
        }
        lemma_entries_round_trip(values, front);
        lemma_value_round_trip(values, before.len(), last.1);
        if front.len() > 0 {
            assert(entries[front.len() - 1].0 < last.0);
        }
        assert(front.push(last) =~= entries);
    } else {
        assert(index_of(entries) =~= Seq::<(usize, usize)>::empty());
        assert(entries =~= Seq::<(usize, ValueView)>::empty());
    }
}

/// What the encoding of a snapshot starts with, and how long it is.
proof fn lemma_snapshot_shape(entries: Seq<(usize, ValueView)>)
    requires
        snapshot_bytes(entries).len() <= usize::MAX,
    ensures
        ({
            let bytes = snapshot_bytes(entries);
            let values = values_bytes(entry_values(entries));
            &&& values.len() <= usize::MAX
            &&& entries.len() <= usize::MAX
            &&& bytes.len() == HEADER_LENGTH + 16 * entries.len() + values.len()
            &&& parse_header(bytes) == Ok::<_, DictionaryFault>(
                (entries.len() as usize, values.len() as usize),
            )
            &&& parse_index(bytes, HEADER_LENGTH as nat, entries.len()) == Ok::<
                _,
                DictionaryFault,
            >((index_of(entries), 16 * entries.len()))
            &&& parse_bytes(bytes, HEADER_LENGTH as nat + 16 * entries.len(), values.len()) == Ok::<
                _,
                DictionaryFault,
            >((values, values.len()))
        }),
{
    let bytes = snapshot_bytes(entries);
    let values = values_bytes(entry_values(entries));
    let header = header_bytes(entries.len(), values.len());
    let index = index_bytes(entries);
    assert(bytes.subrange(0, bytes.len() as int) =~= bytes);
    lemma_holds_parts(bytes, 0, header, index + values);
    lemma_holds_parts(bytes, header.len(), index, values);
    lemma_index_length(entries);
    lemma_header_round_trip(bytes, entries.len(), values.len());
    lemma_index_round_trip(bytes, HEADER_LENGTH as nat, entries);
}

proof fn lemma_index_length(entries: Seq<(usize, ValueView)>)
    ensures
        index_bytes(entries).len() == 16 * entries.len(),
    decreases entries.len(),
{
    if entries.len() > 0 {
        lemma_index_length(entries.drop_last());
        lemma_le_len(entries.last().0 as nat, 8);
        lemma_le_len(values_bytes(entry_values(entries.drop_last())).len(), 8);
    }
}

/// Decoding what was encoded gives the snapshot back, with every value in it.
pub proof fn lemma_snapshot_round_trip(entries: Seq<(usize, ValueView)>)
    requires
        ids_ascend(entries),
        forall|i: int| 0 <= i < entries.len() ==> valid_value((#[trigger] entries[i]).1),
        snapshot_bytes(entries).len() <= usize::MAX,
    ensures
        parse_snapshot(snapshot_bytes(entries)) == Ok::<_, DictionaryFault>(entries),
{
    let values = values_bytes(entry_values(entries));
    lemma_snapshot_shape(entries);
    assert(values.subrange(0, values.len() as int) =~= values);
    lemma_entries_round_trip(values, entries);
}

/// What was captured from a dictionary resolves in the decoded snapshot as it
/// did in the dictionary, and nothing else does.
pub proof fn lemma_decoded_capture_resolves(
    entries: Seq<(usize, ValueView)>,
    decoded: Seq<(usize, ValueView)>,
    resolve: spec_fn(usize) -> Option<ValueView>,
    ids: Seq<usize>,
    id: usize,
)
    requires
        captures(entries, resolve, ids),
        forall|known: usize|
            ids.contains(known) ==> ((#[trigger] resolve(known)) matches Some(value) ==> valid_value(
                value,
            )),
        snapshot_bytes(entries).len() <= usize::MAX,
        parse_snapshot(snapshot_bytes(entries)) == Ok::<_, DictionaryFault>(decoded),
    ensures
        lookup(decoded, id) == (if ids.contains(id) {
            resolve(id)
        } else {
            None
        }),
{
    assert forall|i: int| 0 <= i < entries.len() implies valid_value((#[trigger] entries[i]).1) by {
        lemma_lookup(entries, i);
        assert(resolve(entries[i].0) == Some(entries[i].1));
    }
    lemma_snapshot_round_trip(entries);
    assert(lookup(entries, id) == lookup(decoded, id));
}

/// Encoding a decoded snapshot again gives the same bytes.
pub proof fn lemma_snapshot_reencodes(
    entries: Seq<(usize, ValueView)>,
    decoded: Seq<(usize, ValueView)>,
)
    requires
        ids_ascend(entries),
        forall|i: int| 0 <= i < entries.len() ==> valid_value((#[trigger] entries[i]).1),
        snapshot_bytes(entries).len() <= usize::MAX,
        parse_snapshot(snapshot_bytes(entries)) == Ok::<_, DictionaryFault>(decoded),
    ensures
        snapshot_bytes(decoded) == snapshot_bytes(entries),
{
    lemma_snapshot_round_trip(entries);
}

/// Reading from the front of `bytes` either runs out of input or reads the same.
proof fn lemma_short_index(bytes: Seq<u8>, length: nat, at: nat, count: nat)
    requires
        length <= bytes.len(),
        parse_index(bytes, at, count) is Ok,
    ensures
        ({
            let short = bytes.take(length as int);
            ||| parse_index(short, at, count) == parse_index(bytes, at, count)
            ||| parse_index(short, at, count) matches Err(DictionaryFault::Truncated { .. })
        }),
    decreases count,
{
    if count > 0 {
        lemma_short_index(bytes, length, at, (count - 1) as nat);
        let used = parse_index(bytes, at, (count - 1) as nat)->Ok_0.1;
        lemma_short_bytes(bytes, length, at + used, 8);
        lemma_short_bytes(bytes, length, at + used + 8, 8);
    }
}

proof fn lemma_short_bytes(bytes: Seq<u8>, length: nat, at: nat, count: nat)
    requires
        length <= bytes.len(),
    ensures
        ({
            let short = bytes.take(length as int);
            if at + count <= length {
                parse_bytes(short, at, count) == parse_bytes(bytes, at, count)
            } else {
                parse_bytes(short, at, count) == Err::<(Seq<u8>, nat), _>(
                    DictionaryFault::Truncated { offset: at, needed: count },
                )
            }
        }),
{
    let short = bytes.take(length as int);
    if at + count <= length {
        assert(short.subrange(at as int, (at + count) as int) =~= bytes.subrange(
            at as int,
            (at + count) as int,
        ));
    }
}

/// Every proper prefix of an encoded snapshot is rejected as truncated.
pub proof fn lemma_truncated_snapshot_rejected(entries: Seq<(usize, ValueView)>, length: nat)
    requires
        snapshot_bytes(entries).len() <= usize::MAX,
        length < snapshot_bytes(entries).len(),
    ensures
        parse_snapshot(snapshot_bytes(entries).take(length as int)) matches Err(
            DictionaryFault::Truncated { .. },
        ),
{
    let bytes = snapshot_bytes(entries);
    let values = values_bytes(entry_values(entries));
    lemma_snapshot_shape(entries);
    lemma_short_bytes(bytes, length, 0, 8);
    lemma_short_bytes(bytes, length, 8, 4);
    lemma_short_bytes(bytes, length, 12, 4);
    lemma_short_bytes(bytes, length, 16, 8);
    lemma_short_bytes(bytes, length, 24, 8);
    lemma_short_index(bytes, length, HEADER_LENGTH as nat, entries.len());
    lemma_short_bytes(
        bytes,
        length,
        HEADER_LENGTH as nat + 16 * entries.len(),
        values.len(),
    );
}

/// Input that does not start with the magic bytes is not a dictionary.
pub proof fn lemma_foreign_snapshot_rejected(bytes: Seq<u8>)
    requires
        bytes.len() >= MAGIC@.len(),
        bytes.take(8) != MAGIC@,
    ensures
        parse_snapshot(bytes) == Err::<Seq<(usize, ValueView)>, _>(DictionaryFault::NotADictionary),
{
    assert(bytes.subrange(0, 8) =~= bytes.take(8));
}

/// An encoding with another layout version is rejected, whatever stands behind
/// the version.
pub proof fn lemma_other_snapshot_version_rejected(version: u32, rest: Seq<u8>)
    requires
        version != FORMAT_VERSION,
    ensures
        parse_snapshot(MAGIC@ + (le_bytes(version as nat, 4) + rest)) == Err::<
            Seq<(usize, ValueView)>,
            _,
        >(DictionaryFault::VersionMismatch { found: version, expected: FORMAT_VERSION }),
{
    let bytes = MAGIC@ + (le_bytes(version as nat, 4) + rest);
    assert(bytes.subrange(0, bytes.len() as int) =~= bytes);
    lemma_holds_parts(bytes, 0, MAGIC@, le_bytes(version as nat, 4) + rest);
    lemma_holds_parts(bytes, 8, le_bytes(version as nat, 4), rest);
    lemma_pow256_values();
    lemma_le_round_trip(version as nat, 4);
}

/// An index whose ids do not ascend is never accepted.
pub proof fn lemma_decoded_ids_ascend(bytes: Seq<u8>)
    ensures
        parse_snapshot(bytes) matches Ok(entries) ==> ids_ascend(entries),
{
    if let Ok((count, values_length)) = parse_header(bytes) {
        if let Ok((index, used)) = parse_index(bytes, HEADER_LENGTH as nat, count as nat) {
            if let Ok((values, _)) = parse_bytes(
                bytes,
                HEADER_LENGTH as nat + used,
                values_length as nat,
            ) {
                lemma_entries_ascend(values, index);
            }
        }
    }
}

proof fn lemma_entries_ascend(values: Seq<u8>, index: Seq<(usize, usize)>)
    ensures
        parse_entries(values, index) matches Ok(entries) ==> ids_ascend(entries),
    decreases index.len(),
{
    if index.len() > 0 {
        lemma_entries_ascend(values, index.drop_last());
        if let Ok(entries) = parse_entries(values, index) {
            let front = parse_entries(values, index.drop_last())->Ok_0;
            assert forall|i: int, j: int| 0 <= i < j < entries.len() implies (
            #[trigger] entries[i]).0 < (#[trigger] entries[j]).0 by {
                if j < front.len() {
                    assert(front[i].0 < front[j].0);
                } else if i < front.len() - 1 {
                    assert(front[i].0 < front[front.len() - 1].0);
                }
            }
        }
    }
}

proof fn lemma_lookup_front(entries: Seq<(usize, ValueView)>, id: usize)
    requires
        ids_ascend(entries),
        entries.len() > 0,
    ensures
        ids_ascend(entries.drop_last()),
        lookup(entries.drop_last(), id) == (if id == entries.last().0 {
            None
        } else {
            lookup(entries, id)
        }),
{
    let front = entries.drop_last();
    assert forall|i: int, j: int| 0 <= i < j < front.len() implies (#[trigger] front[i]).0 < (
    #[trigger] front[j]).0 by {
        assert(entries[i].0 < entries[j].0);
    }
    if exists|i: int| 0 <= i < front.len() && (#[trigger] front[i]).0 == id {
        let place = choose|i: int| 0 <= i < front.len() && (#[trigger] front[i]).0 == id;
        lemma_lookup(front, place);
        lemma_lookup(entries, place);
        assert(entries[place].0 < entries[entries.len() - 1].0);
    } else if id != entries.last().0 {
        assert forall|i: int| 0 <= i < entries.len() implies (#[trigger] entries[i]).0 != id by {
            if i < front.len() {
                assert(front[i] == entries[i]);
            }
        }
    }
}

/// Entries with ascending ids that resolve every id alike are the same.
pub proof fn lemma_entries_determined(
    left: Seq<(usize, ValueView)>,
    right: Seq<(usize, ValueView)>,
)
    requires
        ids_ascend(left),
        ids_ascend(right),
        forall|id: usize| #[trigger] lookup(left, id) == lookup(right, id),
    ensures
        left == right,
    decreases left.len(),
{
    if left.len() == 0 {
        if right.len() > 0 {
            lemma_lookup(right, 0);
            assert(lookup(left, right[0].0) is Some);
        }
        assert(left =~= right);
    } else {
        lemma_lookup(left, left.len() - 1);
        assert(lookup(right, left.last().0) is Some);
        let in_right = choose|i: int|
            0 <= i < right.len() && (#[trigger] right[i]).0 == left.last().0;
        lemma_lookup(right, right.len() - 1);
        assert(lookup(left, right.last().0) is Some);
        let in_left = choose|i: int|
            0 <= i < left.len() && (#[trigger] left[i]).0 == right.last().0;
        assert(left.last().0 == right.last().0) by {
            if in_right < right.len() - 1 {
                assert(right[in_right].0 < right[right.len() - 1].0);
                if in_left < left.len() - 1 {
                    assert(left[in_left].0 < left[left.len() - 1].0);
                }
            }
        }
        assert forall|id: usize| #[trigger]
            lookup(left.drop_last(), id) == lookup(right.drop_last(), id) by {
            lemma_lookup_front(left, id);
            lemma_lookup_front(right, id);
            assert(lookup(left, id) == lookup(right, id));
        }
        lemma_lookup_front(left, 0);
        lemma_lookup_front(right, 0);
        lemma_entries_determined(left.drop_last(), right.drop_last());
        assert(left =~= left.drop_last().push(left.last()));
        assert(right =~= right.drop_last().push(right.last()));
    }
}

/// The order in which ids are captured, and how often each is given, does not
/// affect the encoding.
pub proof fn lemma_capture_order_irrelevant(
    left: Seq<(usize, ValueView)>,
    right: Seq<(usize, ValueView)>,
    resolve: spec_fn(usize) -> Option<ValueView>,
    left_ids: Seq<usize>,
    right_ids: Seq<usize>,
)
    requires
        captures(left, resolve, left_ids),
        captures(right, resolve, right_ids),
        forall|id: usize| #[trigger] left_ids.contains(id) <==> right_ids.contains(id),
    ensures
        snapshot_bytes(left) == snapshot_bytes(right),
{
    assert forall|id: usize| #[trigger] lookup(left, id) == lookup(right, id) by {
        assert(left_ids.contains(id) <==> right_ids.contains(id));
    }
    lemma_entries_determined(left, right);
}

/// An index in which an id is not above the one before it is rejected, wherever all
/// that stands in front of it can be read.
pub proof fn lemma_unsorted_index_rejected(values: Seq<u8>, index: Seq<(usize, usize)>, place: int)
    requires
        0 < place < index.len(),
        index[place].0 <= index[place - 1].0,
        parse_entries(values, index.take(place)) is Ok,
    ensures
        parse_entries(values, index) == Err::<Seq<(usize, ValueView)>, _>(
            DictionaryFault::IndexNotSorted,
        ),
{
    let front = index.take(place);
    let now = index.take(place + 1);
    lemma_entry_ids(values, front);
    assert(now.drop_last() =~= front);
    assert(now.last() == index[place]);
    assert(front.last() == index[place - 1]);
    lemma_entries_fault(values, index, place + 1);
}

/// The entries that are read have the ids of the index and the values at its offsets.
pub proof fn lemma_entry_ids(values: Seq<u8>, index: Seq<(usize, usize)>)
    requires
        parse_entries(values, index) is Ok,
    ensures
        parse_entries(values, index) matches Ok(entries) && entries.len() == index.len() && forall|
            i: int,
        |
            0 <= i < index.len() ==> (#[trigger] entries[i]).0 == index[i].0 && index[i].1
                <= values.len() && (parse_value(values, index[i].1 as nat) matches Ok((value, _))
                && value == entries[i].1),
    decreases index.len(),
{
    if index.len() > 0 {
        lemma_entry_ids(values, index.drop_last());
        let entries = parse_entries(values, index)->Ok_0;
        let front = parse_entries(values, index.drop_last())->Ok_0;
        assert forall|i: int| 0 <= i < index.len() implies (#[trigger] entries[i]).0 == index[i].0
            && index[i].1 <= values.len() && (parse_value(values, index[i].1 as nat) matches Ok(
            (value, _),
        ) && value == entries[i].1) by {
            if i < front.len() {
                assert(entries[i] == front[i]);
                assert(index.drop_last()[i] == index[i]);
            }
        }
    }
}

proof fn lemma_index_entry(entries: Seq<(usize, ValueView)>, place: int)
    requires
        0 <= place < entries.len(),
    ensures
        index_bytes(entries).len() == 16 * entries.len(),
        index_bytes(entries).subrange(16 * place, 16 * place + 8) == le_bytes(
            entries[place].0 as nat,
            8,
        ),
        index_bytes(entries).subrange(16 * place + 8, 16 * place + 16) == le_bytes(
            values_bytes(entry_values(entries.take(place))).len(),
            8,
        ),
    decreases entries.len(),
{
    let front = entries.drop_last();
    let last = entries.len() - 1;
    let id = le_bytes(entries.last().0 as nat, 8);
    let offset = le_bytes(values_bytes(entry_values(front)).len(), 8);
    lemma_index_length(entries);
    lemma_index_length(front);
    lemma_le_len(entries.last().0 as nat, 8);
    lemma_le_len(values_bytes(entry_values(front)).len(), 8);
    if place < last {
        lemma_index_entry(front, place);
        assert(front.take(place) =~= entries.take(place));
        assert(index_bytes(entries).subrange(16 * place, 16 * place + 8) =~= index_bytes(
            front,
        ).subrange(16 * place, 16 * place + 8));
        assert(index_bytes(entries).subrange(16 * place + 8, 16 * place + 16) =~= index_bytes(
            front,
        ).subrange(16 * place + 8, 16 * place + 16));
    } else {
        assert(entries.take(place) =~= front);
        assert(index_bytes(entries).subrange(16 * place, 16 * place + 8) =~= id);
        assert(index_bytes(entries).subrange(16 * place + 8, 16 * place + 16) =~= offset);
    }
}

/// Where the parts of an encoded snapshot stand: a mark, the version, the number of
/// entries and the length of the values; then, for each entry, its id and the offset
/// of its value; then the values.
pub proof fn lemma_snapshot_layout(entries: Seq<(usize, ValueView)>, place: int)
    requires
        0 <= place < entries.len(),
    ensures
        ({
            let bytes = snapshot_bytes(entries);
            let values = values_bytes(entry_values(entries));
            let start = 32 + 16 * entries.len();
            let offset = values_bytes(entry_values(entries.take(place))).len();
            &&& bytes.len() == start + values.len()
            &&& bytes.subrange(0, 8) == seq![78u8, 77, 79, 68, 73, 67, 84, 0]
            &&& bytes.subrange(8, 12) == le_bytes(1, 4)
            &&& bytes.subrange(12, 16) == le_bytes(0, 4)
            &&& bytes.subrange(16, 24) == le_bytes(entries.len(), 8)
            &&& bytes.subrange(24, 32) == le_bytes(values.len(), 8)
            &&& bytes.subrange(32 + 16 * place, 40 + 16 * place) == le_bytes(
                entries[place].0 as nat,
                8,
            )
            &&& bytes.subrange(40 + 16 * place, 48 + 16 * place) == le_bytes(offset, 8)
            &&& holds_at(bytes, start + offset, value_bytes(entries[place].1))
        }),
{
    let bytes = snapshot_bytes(entries);
    let values = values_bytes(entry_values(entries));
    let index = index_bytes(entries);
    let version = le_bytes(FORMAT_VERSION as nat, 4);
    let reserved = le_bytes(0, 4);
    let count = le_bytes(entries.len(), 8);
    let length = le_bytes(values.len(), 8);
    let start = 32 + 16 * entries.len();
    let offset = values_bytes(entry_values(entries.take(place))).len();
    lemma_le_len(FORMAT_VERSION as nat, 4);
    lemma_le_len(0, 4);
    lemma_le_len(entries.len(), 8);
    lemma_le_len(values.len(), 8);
    lemma_index_entry(entries, place);
    assert(header_bytes(entries.len(), values.len()).len() == 32);
    assert(bytes.subrange(0, 8) =~= MAGIC@);
    assert(MAGIC@ =~= seq![78u8, 77, 79, 68, 73, 67, 84, 0]);
    assert(bytes.subrange(8, 12) =~= version);
    assert(bytes.subrange(12, 16) =~= reserved);
    assert(bytes.subrange(16, 24) =~= count);
    assert(bytes.subrange(24, 32) =~= length);
    assert(bytes.subrange(32 + 16 * place, 40 + 16 * place) =~= index.subrange(
        16 * place,
        16 * place + 8,
    ));
    assert(bytes.subrange(40 + 16 * place, 48 + 16 * place) =~= index.subrange(
        16 * place + 8,
        16 * place + 16,
    ));
    lemma_value_place(entries, place);
    let value = value_bytes(entries[place].1);
    assert(bytes.subrange((start + offset) as int, (start + offset + value.len()) as int)
        =~= values.subrange(offset as int, (offset + value.len()) as int));
}

proof fn lemma_value_place(entries: Seq<(usize, ValueView)>, place: int)
    requires
        0 <= place < entries.len(),
    ensures
        holds_at(
            values_bytes(entry_values(entries)),
            values_bytes(entry_values(entries.take(place))).len(),
            value_bytes(entries[place].1),
        ),
    decreases entries.len(),
{
    let front = entries.drop_last();
    let all = values_bytes(entry_values(entries));
    let last = entries.len() - 1;
    assert(entry_values(entries).drop_last() =~= entry_values(front));
    assert(entry_values(entries)[last] == entries[last].1);
    assert(all == values_bytes(entry_values(front)) + value_bytes(entries[last].1));
    let before = values_bytes(entry_values(front));
    let value = value_bytes(entries[place].1);
    if place < last {
        lemma_value_place(front, place);
        assert(front.take(place) =~= entries.take(place));
        let offset = values_bytes(entry_values(entries.take(place))).len();
        lemma_holds_longer(before, value_bytes(entries[last].1), offset, value);
    } else {
        assert(entries.take(place) =~= front);
        lemma_holds_behind(before, value);
    }
}

/// What a list of entries says is its ids and what their values say, in their order.
pub proof fn lemma_entries_say_their_parts(entries: Seq<(usize, AnyDataValue)>, place: int)
    ensures
        entries_view(entries).len() == entries.len(),
        0 <= place < entries.len() ==> entries_view(entries)[place].0 == entries[place].0,
        0 <= place < entries.len() ==> entries_view(entries)[place].1 == entries[place].1@,
{
}

} // verus!
