//! Byte encoding for [Trie], so that a materialized table can be written out and
//! read back instead of being recomputed.
//!
//! Every layer is made of columns, so the format is "encode a column" plus a
//! little structure around it. Numbers are little-endian and of fixed width. A
//! run-length column is written as the values it stands for and rebuilt on
//! reading. Every array starts on a multiple of eight bytes.

use vstd::prelude::*;
use vstd::slice::slice_subrange;

use crate::columnar::{
    from_signed_bits, signed_bits, signed_of_bits, to_signed_bits, ColumnEnum, ColumnView, Double,
    Float, RunLengthEncodable,
};
use crate::little_endian::{
    holds_at, le_bytes, le_value, lemma_holds_parts, lemma_le_len, lemma_le_round_trip,
    lemma_pow256_values, push_le, read_le,
};
use crate::tabular::trie::{
    columns_view, layers_view, rows_of, IntervalColumn, IntervalColumnT, IntervalView, LayerView,
    Trie, TrieView,
};
use crate::text::{decimal, decimal_text, reads_at, same_bytes};

verus! {

/// Identifies the encoding. Checked on read, so that a stray file fails loudly
/// rather than being decoded into nonsense.
pub const MAGIC: [u8; 8] = [78, 77, 79, 84, 82, 73, 69, 0];

/// Layout version. Bump on any layout change; consumers put it in a cache key,
/// so an increment invalidates rather than migrates.
pub const FORMAT_VERSION: u32 = 1;

/// Every array in the encoding starts on a multiple of this.
pub const ALIGNMENT: usize = 8;

/// A plain vector.
pub const TAG_VECTOR: u8 = 0;

/// A run-length encoded column.
pub const TAG_RLE: u8 = 1;

/// The number of bytes in front of the first layer.
pub const HEADER_LENGTH: usize = 32;

/// Something went wrong while decoding a [Trie].
///
/// Every variant means that the input is not a trie this build can read.
#[derive(Debug, Clone, Copy, PartialEq, Eq)]
pub enum TrieStorageError {
    /// Input does not begin with [MAGIC].
    NotATrie,
    /// Input was written by a different layout version.
    VersionMismatch {
        /// Version found in the input.
        found: u32,
        /// Version this build writes and reads.
        expected: u32,
    },
    /// Input ended in the middle of a value.
    Truncated {
        /// Byte offset at which more input was required.
        offset: usize,
        /// Number of bytes required there.
        needed: usize,
    },
    /// A discriminant byte held a value this build does not know.
    UnknownColumnTag(u8),
    /// A length or index did not fit in `usize` on this platform.
    ValueOutOfRange(u64),
}

/// What an error is reported as.
pub open spec fn error_text(error: TrieStorageError) -> Seq<char> {
    match error {
        TrieStorageError::NotATrie => "input is not an encoded trie"@,
        TrieStorageError::VersionMismatch {
            found,
            expected,
        } => "encoded trie has layout version "@ + decimal(found as nat) + ", this build reads "@
            + decimal(expected as nat),
        TrieStorageError::Truncated {
            offset,
            needed,
        } => "encoded trie ends prematurely: needed "@ + decimal(needed as nat)
            + " more byte(s) at offset "@ + decimal(offset as nat),
        TrieStorageError::UnknownColumnTag(tag) => "unknown column tag "@ + decimal(tag as nat),
        TrieStorageError::ValueOutOfRange(value) => "encoded value "@ + decimal(value as nat)
            + " does not fit in a pointer on this platform"@,
    }
}

impl TrieStorageError {
    /// What this error is reported as.
    pub fn message(&self) -> (message: String)
        ensures
            message@ == error_text(*self),
    {
        match self {
            TrieStorageError::NotATrie => "input is not an encoded trie".to_owned(),
            TrieStorageError::VersionMismatch { found, expected } => {
                let mut message = "encoded trie has layout version ".to_owned();
                message.append(decimal_text(*found as u128).as_str());
                message.append(", this build reads ");
                message.append(decimal_text(*expected as u128).as_str());
                message
            },
            TrieStorageError::Truncated { offset, needed } => {
                let mut message = "encoded trie ends prematurely: needed ".to_owned();
                message.append(decimal_text(*needed as u128).as_str());
                message.append(" more byte(s) at offset ");
                message.append(decimal_text(*offset as u128).as_str());
                message
            },
            TrieStorageError::UnknownColumnTag(tag) => {
                let mut message = "unknown column tag ".to_owned();
                message.append(decimal_text(*tag as u128).as_str());
                message
            },
            TrieStorageError::ValueOutOfRange(value) => {
                let mut message = "encoded value ".to_owned();
                message.append(decimal_text(*value as u128).as_str());
                message.append(" does not fit in a pointer on this platform");
                message
            },
        }
    }
}

/// The number of bytes from `length` to the next alignment boundary.
pub open spec fn padding(length: nat) -> nat {
    if length % 8 == 0 {
        0
    } else {
        (8 - length % 8) as nat
    }
}

/// `count` zero bytes.
pub open spec fn zeros(count: nat) -> Seq<u8> {
    Seq::new(count, |i: int| 0u8)
}

/// `bytes` and as many zeros as bring them to the next alignment boundary.
pub open spec fn padded(bytes: Seq<u8>) -> Seq<u8> {
    bytes + zeros(padding(bytes.len()))
}

/// Append-only byte sink that keeps arrays aligned.
pub struct Writer {
    pub bytes: Vec<u8>,
}

impl Writer {
    /// A sink that holds nothing yet.
    pub fn new() -> (writer: Self)
        ensures
            writer.bytes@ == Seq::<u8>::empty(),
    {
        Writer { bytes: Vec::new() }
    }

    /// Pads with zeros up to the next alignment boundary.
    pub fn align(&mut self)
        ensures
            final(self).bytes@ == padded(old(self).bytes@),
    {
        let remainder: usize = self.bytes.len() % ALIGNMENT;
        if remainder != 0 {
            let missing: usize = ALIGNMENT - remainder;
            let mut done: usize = 0;
            while done < missing
                invariant
                    done <= missing,
                    self.bytes@ =~= old(self).bytes@ + zeros(done as nat),
                decreases missing - done,
            {
                self.bytes.push(0);
                done = done + 1;
            }
        }
        assert(self.bytes@ =~= padded(old(self).bytes@));
    }

    /// Writes bytes as they are.
    pub fn raw(&mut self, bytes: &[u8])
        ensures
            final(self).bytes@ == old(self).bytes@ + bytes@,
    {
        self.bytes.extend_from_slice(bytes);
    }

    /// Writes a four-byte number.
    pub fn u32(&mut self, value: u32)
        ensures
            final(self).bytes@ == old(self).bytes@ + le_bytes(value as nat, 4),
    {
        push_le(&mut self.bytes, value as u64, 4);
    }

    /// Writes an eight-byte number.
    pub fn u64(&mut self, value: u64)
        ensures
            final(self).bytes@ == old(self).bytes@ + le_bytes(value as nat, 8),
    {
        push_le(&mut self.bytes, value, 8);
    }

    /// Writes a flag, then pads, so that whatever follows stays aligned.
    pub fn flag(&mut self, value: bool)
        ensures
            final(self).bytes@ == padded(old(self).bytes@.push(flag_byte(value))),
    {
        self.bytes.push(
            if value {
                1
            } else {
                0
            },
        );
        self.align();
    }

    /// Writes a tag byte, then pads.
    pub fn tag(&mut self, value: u8)
        ensures
            final(self).bytes@ == padded(old(self).bytes@.push(value)),
    {
        self.bytes.push(value);
        self.align();
    }
}

/// The byte for a flag.
pub open spec fn flag_byte(value: bool) -> u8 {
    if value {
        1
    } else {
        0
    }
}

/// The `count` bytes at `at`. As with the other readings below, success also
/// gives the number of bytes that were read.
pub open spec fn parse_bytes(bytes: Seq<u8>, at: nat, count: nat) -> Result<
    (Seq<u8>, nat),
    TrieStorageError,
> {
    if at + count <= bytes.len() {
        Ok((bytes.subrange(at as int, (at + count) as int), count))
    } else {
        Err(TrieStorageError::Truncated { offset: at as usize, needed: count as usize })
    }
}

/// The padding at `at`.
pub open spec fn parse_padding(bytes: Seq<u8>, at: nat) -> Result<((), nat), TrieStorageError> {
    match parse_bytes(bytes, at, padding(at)) {
        Ok((_, used)) => Ok(((), used)),
        Err(error) => Err(error),
    }
}

/// The four-byte number at `at`.
pub open spec fn parse_u32(bytes: Seq<u8>, at: nat) -> Result<(u32, nat), TrieStorageError> {
    match parse_bytes(bytes, at, 4) {
        Ok((raw, used)) => Ok((le_value(raw) as u32, used)),
        Err(error) => Err(error),
    }
}

/// The eight-byte number at `at`.
pub open spec fn parse_u64(bytes: Seq<u8>, at: nat) -> Result<(u64, nat), TrieStorageError> {
    match parse_bytes(bytes, at, 8) {
        Ok((raw, used)) => Ok((le_value(raw) as u64, used)),
        Err(error) => Err(error),
    }
}

/// A number as a length or index, which must fit in `usize`.
pub open spec fn length_of(value: u64) -> Result<usize, TrieStorageError> {
    if value <= usize::MAX {
        Ok(value as usize)
    } else {
        Err(TrieStorageError::ValueOutOfRange(value))
    }
}

/// The length or index at `at`.
pub open spec fn parse_length(bytes: Seq<u8>, at: nat) -> Result<(usize, nat), TrieStorageError> {
    match parse_u64(bytes, at) {
        Ok((value, used)) => match length_of(value) {
            Ok(length) => Ok((length, used)),
            Err(error) => Err(error),
        },
        Err(error) => Err(error),
    }
}

/// The tag byte at `at` and the padding behind it.
pub open spec fn parse_tag(bytes: Seq<u8>, at: nat) -> Result<(u8, nat), TrieStorageError> {
    match parse_bytes(bytes, at, 1) {
        Ok((raw, used)) => match parse_padding(bytes, at + used) {
            Ok((_, more)) => Ok((raw[0], used + more)),
            Err(error) => Err(error),
        },
        Err(error) => Err(error),
    }
}

/// The flag at `at` and the padding behind it.
pub open spec fn parse_flag(bytes: Seq<u8>, at: nat) -> Result<(bool, nat), TrieStorageError> {
    match parse_tag(bytes, at) {
        Ok((byte, used)) => Ok((byte != 0, used)),
        Err(error) => Err(error),
    }
}

/// Where a failed reading of the length at `at` ends: behind it where it is all
/// there but does not fit in `usize`, and else where it began.
pub open spec fn length_end(bytes: Seq<u8>, at: nat) -> nat {
    match parse_bytes(bytes, at, 8) {
        Ok((_, used)) => at + used,
        Err(_) => at,
    }
}

/// Where a failed reading of the tag at `at` ends: behind the tag where only its
/// padding is cut off, and else where it began.
pub open spec fn tag_end(bytes: Seq<u8>, at: nat) -> nat {
    match parse_bytes(bytes, at, 1) {
        Ok((_, used)) => at + used,
        Err(_) => at,
    }
}

/// Cursor over an encoded trie.
pub struct Reader<'a> {
    pub bytes: &'a [u8],
    pub offset: usize,
}

/// Whether a reading moved the cursor from `before` to `after` and gave `result`
/// as `parsed` says.
pub open spec fn reads<T>(
    before: Reader<'_>,
    after: Reader<'_>,
    parsed: Result<(T, nat), TrieStorageError>,
    result: Result<T, TrieStorageError>,
) -> bool {
    &&& after.bytes@ == before.bytes@
    &&& after.offset <= after.bytes@.len()
    &&& match parsed {
        Ok((value, used)) => result == Ok::<_, TrieStorageError>(value) && after.offset
            == before.offset + used,
        Err(error) => result == Err::<T, _>(error),
    }
}

impl<'a> Reader<'a> {
    /// A cursor at the start of some bytes.
    pub fn new(bytes: &'a [u8]) -> (reader: Self)
        ensures
            reader.bytes@ == bytes@,
            reader.offset == 0,
    {
        Reader { bytes, offset: 0 }
    }

    /// Reads as many bytes as asked for, or none where there are fewer.
    pub fn take(&mut self, count: usize) -> (taken: Result<&'a [u8], TrieStorageError>)
        requires
            old(self).offset <= old(self).bytes@.len(),
        ensures
            final(self).bytes@ == old(self).bytes@,
            final(self).offset <= final(self).bytes@.len(),
            match parse_bytes(old(self).bytes@, old(self).offset as nat, count as nat) {
                Ok((raw, used)) => {
                    &&& taken matches Ok(slice) && slice@ == raw
                    &&& final(self).offset == old(self).offset + used
                },
                Err(error) => taken matches Err(got) && got == error,
            },
            taken is Err ==> final(self).offset == old(self).offset,
    {
        if count > self.bytes.len() - self.offset {
            return Err(TrieStorageError::Truncated { offset: self.offset, needed: count });
        }
        let end: usize = self.offset + count;
        let taken = slice_subrange(self.bytes, self.offset, end);
        self.offset = end;
        Ok(taken)
    }

    /// Skips padding.
    pub fn align(&mut self) -> (skipped: Result<(), TrieStorageError>)
        requires
            old(self).offset <= old(self).bytes@.len(),
        ensures
            reads(
                *old(self),
                *final(self),
                parse_padding(old(self).bytes@, old(self).offset as nat),
                skipped,
            ),
            skipped is Err ==> final(self).offset == old(self).offset,
    {
        let remainder: usize = self.offset % ALIGNMENT;
        if remainder != 0 {
            match self.take(ALIGNMENT - remainder) {
                Ok(_) => {},
                Err(error) => return Err(error),
            }
        }
        Ok(())
    }

    /// Reads a four-byte number.
    pub fn u32(&mut self) -> (value: Result<u32, TrieStorageError>)
        requires
            old(self).offset <= old(self).bytes@.len(),
        ensures
            reads(
                *old(self),
                *final(self),
                parse_u32(old(self).bytes@, old(self).offset as nat),
                value,
            ),
            value is Err ==> final(self).offset == old(self).offset,
    {
        match self.take(4) {
            Ok(raw) => Ok(read_le(raw) as u32),
            Err(error) => Err(error),
        }
    }

    /// Reads an eight-byte number.
    pub fn u64(&mut self) -> (value: Result<u64, TrieStorageError>)
        requires
            old(self).offset <= old(self).bytes@.len(),
        ensures
            reads(
                *old(self),
                *final(self),
                parse_u64(old(self).bytes@, old(self).offset as nat),
                value,
            ),
            value is Err ==> final(self).offset == old(self).offset,
    {
        match self.take(8) {
            Ok(raw) => Ok(read_le(raw)),
            Err(error) => Err(error),
        }
    }

    /// Reads a length or index, rejecting values this platform cannot address.
    pub fn length(&mut self) -> (length: Result<usize, TrieStorageError>)
        requires
            old(self).offset <= old(self).bytes@.len(),
        ensures
            reads(
                *old(self),
                *final(self),
                parse_length(old(self).bytes@, old(self).offset as nat),
                length,
            ),
            length is Err ==> final(self).offset == length_end(
                old(self).bytes@,
                old(self).offset as nat,
            ),
    {
        match self.u64() {
            Ok(value) => to_length(value),
            Err(error) => Err(error),
        }
    }

    /// Reads a flag and skips the padding behind it.
    pub fn flag(&mut self) -> (value: Result<bool, TrieStorageError>)
        requires
            old(self).offset <= old(self).bytes@.len(),
        ensures
            reads(
                *old(self),
                *final(self),
                parse_flag(old(self).bytes@, old(self).offset as nat),
                value,
            ),
            value is Err ==> final(self).offset == tag_end(
                old(self).bytes@,
                old(self).offset as nat,
            ),
    {
        match self.tag() {
            Ok(byte) => Ok(byte != 0),
            Err(error) => Err(error),
        }
    }

    /// Reads a tag byte and skips the padding behind it.
    pub fn tag(&mut self) -> (value: Result<u8, TrieStorageError>)
        requires
            old(self).offset <= old(self).bytes@.len(),
        ensures
            reads(
                *old(self),
                *final(self),
                parse_tag(old(self).bytes@, old(self).offset as nat),
                value,
            ),
            value is Err ==> final(self).offset == tag_end(
                old(self).bytes@,
                old(self).offset as nat,
            ),
    {
        let byte: u8 = match self.take(1) {
            Ok(raw) => raw[0],
            Err(error) => return Err(error),
        };
        match self.align() {
            Ok(_) => Ok(byte),
            Err(error) => Err(error),
        }
    }
}

fn to_length(value: u64) -> (length: Result<usize, TrieStorageError>)
    ensures
        length == length_of(value),
{
    if value <= usize::MAX as u64 {
        Ok(value as usize)
    } else {
        Err(TrieStorageError::ValueOutOfRange(value))
    }
}

/// Fixed-width little-endian encoding for the element types of columns.
pub trait ColumnElement: RunLengthEncodable {
    /// Encoded width in bytes.
    spec fn width() -> nat;

    /// The encoding of this value.
    spec fn element_bytes(self) -> Seq<u8>;

    /// The value that is encoded by as many bytes as the width says.
    spec fn parse_element(bytes: Seq<u8>) -> Result<Self, TrieStorageError>;

    proof fn lemma_width()
        ensures
            0 < Self::width() <= 8,
    ;

    proof fn lemma_element(self)
        ensures
            self.element_bytes().len() == Self::width(),
            Self::parse_element(self.element_bytes()) == Ok::<_, TrieStorageError>(self),
    ;

    /// Encoded width in bytes.
    fn encoded_width() -> (width: usize)
        ensures
            width == Self::width(),
    ;

    /// Appends the encoding of this value.
    fn encode(self, writer: &mut Writer)
        ensures
            final(writer).bytes@ == old(writer).bytes@ + self.element_bytes(),
    ;

    /// Reads a value.
    fn decode(bytes: &[u8]) -> (value: Result<Self, TrieStorageError>)
        requires
            bytes@.len() == Self::width(),
        ensures
            value == Self::parse_element(bytes@),
    ;
}

impl ColumnElement for u32 {
    open spec fn width() -> nat {
        4
    }

    open spec fn element_bytes(self) -> Seq<u8> {
        le_bytes(self as nat, 4)
    }

    open spec fn parse_element(bytes: Seq<u8>) -> Result<u32, TrieStorageError> {
        Ok(le_value(bytes) as u32)
    }

    proof fn lemma_width() {
    }

    proof fn lemma_element(self) {
        lemma_pow256_values();
        lemma_le_round_trip(self as nat, 4);
    }

    fn encoded_width() -> usize {
        4
    }

    fn encode(self, writer: &mut Writer) {
        writer.u32(self);
    }

    fn decode(bytes: &[u8]) -> Result<u32, TrieStorageError> {
        Ok(read_le(bytes) as u32)
    }
}

impl ColumnElement for u64 {
    open spec fn width() -> nat {
        8
    }

    open spec fn element_bytes(self) -> Seq<u8> {
        le_bytes(self as nat, 8)
    }

    open spec fn parse_element(bytes: Seq<u8>) -> Result<u64, TrieStorageError> {
        Ok(le_value(bytes) as u64)
    }

    proof fn lemma_width() {
    }

    proof fn lemma_element(self) {
        lemma_pow256_values();
        lemma_le_round_trip(self as nat, 8);
    }

    fn encoded_width() -> usize {
        8
    }

    fn encode(self, writer: &mut Writer) {
        writer.u64(self);
    }

    fn decode(bytes: &[u8]) -> Result<u64, TrieStorageError> {
        Ok(read_le(bytes))
    }
}

impl ColumnElement for i64 {
    open spec fn width() -> nat {
        8
    }

    open spec fn element_bytes(self) -> Seq<u8> {
        le_bytes(signed_bits(self) as nat, 8)
    }

    open spec fn parse_element(bytes: Seq<u8>) -> Result<i64, TrieStorageError> {
        Ok(signed_of_bits(le_value(bytes) as u64))
    }

    proof fn lemma_width() {
    }

    proof fn lemma_element(self) {
        lemma_pow256_values();
        lemma_le_round_trip(signed_bits(self) as nat, 8);
    }

    fn encoded_width() -> usize {
        8
    }

    fn encode(self, writer: &mut Writer) {
        writer.u64(to_signed_bits(self));
    }

    fn decode(bytes: &[u8]) -> Result<i64, TrieStorageError> {
        Ok(from_signed_bits(read_le(bytes)))
    }
}

/// `usize` is encoded like `u64`; values that this platform cannot address are
/// rejected rather than truncated.
impl ColumnElement for usize {
    open spec fn width() -> nat {
        8
    }

    open spec fn element_bytes(self) -> Seq<u8> {
        le_bytes(self as nat, 8)
    }

    open spec fn parse_element(bytes: Seq<u8>) -> Result<usize, TrieStorageError> {
        length_of(le_value(bytes) as u64)
    }

    proof fn lemma_width() {
    }

    proof fn lemma_element(self) {
        lemma_pow256_values();
        lemma_le_round_trip(self as nat, 8);
    }

    fn encoded_width() -> usize {
        8
    }

    fn encode(self, writer: &mut Writer) {
        writer.u64(self as u64);
    }

    fn decode(bytes: &[u8]) -> Result<usize, TrieStorageError> {
        to_length(read_le(bytes))
    }
}

impl ColumnElement for Float {
    open spec fn width() -> nat {
        4
    }

    open spec fn element_bytes(self) -> Seq<u8> {
        le_bytes(self.bits as nat, 4)
    }

    open spec fn parse_element(bytes: Seq<u8>) -> Result<Float, TrieStorageError> {
        Ok(Float { bits: le_value(bytes) as u32 })
    }

    proof fn lemma_width() {
    }

    proof fn lemma_element(self) {
        lemma_pow256_values();
        lemma_le_round_trip(self.bits as nat, 4);
    }

    fn encoded_width() -> usize {
        4
    }

    fn encode(self, writer: &mut Writer) {
        writer.u32(self.bits);
    }

    fn decode(bytes: &[u8]) -> Result<Float, TrieStorageError> {
        Ok(Float { bits: read_le(bytes) as u32 })
    }
}

impl ColumnElement for Double {
    open spec fn width() -> nat {
        8
    }

    open spec fn element_bytes(self) -> Seq<u8> {
        le_bytes(self.bits as nat, 8)
    }

    open spec fn parse_element(bytes: Seq<u8>) -> Result<Double, TrieStorageError> {
        Ok(Double { bits: le_value(bytes) as u64 })
    }

    proof fn lemma_width() {
    }

    proof fn lemma_element(self) {
        lemma_pow256_values();
        lemma_le_round_trip(self.bits as nat, 8);
    }

    fn encoded_width() -> usize {
        8
    }

    fn encode(self, writer: &mut Writer) {
        writer.u64(self.bits);
    }

    fn decode(bytes: &[u8]) -> Result<Double, TrieStorageError> {
        Ok(Double { bits: read_le(bytes) })
    }
}

/// The encodings of values, one behind the other.
pub open spec fn elements_bytes<T: ColumnElement>(values: Seq<T>) -> Seq<u8>
    decreases values.len(),
{
    if values.len() == 0 {
        Seq::empty()
    } else {
        elements_bytes(values.drop_last()) + values.last().element_bytes()
    }
}

/// The tag of a column.
pub open spec fn column_tag(rle: bool) -> u8 {
    if rle {
        TAG_RLE
    } else {
        TAG_VECTOR
    }
}

/// `out` with a column behind it: `tag | count | values`, each padded.
pub open spec fn with_column<T: ColumnElement>(out: Seq<u8>, column: ColumnView<T>) -> Seq<u8> {
    let tagged = padded(out.push(column_tag(column.rle)));
    let counted = padded(tagged + le_bytes(column.values.len(), 8));
    padded(counted + elements_bytes(column.values))
}

/// The encoding of a column that starts on an alignment boundary.
#[verifier::opaque]
pub open spec fn column_bytes<T: ColumnElement>(column: ColumnView<T>) -> Seq<u8> {
    with_column(Seq::empty(), column)
}

/// The `count` values from `at` on.
pub open spec fn parse_elements<T: ColumnElement>(bytes: Seq<u8>, at: nat, count: nat) -> Result<
    (Seq<T>, nat),
    TrieStorageError,
>
    decreases count,
{
    if count == 0 {
        Ok((Seq::empty(), 0))
    } else {
        match parse_elements::<T>(bytes, at, (count - 1) as nat) {
            Ok((front, used)) => match parse_bytes(bytes, at + used, T::width()) {
                Ok((raw, more)) => match T::parse_element(raw) {
                    Ok(last) => Ok((front.push(last), used + more)),
                    Err(error) => Err(error),
                },
                Err(error) => Err(error),
            },
            Err(error) => Err(error),
        }
    }
}

/// The count, the values and the padding of a column.
pub open spec fn parse_column_values<T: ColumnElement>(bytes: Seq<u8>, at: nat) -> Result<
    (Seq<T>, nat),
    TrieStorageError,
> {
    match parse_length(bytes, at) {
        Ok((count, used)) => match parse_padding(bytes, at + used) {
            Ok((_, skipped)) => match parse_elements::<T>(
                bytes,
                at + used + skipped,
                count as nat,
            ) {
                Ok((values, more)) => match parse_padding(bytes, at + used + skipped + more) {
                    Ok((_, rest)) => Ok((values, used + skipped + more + rest)),
                    Err(error) => Err(error),
                },
                Err(error) => Err(error),
            },
            Err(error) => Err(error),
        },
        Err(error) => Err(error),
    }
}

/// The column at `at`. Its tag is judged when the rest has been read.
#[verifier::opaque]
pub open spec fn parse_column<T: ColumnElement>(bytes: Seq<u8>, at: nat) -> Result<
    (ColumnView<T>, nat),
    TrieStorageError,
> {
    match parse_tag(bytes, at) {
        Ok((tag, used)) => match parse_column_values::<T>(bytes, at + used) {
            Ok((values, more)) => if tag == TAG_VECTOR {
                Ok((ColumnView { rle: false, values }, used + more))
            } else if tag == TAG_RLE {
                Ok((ColumnView { rle: true, values }, used + more))
            } else {
                Err(TrieStorageError::UnknownColumnTag(tag))
            },
            Err(error) => Err(error),
        },
        Err(error) => Err(error),
    }
}

/// Where a failed reading of the `count` values from `at` on ends: before a value
/// that is cut off, and behind one that is all there but is none.
pub open spec fn elements_end<T: ColumnElement>(bytes: Seq<u8>, at: nat, count: nat) -> nat
    decreases count,
{
    if count == 0 {
        at
    } else {
        match parse_elements::<T>(bytes, at, (count - 1) as nat) {
            Ok((_, used)) => match parse_bytes(bytes, at + used, T::width()) {
                Ok((_, more)) => at + used + more,
                Err(_) => at + used,
            },
            Err(_) => elements_end::<T>(bytes, at, (count - 1) as nat),
        }
    }
}

/// Where a failed reading of the count, the values and the padding of a column
/// ends.
pub open spec fn column_values_end<T: ColumnElement>(bytes: Seq<u8>, at: nat) -> nat {
    match parse_length(bytes, at) {
        Ok((count, used)) => match parse_padding(bytes, at + used) {
            Ok((_, skipped)) => match parse_elements::<T>(
                bytes,
                at + used + skipped,
                count as nat,
            ) {
                Ok((_, more)) => at + used + skipped + more,
                Err(_) => elements_end::<T>(bytes, at + used + skipped, count as nat),
            },
            Err(_) => at + used,
        },
        Err(_) => length_end(bytes, at),
    }
}

/// Where a failed reading of the column at `at` ends: behind the last of its parts
/// that is all there. Behind all of them, it is its tag that is unknown.
#[verifier::opaque]
pub open spec fn column_end<T: ColumnElement>(bytes: Seq<u8>, at: nat) -> nat {
    match parse_tag(bytes, at) {
        Ok((_, used)) => match parse_column_values::<T>(bytes, at + used) {
            Ok((_, more)) => at + used + more,
            Err(_) => column_values_end::<T>(bytes, at + used),
        },
        Err(_) => tag_end(bytes, at),
    }
}

/// Appends a column.
pub fn encode_column<T: ColumnElement>(column: &ColumnEnum<T>, writer: &mut Writer)
    ensures
        final(writer).bytes@ == with_column(old(writer).bytes@, column@),
{
    let tag: u8 = match column {
        ColumnEnum::ColumnVector(_) => TAG_VECTOR,
        ColumnEnum::ColumnRle(_) => TAG_RLE,
    };
    let values = column.values();
    writer.tag(tag);
    writer.u64(values.len() as u64);
    writer.align();
    let ghost before = writer.bytes@;
    let mut index: usize = 0;
    assert(writer.bytes@ =~= before + elements_bytes(values@.take(0)));
    while index < values.len()
        invariant
            index <= values@.len(),
            writer.bytes@ == before + elements_bytes(values@.take(index as int)),
        decreases values@.len() - index,
    {
        values[index].encode(writer);
        proof {
            let now = values@.take(index + 1);
            assert(now.drop_last() =~= values@.take(index as int));
            assert(now.last() == values@[index as int]);
            assert(writer.bytes@ =~= before + elements_bytes(now));
        }
        index = index + 1;
    }
    assert(values@.take(index as int) =~= values@);
    writer.align();
}

proof fn lemma_elements_error<T: ColumnElement>(bytes: Seq<u8>, at: nat, count: nat, more: nat)
    requires
        count <= more,
        parse_elements::<T>(bytes, at, count) is Err,
    ensures
        parse_elements::<T>(bytes, at, more) == parse_elements::<T>(bytes, at, count),
        elements_end::<T>(bytes, at, more) == elements_end::<T>(bytes, at, count),
    decreases more,
{
    if count < more {
        lemma_elements_error::<T>(bytes, at, count, (more - 1) as nat);
    }
}

/// Reads values.
fn decode_elements<T: ColumnElement>(reader: &mut Reader<'_>, count: usize) -> (values: Result<
    Vec<T>,
    TrieStorageError,
>)
    requires
        old(reader).offset <= old(reader).bytes@.len(),
    ensures
        final(reader).bytes@ == old(reader).bytes@,
        final(reader).offset <= final(reader).bytes@.len(),
        match parse_elements::<T>(old(reader).bytes@, old(reader).offset as nat, count as nat) {
            Ok((expected, used)) => {
                &&& values matches Ok(read) && read@ == expected
                &&& final(reader).offset == old(reader).offset + used
            },
            Err(error) => {
                &&& values matches Err(got) && got == error
                &&& final(reader).offset == elements_end::<T>(
                    old(reader).bytes@,
                    old(reader).offset as nat,
                    count as nat,
                )
            },
        },
{
    let ghost bytes = reader.bytes@;
    let ghost start = reader.offset as nat;
    let mut values: Vec<T> = Vec::new();
    let mut done: usize = 0;
    while done < count
        invariant
            done <= count,
            reader.bytes@ == bytes,
            bytes == old(reader).bytes@,
            start == old(reader).offset,
            start <= reader.offset <= bytes.len(),
            parse_elements::<T>(bytes, start, done as nat) == Ok::<_, TrieStorageError>(
                (values@, (reader.offset - start) as nat),
            ),
        decreases count - done,
    {
        proof {
            if parse_elements::<T>(bytes, start, (done + 1) as nat) is Err {
                lemma_elements_error::<T>(bytes, start, (done + 1) as nat, count as nat);
            }
        }
        let raw = match reader.take(T::encoded_width()) {
            Ok(raw) => raw,
            Err(error) => return Err(error),
        };
        match T::decode(raw) {
            Ok(value) => values.push(value),
            Err(error) => return Err(error),
        }
        done = done + 1;
    }
    Ok(values)
}

/// Reads a column. A run-length column is rebuilt from the values that it stood
/// for.
pub fn decode_column<T: ColumnElement>(reader: &mut Reader<'_>) -> (column: Result<
    ColumnEnum<T>,
    TrieStorageError,
>)
    requires
        old(reader).offset <= old(reader).bytes@.len(),
    ensures
        final(reader).bytes@ == old(reader).bytes@,
        final(reader).offset <= final(reader).bytes@.len(),
        match parse_column::<T>(old(reader).bytes@, old(reader).offset as nat) {
            Ok((expected, used)) => {
                &&& column matches Ok(read) && read@ == expected
                &&& final(reader).offset == old(reader).offset + used
            },
            Err(error) => {
                &&& column matches Err(got) && got == error
                &&& final(reader).offset == column_end::<T>(
                    old(reader).bytes@,
                    old(reader).offset as nat,
                )
            },
        },
{
    proof {
        reveal(parse_column);
        reveal(column_end);
    }
    let tag: u8 = match reader.tag() {
        Ok(tag) => tag,
        Err(error) => return Err(error),
    };
    let count: usize = match reader.length() {
        Ok(count) => count,
        Err(error) => return Err(error),
    };
    match reader.align() {
        Ok(_) => {},
        Err(error) => return Err(error),
    }
    let values: Vec<T> = match decode_elements(reader, count) {
        Ok(values) => values,
        Err(error) => return Err(error),
    };
    match reader.align() {
        Ok(_) => {},
        Err(error) => return Err(error),
    }
    if tag == TAG_VECTOR {
        Ok(ColumnEnum::ColumnVector(values))
    } else if tag == TAG_RLE {
        Ok(ColumnEnum::rle_from(values))
    } else {
        Err(TrieStorageError::UnknownColumnTag(tag))
    }
}

/// The encodings of columns, one behind the other.
pub open spec fn columns_bytes(columns: Seq<ColumnView<usize>>) -> Seq<u8>
    decreases columns.len(),
{
    if columns.len() == 0 {
        Seq::empty()
    } else {
        columns_bytes(columns.drop_last()) + column_bytes(columns.last())
    }
}

/// The encoding of the values of one storage type in a layer: the data, the
/// starts of the intervals and the lookups.
#[verifier::opaque]
pub open spec fn interval_bytes<T: ColumnElement>(column: IntervalView<T>) -> Seq<u8> {
    column_bytes(column.data) + (column_bytes(column.starts) + columns_bytes(column.lookups))
}

/// The encoding of a layer.
#[verifier::opaque]
pub open spec fn layer_bytes(layer: LayerView) -> Seq<u8> {
    interval_bytes(layer.id32) + (interval_bytes(layer.id64) + (interval_bytes(layer.int64) + (
    interval_bytes(layer.float) + interval_bytes(layer.double))))
}

/// The encodings of layers, one behind the other.
pub open spec fn layers_bytes(layers: Seq<LayerView>) -> Seq<u8>
    decreases layers.len(),
{
    if layers.len() == 0 {
        Seq::empty()
    } else {
        layers_bytes(layers.drop_last()) + layer_bytes(layers.last())
    }
}

/// The encoding of the header.
pub open spec fn header_bytes(arity: nat, empty_row: bool) -> Seq<u8> {
    MAGIC@ + (le_bytes(FORMAT_VERSION as nat, 4) + (le_bytes(0, 4) + (le_bytes(arity, 8) + padded(
        seq![flag_byte(empty_row)],
    ))))
}

/// The encoding of a trie.
pub open spec fn trie_bytes(trie: TrieView) -> Seq<u8> {
    header_bytes(trie.columns.len(), trie.empty_row) + layers_bytes(trie.columns)
}

/// The `count` columns from `at` on.
pub open spec fn parse_columns(bytes: Seq<u8>, at: nat, count: nat) -> Result<
    (Seq<ColumnView<usize>>, nat),
    TrieStorageError,
>
    decreases count,
{
    if count == 0 {
        Ok((Seq::empty(), 0))
    } else {
        match parse_columns(bytes, at, (count - 1) as nat) {
            Ok((front, used)) => match parse_column::<usize>(bytes, at + used) {
                Ok((last, more)) => Ok((front.push(last), used + more)),
                Err(error) => Err(error),
            },
            Err(error) => Err(error),
        }
    }
}

/// The values of one storage type in a layer, at `at`.
#[verifier::opaque]
pub open spec fn parse_interval<T: ColumnElement>(bytes: Seq<u8>, at: nat) -> Result<
    (IntervalView<T>, nat),
    TrieStorageError,
> {
    match parse_column::<T>(bytes, at) {
        Ok((data, used)) => match parse_column::<usize>(bytes, at + used) {
            Ok((starts, more)) => match parse_columns(bytes, at + used + more, 5) {
                Ok((lookups, rest)) => Ok(
                    (IntervalView { data, starts, lookups }, used + more + rest),
                ),
                Err(error) => Err(error),
            },
            Err(error) => Err(error),
        },
        Err(error) => Err(error),
    }
}

/// The layer at `at`.
#[verifier::opaque]
pub open spec fn parse_layer(bytes: Seq<u8>, at: nat) -> Result<
    (LayerView, nat),
    TrieStorageError,
> {
    match parse_interval::<u32>(bytes, at) {
        Ok((id32, a)) => match parse_interval::<u64>(bytes, at + a) {
            Ok((id64, b)) => match parse_interval::<i64>(bytes, at + a + b) {
                Ok((int64, c)) => match parse_interval::<Float>(bytes, at + a + b + c) {
                    Ok((float, d)) => match parse_interval::<Double>(bytes, at + a + b + c + d) {
                        Ok((double, e)) => Ok(
                            (LayerView { id32, id64, int64, float, double }, a + b + c + d + e),
                        ),
                        Err(error) => Err(error),
                    },
                    Err(error) => Err(error),
                },
                Err(error) => Err(error),
            },
            Err(error) => Err(error),
        },
        Err(error) => Err(error),
    }
}

/// The `count` layers from `at` on.
pub open spec fn parse_layers(bytes: Seq<u8>, at: nat, count: nat) -> Result<
    (Seq<LayerView>, nat),
    TrieStorageError,
>
    decreases count,
{
    if count == 0 {
        Ok((Seq::empty(), 0))
    } else {
        match parse_layers(bytes, at, (count - 1) as nat) {
            Ok((front, used)) => match parse_layer(bytes, at + used) {
                Ok((last, more)) => Ok((front.push(last), used + more)),
                Err(error) => Err(error),
            },
            Err(error) => Err(error),
        }
    }
}

/// The number of layers and whether there is an empty row, as the header has it.
pub open spec fn parse_header(bytes: Seq<u8>) -> Result<(usize, bool), TrieStorageError> {
    match parse_bytes(bytes, 0, 8) {
        Ok((magic, _)) => if magic != MAGIC@ {
            Err(TrieStorageError::NotATrie)
        } else {
            match parse_u32(bytes, 8) {
                Ok((version, _)) => if version != FORMAT_VERSION {
                    Err(
                        TrieStorageError::VersionMismatch {
                            found: version,
                            expected: FORMAT_VERSION,
                        },
                    )
                } else {
                    parse_shape(bytes)
                },
                Err(error) => Err(error),
            }
        },
        Err(error) => Err(error),
    }
}

/// What stands behind the version in the header.
pub open spec fn parse_shape(bytes: Seq<u8>) -> Result<(usize, bool), TrieStorageError> {
    match parse_u32(bytes, 12) {
        Ok(_) => match parse_length(bytes, 16) {
            Ok((arity, _)) => match parse_flag(bytes, 24) {
                Ok((empty_row, _)) => Ok((arity, empty_row)),
                Err(error) => Err(error),
            },
            Err(error) => Err(error),
        },
        Err(error) => Err(error),
    }
}

/// The trie that an encoding holds.
pub open spec fn parse_trie(bytes: Seq<u8>) -> Result<TrieView, TrieStorageError> {
    match parse_header(bytes) {
        Ok((arity, empty_row)) => match parse_layers(bytes, HEADER_LENGTH as nat, arity as nat) {
            Ok((columns, _)) => Ok(TrieView { columns, empty_row }),
            Err(error) => Err(error),
        },
        Err(error) => Err(error),
    }
}

proof fn lemma_padding(bytes: Seq<u8>)
    ensures
        padded(bytes).len() % 8 == 0,
        bytes.len() % 8 == 0 ==> padded(bytes) == bytes,
        padding((8 + bytes.len()) as nat) == padding(bytes.len()),
{
    if bytes.len() % 8 == 0 {
        assert(padded(bytes) =~= bytes);
    }
}

proof fn lemma_padded_behind(out: Seq<u8>, bytes: Seq<u8>)
    requires
        out.len() % 8 == 0,
    ensures
        padded(out + bytes) == out + padded(bytes),
        padding((out + bytes).len()) == padding(bytes.len()),
{
    assert((out.len() + bytes.len()) % 8 == bytes.len() % 8);
    assert(padded(out + bytes) =~= out + padded(bytes));
}

/// The parts of the encoding of a column, all of which are aligned.
proof fn lemma_column_parts<T: ColumnElement>(column: ColumnView<T>)
    ensures
        column_bytes(column) == padded(seq![column_tag(column.rle)]) + (le_bytes(
            column.values.len(),
            8,
        ) + padded(elements_bytes(column.values))),
        padded(seq![column_tag(column.rle)]).len() == 8,
        column_bytes(column).len() % 8 == 0,
{
    reveal(column_bytes);
    let empty = Seq::<u8>::empty();
    let tag = column_tag(column.rle);
    let count = le_bytes(column.values.len(), 8);
    let values = elements_bytes(column.values);
    lemma_le_len(column.values.len(), 8);
    assert(empty.push(tag) =~= seq![tag]);
    let tagged = padded(seq![tag]);
    lemma_padding(tagged + count);
    assert(padded(tagged + count) == tagged + count);
    lemma_padded_behind(tagged + count, values);
    lemma_padding(tagged + count + values);
    assert(column_bytes(column) =~= tagged + (count + padded(values)));
}

/// A column behind aligned bytes is encoded as it is by itself.
proof fn lemma_with_column<T: ColumnElement>(out: Seq<u8>, column: ColumnView<T>)
    requires
        out.len() % 8 == 0,
    ensures
        with_column(out, column) == out + column_bytes(column),
        (out + column_bytes(column)).len() % 8 == 0,
{
    let tag = column_tag(column.rle);
    let count = le_bytes(column.values.len(), 8);
    let values = elements_bytes(column.values);
    lemma_column_parts(column);
    lemma_le_len(column.values.len(), 8);
    lemma_padded_behind(out, seq![tag]);
    assert(out.push(tag) =~= out + seq![tag]);
    let tagged = out + padded(seq![tag]);
    lemma_padding(tagged + count);
    lemma_padded_behind(tagged + count, values);
    assert(with_column(out, column) == tagged + count + padded(values));
    assert(with_column(out, column) =~= out + column_bytes(column));
}

/// Every array starts on a multiple of the alignment: the encoding of a column
/// has its values behind sixteen bytes, and is itself followed by no odd bytes;
/// and so are the header and every layer.
pub proof fn lemma_arrays_aligned<T: ColumnElement>(
    column: ColumnView<T>,
    interval: IntervalView<T>,
    trie: TrieView,
)
    ensures
        column_bytes(column).len() % ALIGNMENT as nat == 0,
        holds_at(column_bytes(column), 16, elements_bytes(column.values)),
        interval_bytes(interval).len() % ALIGNMENT as nat == 0,
        header_bytes(trie.columns.len(), trie.empty_row).len() % ALIGNMENT as nat == 0,
        trie_bytes(trie).len() % ALIGNMENT as nat == 0,
{
    lemma_column_parts(column);
    lemma_le_len(column.values.len(), 8);
    let values = elements_bytes(column.values);
    assert(column_bytes(column).subrange(16, (16 + values.len()) as int) =~= values);
    lemma_interval_aligned(interval);
    lemma_header_length(trie.columns.len(), trie.empty_row);
    lemma_layers_aligned(trie.columns);
}

proof fn lemma_columns_aligned(columns: Seq<ColumnView<usize>>)
    ensures
        columns_bytes(columns).len() % 8 == 0,
    decreases columns.len(),
{
    if columns.len() > 0 {
        lemma_columns_aligned(columns.drop_last());
        lemma_column_parts(columns.last());
    }
}

proof fn lemma_interval_aligned<T: ColumnElement>(column: IntervalView<T>)
    ensures
        interval_bytes(column).len() % 8 == 0,
        interval_bytes(column).len() > 0,
{
    reveal(interval_bytes);
    lemma_column_parts(column.data);
    lemma_column_parts(column.starts);
    lemma_columns_aligned(column.lookups);
}

proof fn lemma_layer_aligned(layer: LayerView)
    ensures
        layer_bytes(layer).len() % 8 == 0,
        layer_bytes(layer).len() > 0,
{
    reveal(layer_bytes);
    lemma_interval_aligned(layer.id32);
    lemma_interval_aligned(layer.id64);
    lemma_interval_aligned(layer.int64);
    lemma_interval_aligned(layer.float);
    lemma_interval_aligned(layer.double);
}

proof fn lemma_layers_aligned(layers: Seq<LayerView>)
    ensures
        layers_bytes(layers).len() % 8 == 0,
        layers.len() <= layers_bytes(layers).len(),
    decreases layers.len(),
{
    if layers.len() > 0 {
        lemma_layers_aligned(layers.drop_last());
        lemma_layer_aligned(layers.last());
    }
}

proof fn lemma_header_length(arity: nat, empty_row: bool)
    ensures
        header_bytes(arity, empty_row).len() == HEADER_LENGTH,
{
    lemma_le_len(FORMAT_VERSION as nat, 4);
    lemma_le_len(0, 4);
    lemma_le_len(arity, 8);
}

/// Appends the values of one storage type in a layer.
fn encode_interval<T: ColumnElement>(column: &IntervalColumn<T>, writer: &mut Writer)
    requires
        old(writer).bytes@.len() % 8 == 0,
    ensures
        final(writer).bytes@ == old(writer).bytes@ + interval_bytes(column@),
        final(writer).bytes@.len() % 8 == 0,
{
    let ghost before = writer.bytes@;
    let ghost front = column_bytes(column.data@) + column_bytes(column.interval_starts@);
    let ghost lookups = columns_view(column.lookups@);
    proof {
        reveal(interval_bytes);
        lemma_with_column(before, column.data@);
        lemma_with_column(before + column_bytes(column.data@), column.interval_starts@);
        lemma_interval_aligned(column@);
    }
    encode_column(&column.data, writer);
    encode_column(&column.interval_starts, writer);
    assert(writer.bytes@ =~= before + front + columns_bytes(lookups.take(0)));
    let mut index: usize = 0;
    while index < 5
        invariant
            index <= 5,
            lookups == columns_view(column.lookups@),
            writer.bytes@ == before + front + columns_bytes(lookups.take(index as int)),
            writer.bytes@.len() % 8 == 0,
        decreases 5 - index,
    {
        proof {
            let now = lookups.take(index + 1);
            assert(now.drop_last() =~= lookups.take(index as int));
            assert(now.last() == column.lookups@[index as int]@);
            lemma_with_column(writer.bytes@, column.lookups@[index as int]@);
        }
        let ghost out = writer.bytes@;
        encode_column(&column.lookups[index], writer);
        index = index + 1;
        assert(writer.bytes@ =~= before + front + columns_bytes(lookups.take(index as int)));
    }
    assert(lookups.take(5) =~= lookups);
    assert(writer.bytes@ =~= before + interval_bytes(column@));
}

impl IntervalColumnT {
    /// Appends this layer.
    fn encode_into(&self, writer: &mut Writer)
        requires
            old(writer).bytes@.len() % 8 == 0,
        ensures
            final(writer).bytes@ == old(writer).bytes@ + layer_bytes(self@),
            final(writer).bytes@.len() % 8 == 0,
    {
        encode_interval(&self.id32, writer);
        encode_interval(&self.id64, writer);
        encode_interval(&self.int64, writer);
        encode_interval(&self.float, writer);
        encode_interval(&self.double, writer);
        proof {
            reveal(layer_bytes);
        }
        assert(writer.bytes@ =~= old(writer).bytes@ + layer_bytes(self@));
    }

    /// Reads a layer.
    fn decode_from(reader: &mut Reader<'_>) -> (layer: Result<Self, TrieStorageError>)
        requires
            old(reader).offset <= old(reader).bytes@.len(),
        ensures
            final(reader).bytes@ == old(reader).bytes@,
            final(reader).offset <= final(reader).bytes@.len(),
            match parse_layer(old(reader).bytes@, old(reader).offset as nat) {
                Ok((expected, used)) => {
                    &&& layer matches Ok(read) && read@ == expected
                    &&& final(reader).offset == old(reader).offset + used
                },
                Err(error) => layer matches Err(got) && got == error,
            },
    {
        proof {
            reveal(parse_layer);
        }
        let id32 = match decode_interval(reader) {
            Ok(column) => column,
            Err(error) => return Err(error),
        };
        let id64 = match decode_interval(reader) {
            Ok(column) => column,
            Err(error) => return Err(error),
        };
        let int64 = match decode_interval(reader) {
            Ok(column) => column,
            Err(error) => return Err(error),
        };
        let float = match decode_interval(reader) {
            Ok(column) => column,
            Err(error) => return Err(error),
        };
        let double = match decode_interval(reader) {
            Ok(column) => column,
            Err(error) => return Err(error),
        };
        Ok(IntervalColumnT { id32, id64, int64, float, double })
    }
}

/// Reads the values of one storage type in a layer.
fn decode_interval<T: ColumnElement>(reader: &mut Reader<'_>) -> (column: Result<
    IntervalColumn<T>,
    TrieStorageError,
>)
    requires
        old(reader).offset <= old(reader).bytes@.len(),
    ensures
        final(reader).bytes@ == old(reader).bytes@,
        final(reader).offset <= final(reader).bytes@.len(),
        match parse_interval::<T>(old(reader).bytes@, old(reader).offset as nat) {
            Ok((expected, used)) => {
                &&& column matches Ok(read) && read@ == expected
                &&& final(reader).offset == old(reader).offset + used
            },
            Err(error) => column matches Err(got) && got == error,
        },
{
    proof {
        reveal(parse_interval);
        reveal_with_fuel(parse_columns, 6);
    }
    let data: ColumnEnum<T> = match decode_column(reader) {
        Ok(column) => column,
        Err(error) => return Err(error),
    };
    let interval_starts: ColumnEnum<usize> = match decode_column(reader) {
        Ok(column) => column,
        Err(error) => return Err(error),
    };
    let id32: ColumnEnum<usize> = match decode_column(reader) {
        Ok(column) => column,
        Err(error) => return Err(error),
    };
    let id64: ColumnEnum<usize> = match decode_column(reader) {
        Ok(column) => column,
        Err(error) => return Err(error),
    };
    let int64: ColumnEnum<usize> = match decode_column(reader) {
        Ok(column) => column,
        Err(error) => return Err(error),
    };
    let float: ColumnEnum<usize> = match decode_column(reader) {
        Ok(column) => column,
        Err(error) => return Err(error),
    };
    let double: ColumnEnum<usize> = match decode_column(reader) {
        Ok(column) => column,
        Err(error) => return Err(error),
    };
    let ghost views = seq![id32@, id64@, int64@, float@, double@];
    assert(Seq::<ColumnView<usize>>::empty().push(id32@).push(id64@).push(int64@).push(float@).push(
        double@,
    ) =~= views);
    let column = IntervalColumn { data, interval_starts, lookups: [id32, id64, int64, float, double] };
    assert(columns_view(column.lookups@) =~= views);
    Ok(column)
}

proof fn lemma_layers_error(bytes: Seq<u8>, at: nat, count: nat, more: nat)
    requires
        count <= more,
        parse_layers(bytes, at, count) is Err,
    ensures
        parse_layers(bytes, at, more) == parse_layers(bytes, at, count),
    decreases more,
{
    if count < more {
        lemma_layers_error(bytes, at, count, (more - 1) as nat);
    }
}

impl Trie {
    /// Encodes this trie into a byte buffer.
    pub fn encode(&self) -> (bytes: Vec<u8>)
        ensures
            bytes@ == trie_bytes(self@),
    {
        let mut writer = Writer::new();
        writer.raw(&MAGIC);
        writer.u32(FORMAT_VERSION);
        writer.u32(0);
        writer.u64(self.columns.len() as u64);
        let ghost before = writer.bytes@;
        let ghost views = layers_view(self.columns@);
        proof {
            lemma_le_len(FORMAT_VERSION as nat, 4);
            lemma_le_len(0, 4);
            lemma_le_len(self.columns@.len(), 8);
            lemma_padded_behind(before, seq![flag_byte(self.empty_row)]);
            assert(before.push(flag_byte(self.empty_row)) =~= before + seq![
                flag_byte(self.empty_row),
            ]);
        }
        writer.flag(self.empty_row);
        let ghost header = header_bytes(views.len(), self.empty_row);
        assert(writer.bytes@ =~= header);
        proof {
            lemma_header_length(views.len(), self.empty_row);
        }
        assert(writer.bytes@ =~= header + layers_bytes(views.take(0)));
        let mut index: usize = 0;
        while index < self.columns.len()
            invariant
                index <= self.columns@.len(),
                views == layers_view(self.columns@),
                writer.bytes@ == header + layers_bytes(views.take(index as int)),
                writer.bytes@.len() % 8 == 0,
            decreases self.columns@.len() - index,
        {
            proof {
                let now = views.take(index + 1);
                assert(now.drop_last() =~= views.take(index as int));
                assert(now.last() == self.columns@[index as int]@);
            }
            self.columns[index].encode_into(&mut writer);
            index = index + 1;
            assert(writer.bytes@ =~= header + layers_bytes(views.take(index as int)));
        }
        assert(views.take(index as int) =~= views);
        writer.bytes
    }

    /// Decodes a trie produced by [Trie::encode].
    pub fn decode(bytes: &[u8]) -> (trie: Result<Self, TrieStorageError>)
        ensures
            match parse_trie(bytes@) {
                Ok(expected) => trie matches Ok(read) && read@ == expected,
                Err(error) => trie matches Err(got) && got == error,
            },
    {
        let mut reader = Reader::new(bytes);
        match reader.take(8) {
            Ok(magic) => if !same_bytes(magic, &MAGIC) {
                return Err(TrieStorageError::NotATrie);
            },
            Err(error) => return Err(error),
        }
        match reader.u32() {
            Ok(version) => if version != FORMAT_VERSION {
                return Err(
                    TrieStorageError::VersionMismatch { found: version, expected: FORMAT_VERSION },
                );
            },
            Err(error) => return Err(error),
        }
        match reader.u32() {
            Ok(_) => {},
            Err(error) => return Err(error),
        }
        let arity: usize = match reader.length() {
            Ok(arity) => arity,
            Err(error) => return Err(error),
        };
        let empty_row = match reader.flag() {
            Ok(flag) => flag,
            Err(error) => return Err(error),
        };
        assert(parse_header(bytes@) == Ok::<_, TrieStorageError>((arity, empty_row)));
        let ghost start = HEADER_LENGTH as nat;
        assert(reader.offset == start);
        let mut columns: Vec<IntervalColumnT> = Vec::new();
        let mut index: usize = 0;
        assert(layers_view(columns@) =~= Seq::<LayerView>::empty());
        while index < arity
            invariant
                index <= arity,
                reader.bytes@ == bytes@,
                start == HEADER_LENGTH,
                start <= reader.offset <= bytes@.len(),
                parse_header(bytes@) == Ok::<_, TrieStorageError>((arity, empty_row)),
                parse_layers(bytes@, start, index as nat) == Ok::<_, TrieStorageError>(
                    (layers_view(columns@), (reader.offset - start) as nat),
                ),
            decreases arity - index,
        {
            let ghost before = columns@;
            match IntervalColumnT::decode_from(&mut reader) {
                Ok(layer) => {
                    columns.push(layer);
                    assert(layers_view(columns@) =~= layers_view(before).push(layer@));
                },
                Err(error) => {
                    proof {
                        lemma_layers_error(bytes@, start, (index + 1) as nat, arity as nat);
                    }
                    return Err(error);
                },
            }
            index = index + 1;
        }
        Ok(Trie::new(columns, empty_row))
    }
}

proof fn lemma_parse_length(bytes: Seq<u8>, at: nat, value: nat)
    requires
        value <= usize::MAX,
        holds_at(bytes, at, le_bytes(value, 8)),
    ensures
        parse_length(bytes, at) == Ok::<_, TrieStorageError>((value as usize, 8nat)),
{
    lemma_pow256_values();
    lemma_le_round_trip(value, 8);
}

proof fn lemma_parse_tag(bytes: Seq<u8>, at: nat, tag: u8)
    requires
        at % 8 == 0,
        holds_at(bytes, at, padded(seq![tag])),
    ensures
        parse_tag(bytes, at) == Ok::<_, TrieStorageError>((tag, 8nat)),
{
    let part = padded(seq![tag]);
    assert(part.len() == 8);
    assert(bytes.subrange(at as int, (at + 8) as int)[0] == part[0]);
    assert(part[0] == tag);
    assert((at + 1) % 8 == 1);
}

proof fn lemma_elements_length<T: ColumnElement>(values: Seq<T>)
    ensures
        values.len() <= elements_bytes(values).len(),
    decreases values.len(),
{
    if values.len() > 0 {
        lemma_elements_length(values.drop_last());
        values.last().lemma_element();
        T::lemma_width();
    }
}

proof fn lemma_elements_round_trip<T: ColumnElement>(bytes: Seq<u8>, at: nat, values: Seq<T>)
    requires
        holds_at(bytes, at, elements_bytes(values)),
    ensures
        parse_elements::<T>(bytes, at, values.len()) == Ok::<_, TrieStorageError>(
            (values, elements_bytes(values).len()),
        ),
    decreases values.len(),
{
    if values.len() > 0 {
        let front = values.drop_last();
        let last = values.last();
        lemma_holds_parts(bytes, at, elements_bytes(front), last.element_bytes());
        lemma_elements_round_trip(bytes, at, front);
        last.lemma_element();
        assert(front.push(last) =~= values);
    } else {
        assert(values =~= Seq::<T>::empty());
    }
}

/// Padding is read where it stands; which bytes it holds does not matter.
proof fn lemma_parse_padding(bytes: Seq<u8>, at: nat, fill: nat)
    requires
        (at + fill) % 8 == 0,
        fill < 8,
        at + fill <= bytes.len(),
    ensures
        parse_padding(bytes, at) == Ok::<_, TrieStorageError>(((), fill)),
{
    assert(padding(at) == fill);
}

proof fn lemma_values_parts<T: ColumnElement>(bytes: Seq<u8>, at: nat, values: Seq<T>)
    requires
        bytes.len() <= usize::MAX,
        holds_at(bytes, at, le_bytes(values.len(), 8) + padded(elements_bytes(values))),
    ensures
        values.len() <= usize::MAX,
        holds_at(bytes, at, le_bytes(values.len(), 8)),
        holds_at(bytes, at + 8, elements_bytes(values)),
        at + 8 + padded(elements_bytes(values)).len() <= bytes.len(),
{
    let elements = elements_bytes(values);
    lemma_le_len(values.len(), 8);
    lemma_holds_parts(bytes, at, le_bytes(values.len(), 8), padded(elements));
    lemma_holds_parts(bytes, at + 8, elements, zeros(padding(elements.len())));
    lemma_elements_length(values);
}

/// The values of a column are read from their parts.
proof fn lemma_parse_values<T: ColumnElement>(
    bytes: Seq<u8>,
    at: nat,
    values: Seq<T>,
    used: nat,
    fill: nat,
)
    requires
        values.len() <= usize::MAX,
        parse_length(bytes, at) == Ok::<_, TrieStorageError>((values.len() as usize, 8nat)),
        parse_padding(bytes, at + 8) == Ok::<_, TrieStorageError>(((), 0nat)),
        parse_elements::<T>(bytes, at + 8, values.len()) == Ok::<_, TrieStorageError>(
            (values, used),
        ),
        parse_padding(bytes, at + 8 + used) == Ok::<_, TrieStorageError>(((), fill)),
    ensures
        parse_column_values::<T>(bytes, at) == Ok::<_, TrieStorageError>(
            (values, 8 + used + fill),
        ),
{
}

proof fn lemma_fill(at: nat, used: nat)
    requires
        at % 8 == 0,
    ensures
        (at + 8) % 8 == 0,
        padding(used) < 8,
        (at + 8 + used + padding(used)) % 8 == 0,
{
}

proof fn lemma_values_round_trip<T: ColumnElement>(bytes: Seq<u8>, at: nat, values: Seq<T>)
    requires
        at % 8 == 0,
        values.len() <= usize::MAX,
        holds_at(bytes, at, le_bytes(values.len(), 8)),
        holds_at(bytes, at + 8, elements_bytes(values)),
        at + 8 + elements_bytes(values).len() + padding(elements_bytes(values).len())
            <= bytes.len(),
    ensures
        parse_column_values::<T>(bytes, at) == Ok::<_, TrieStorageError>(
            (values, 8 + elements_bytes(values).len() + padding(elements_bytes(values).len())),
        ),
{
    let used = elements_bytes(values).len();
    let fill = padding(used);
    lemma_fill(at, used);
    assert(parse_length(bytes, at) == Ok::<_, TrieStorageError>((values.len() as usize, 8nat))) by {
        lemma_parse_length(bytes, at, values.len());
    }
    assert(parse_padding(bytes, at + 8) == Ok::<_, TrieStorageError>(((), 0nat))) by {
        lemma_parse_padding(bytes, at + 8, 0);
    }
    assert(parse_elements::<T>(bytes, at + 8, values.len()) == Ok::<_, TrieStorageError>(
        (values, used),
    )) by {
        lemma_elements_round_trip(bytes, at + 8, values);
    }
    assert(parse_padding(bytes, at + 8 + used) == Ok::<_, TrieStorageError>(((), fill))) by {
        lemma_parse_padding(bytes, at + 8 + used, fill);
    }
    lemma_parse_values(bytes, at, values, used, fill);
}

/// A column can be read wherever its encoding stands aligned.
pub proof fn lemma_column_round_trip<T: ColumnElement>(
    bytes: Seq<u8>,
    at: nat,
    column: ColumnView<T>,
)
    requires
        bytes.len() <= usize::MAX,
        at % 8 == 0,
        holds_at(bytes, at, column_bytes(column)),
    ensures
        parse_column::<T>(bytes, at) == Ok::<_, TrieStorageError>(
            (column, column_bytes(column).len()),
        ),
        column_bytes(column).len() % 8 == 0,
{
    let tagged = padded(seq![column_tag(column.rle)]);
    let rest = le_bytes(column.values.len(), 8) + padded(elements_bytes(column.values));
    lemma_column_parts(column);
    lemma_le_len(column.values.len(), 8);
    lemma_holds_parts(bytes, at, tagged, rest);
    lemma_parse_tag(bytes, at, column_tag(column.rle));
    lemma_values_parts(bytes, at + 8, column.values);
    lemma_values_round_trip(bytes, at + 8, column.values);
    assert(column_bytes(column).len() == 8 + rest.len());
    assert(parse_column::<T>(bytes, at) == Ok::<_, TrieStorageError>(
        (column, column_bytes(column).len()),
    )) by {
        reveal(parse_column);
    }
}

/// A column that was written behind aligned bytes is read back from there, whatever
/// follows it: the same values in the same order and in the same form, up to where
/// its encoding ends, which is again aligned.
pub proof fn lemma_column_decodes<T: ColumnElement>(
    out: Seq<u8>,
    column: ColumnView<T>,
    rest: Seq<u8>,
)
    requires
        out.len() % ALIGNMENT as nat == 0,
        (with_column(out, column) + rest).len() <= usize::MAX,
    ensures
        out.len() <= with_column(out, column).len(),
        with_column(out, column).take(out.len() as int) == out,
        with_column(out, column).len() % ALIGNMENT as nat == 0,
        parse_column::<T>(with_column(out, column) + rest, out.len()) == Ok::<_, TrieStorageError>(
            (column, (with_column(out, column).len() - out.len()) as nat),
        ),
{
    let encoded = column_bytes(column);
    let bytes = with_column(out, column) + rest;
    lemma_with_column(out, column);
    assert(with_column(out, column).take(out.len() as int) =~= out);
    assert(bytes.subrange(out.len() as int, (out.len() + encoded.len()) as int) =~= encoded);
    lemma_column_round_trip(bytes, out.len(), column);
}

proof fn lemma_columns_round_trip(bytes: Seq<u8>, at: nat, columns: Seq<ColumnView<usize>>)
    requires
        bytes.len() <= usize::MAX,
        at % 8 == 0,
        holds_at(bytes, at, columns_bytes(columns)),
    ensures
        parse_columns(bytes, at, columns.len()) == Ok::<_, TrieStorageError>(
            (columns, columns_bytes(columns).len()),
        ),
    decreases columns.len(),
{
    if columns.len() > 0 {
        let front = columns.drop_last();
        let last = columns.last();
        lemma_holds_parts(bytes, at, columns_bytes(front), column_bytes(last));
        lemma_columns_aligned(front);
        lemma_columns_round_trip(bytes, at, front);
        lemma_column_round_trip(bytes, at + columns_bytes(front).len(), last);
        assert(front.push(last) =~= columns);
    } else {
        assert(columns =~= Seq::<ColumnView<usize>>::empty());
    }
}

proof fn lemma_interval_round_trip<T: ColumnElement>(
    bytes: Seq<u8>,
    at: nat,
    column: IntervalView<T>,
)
    requires
        bytes.len() <= usize::MAX,
        at % 8 == 0,
        column.lookups.len() == 5,
        holds_at(bytes, at, interval_bytes(column)),
    ensures
        parse_interval::<T>(bytes, at) == Ok::<_, TrieStorageError>(
            (column, interval_bytes(column).len()),
        ),
        interval_bytes(column).len() % 8 == 0,
{
    reveal(interval_bytes);
    reveal(parse_interval);
    let data = column_bytes(column.data);
    let starts = column_bytes(column.starts);
    let lookups = columns_bytes(column.lookups);
    lemma_interval_aligned(column);
    lemma_holds_parts(bytes, at, data, starts + lookups);
    lemma_column_round_trip(bytes, at, column.data);
    lemma_holds_parts(bytes, at + data.len(), starts, lookups);
    lemma_column_round_trip(bytes, at + data.len(), column.starts);
    lemma_columns_round_trip(bytes, at + data.len() + starts.len(), column.lookups);
}

/// Whether every column of a layer has a lookup for each storage type.
pub open spec fn has_lookups(layer: LayerView) -> bool {
    &&& layer.id32.lookups.len() == 5
    &&& layer.id64.lookups.len() == 5
    &&& layer.int64.lookups.len() == 5
    &&& layer.float.lookups.len() == 5
    &&& layer.double.lookups.len() == 5
}

proof fn lemma_layer_round_trip(bytes: Seq<u8>, at: nat, layer: LayerView)
    requires
        bytes.len() <= usize::MAX,
        at % 8 == 0,
        has_lookups(layer),
        holds_at(bytes, at, layer_bytes(layer)),
    ensures
        parse_layer(bytes, at) == Ok::<_, TrieStorageError>((layer, layer_bytes(layer).len())),
{
    reveal(layer_bytes);
    reveal(parse_layer);
    let a = interval_bytes(layer.id32);
    let b = interval_bytes(layer.id64);
    let c = interval_bytes(layer.int64);
    let d = interval_bytes(layer.float);
    let e = interval_bytes(layer.double);
    lemma_holds_parts(bytes, at, a, b + (c + (d + e)));
    lemma_interval_round_trip(bytes, at, layer.id32);
    let after_a = at + a.len();
    lemma_holds_parts(bytes, after_a, b, c + (d + e));
    lemma_interval_round_trip(bytes, after_a, layer.id64);
    let after_b = after_a + b.len();
    lemma_holds_parts(bytes, after_b, c, d + e);
    lemma_interval_round_trip(bytes, after_b, layer.int64);
    let after_c = after_b + c.len();
    lemma_holds_parts(bytes, after_c, d, e);
    lemma_interval_round_trip(bytes, after_c, layer.float);
    lemma_interval_round_trip(bytes, after_c + d.len(), layer.double);
}

proof fn lemma_layers_round_trip(bytes: Seq<u8>, at: nat, layers: Seq<LayerView>)
    requires
        bytes.len() <= usize::MAX,
        at % 8 == 0,
        forall|i: int| 0 <= i < layers.len() ==> has_lookups(#[trigger] layers[i]),
        holds_at(bytes, at, layers_bytes(layers)),
    ensures
        parse_layers(bytes, at, layers.len()) == Ok::<_, TrieStorageError>(
            (layers, layers_bytes(layers).len()),
        ),
    decreases layers.len(),
{
    if layers.len() > 0 {
        let front = layers.drop_last();
        let last = layers[layers.len() - 1];
        lemma_holds_parts(bytes, at, layers_bytes(front), layer_bytes(last));
        lemma_layers_aligned(front);
        assert forall|i: int| 0 <= i < front.len() implies has_lookups(#[trigger] front[i]) by {
            assert(front[i] == layers[i]);
        }
        lemma_layers_round_trip(bytes, at, front);
        lemma_layer_round_trip(bytes, at + layers_bytes(front).len(), last);
        assert(front.push(last) =~= layers);
    } else {
        assert(layers =~= Seq::<LayerView>::empty());
    }
}

proof fn lemma_header_round_trip(bytes: Seq<u8>, arity: nat, empty_row: bool)
    requires
        arity <= usize::MAX,
        holds_at(bytes, 0, header_bytes(arity, empty_row)),
    ensures
        parse_header(bytes) == Ok::<_, TrieStorageError>((arity as usize, empty_row)),
{
    let version = le_bytes(FORMAT_VERSION as nat, 4);
    let flag = padded(seq![flag_byte(empty_row)]);
    lemma_le_len(arity, 8);
    lemma_pow256_values();
    lemma_le_round_trip(FORMAT_VERSION as nat, 4);
    lemma_le_round_trip(0, 4);
    lemma_holds_parts(bytes, 0, MAGIC@, version + (le_bytes(0, 4) + (le_bytes(arity, 8) + flag)));
    lemma_holds_parts(bytes, 8, version, le_bytes(0, 4) + (le_bytes(arity, 8) + flag));
    lemma_holds_parts(bytes, 12, le_bytes(0, 4), le_bytes(arity, 8) + flag);
    lemma_holds_parts(bytes, 16, le_bytes(arity, 8), flag);
    lemma_parse_length(bytes, 16, arity);
    lemma_parse_tag(bytes, 24, flag_byte(empty_row));
}

/// Whether a trie is one that can be: every column of every layer has a lookup
/// for each storage type.
pub open spec fn proper(trie: TrieView) -> bool {
    forall|i: int| 0 <= i < trie.columns.len() ==> has_lookups(#[trigger] trie.columns[i])
}

/// Every trie is proper.
pub proof fn lemma_tries_are_proper(trie: Trie)
    ensures
        proper(trie@),
{
    assert forall|i: int| 0 <= i < trie@.columns.len() implies has_lookups(
        #[trigger] trie@.columns[i],
    ) by {
        let layer = trie.columns@[i];
        assert(layer.id32.lookups@.len() == 5);
        assert(layer.id64.lookups@.len() == 5);
        assert(layer.int64.lookups@.len() == 5);
        assert(layer.float.lookups@.len() == 5);
        assert(layer.double.lookups@.len() == 5);
    }
}

/// Decoding what was encoded gives the trie back: its rows, and the form of each
/// of its columns.
pub proof fn lemma_trie_round_trip(trie: TrieView)
    requires
        proper(trie),
        trie_bytes(trie).len() <= usize::MAX,
    ensures
        parse_trie(trie_bytes(trie)) == Ok::<_, TrieStorageError>(trie),
{
    let bytes = trie_bytes(trie);
    let header = header_bytes(trie.columns.len(), trie.empty_row);
    assert(bytes.subrange(0, bytes.len() as int) =~= bytes);
    lemma_holds_parts(bytes, 0, header, layers_bytes(trie.columns));
    lemma_header_length(trie.columns.len(), trie.empty_row);
    lemma_layers_aligned(trie.columns);
    lemma_header_round_trip(bytes, trie.columns.len(), trie.empty_row);
    lemma_layers_round_trip(bytes, HEADER_LENGTH as nat, trie.columns);
}

/// The rows of a table survive encoding and decoding unchanged.
pub proof fn lemma_rows_survive(trie: TrieView, decoded: TrieView)
    requires
        proper(trie),
        trie_bytes(trie).len() <= usize::MAX,
        parse_trie(trie_bytes(trie)) == Ok::<_, TrieStorageError>(decoded),
    ensures
        rows_of(decoded) == rows_of(trie),
        decoded.columns.len() == trie.columns.len(),
{
    lemma_trie_round_trip(trie);
}

/// Encoding a decoded trie again gives the same bytes.
pub proof fn lemma_trie_reencodes(trie: TrieView, decoded: TrieView)
    requires
        proper(trie),
        trie_bytes(trie).len() <= usize::MAX,
        parse_trie(trie_bytes(trie)) == Ok::<_, TrieStorageError>(decoded),
    ensures
        trie_bytes(decoded) == trie_bytes(trie),
{
    lemma_trie_round_trip(trie);
}

/// How a reading from the front of some bytes relates to the same reading from
/// all of them: it gives the same if it ends in time, else it runs out of input.
spec fn cut<T>(
    whole: Result<(T, nat), TrieStorageError>,
    short: Result<(T, nat), TrieStorageError>,
    at: nat,
    length: nat,
) -> bool {
    whole matches Ok((_, used)) ==> if at + used <= length {
        short == whole
    } else {
        short matches Err(TrieStorageError::Truncated { .. })
    }
}

proof fn lemma_cut_bytes(bytes: Seq<u8>, length: nat, at: nat, count: nat)
    requires
        length <= bytes.len(),
    ensures
        cut(
            parse_bytes(bytes, at, count),
            parse_bytes(bytes.take(length as int), at, count),
            at,
            length,
        ),
{
    if at + count <= length {
        assert(bytes.take(length as int).subrange(at as int, (at + count) as int)
            =~= bytes.subrange(at as int, (at + count) as int));
    }
}

proof fn lemma_cut_tag(bytes: Seq<u8>, length: nat, at: nat)
    requires
        length <= bytes.len(),
    ensures
        cut(parse_tag(bytes, at), parse_tag(bytes.take(length as int), at), at, length),
{
    lemma_cut_bytes(bytes, length, at, 1);
    lemma_cut_bytes(bytes, length, at + 1, padding(at + 1));
}

proof fn lemma_cut_elements<T: ColumnElement>(bytes: Seq<u8>, length: nat, at: nat, count: nat)
    requires
        at <= length <= bytes.len(),
    ensures
        cut(
            parse_elements::<T>(bytes, at, count),
            parse_elements::<T>(bytes.take(length as int), at, count),
            at,
            length,
        ),
    decreases count,
{
    if count > 0 {
        lemma_cut_elements::<T>(bytes, length, at, (count - 1) as nat);
        if let Ok((_, used)) = parse_elements::<T>(bytes, at, (count - 1) as nat) {
            lemma_cut_bytes(bytes, length, at + used, T::width());
        }
    }
}

proof fn lemma_cut_column_values<T: ColumnElement>(bytes: Seq<u8>, length: nat, at: nat)
    requires
        at <= length <= bytes.len(),
    ensures
        cut(
            parse_column_values::<T>(bytes, at),
            parse_column_values::<T>(bytes.take(length as int), at),
            at,
            length,
        ),
{
    lemma_cut_bytes(bytes, length, at, 8);
    lemma_cut_bytes(bytes, length, at + 8, padding(at + 8));
    if let Ok((count, _)) = parse_length(bytes, at) {
        let start = at + 8 + padding(at + 8);
        if start <= length {
            lemma_cut_elements::<T>(bytes, length, start, count as nat);
            if let Ok((_, more)) = parse_elements::<T>(bytes, start, count as nat) {
                lemma_cut_bytes(bytes, length, start + more, padding(start + more));
            }
        }
    }
}

proof fn lemma_cut_column<T: ColumnElement>(bytes: Seq<u8>, length: nat, at: nat)
    requires
        at <= length <= bytes.len(),
    ensures
        cut(
            parse_column::<T>(bytes, at),
            parse_column::<T>(bytes.take(length as int), at),
            at,
            length,
        ),
{
    reveal(parse_column);
    lemma_cut_tag(bytes, length, at);
    if let Ok((_, used)) = parse_tag(bytes, at) {
        if at + used <= length {
            lemma_cut_column_values::<T>(bytes, length, at + used);
        }
    }
}

proof fn lemma_cut_columns(bytes: Seq<u8>, length: nat, at: nat, count: nat)
    requires
        at <= length <= bytes.len(),
    ensures
        cut(
            parse_columns(bytes, at, count),
            parse_columns(bytes.take(length as int), at, count),
            at,
            length,
        ),
    decreases count,
{
    if count > 0 {
        lemma_cut_columns(bytes, length, at, (count - 1) as nat);
        if let Ok((_, used)) = parse_columns(bytes, at, (count - 1) as nat) {
            if at + used <= length {
                lemma_cut_column::<usize>(bytes, length, at + used);
            }
        }
    }
}

proof fn lemma_cut_interval<T: ColumnElement>(bytes: Seq<u8>, length: nat, at: nat)
    requires
        at <= length <= bytes.len(),
    ensures
        cut(
            parse_interval::<T>(bytes, at),
            parse_interval::<T>(bytes.take(length as int), at),
            at,
            length,
        ),
{
    reveal(parse_interval);
    lemma_cut_column::<T>(bytes, length, at);
    if let Ok((_, used)) = parse_column::<T>(bytes, at) {
        if at + used <= length {
            lemma_cut_column::<usize>(bytes, length, at + used);
            if let Ok((_, more)) = parse_column::<usize>(bytes, at + used) {
                if at + used + more <= length {
                    lemma_cut_columns(bytes, length, at + used + more, 5);
                }
            }
        }
    }
}

proof fn lemma_cut_layer(bytes: Seq<u8>, length: nat, at: nat)
    requires
        at <= length <= bytes.len(),
    ensures
        cut(parse_layer(bytes, at), parse_layer(bytes.take(length as int), at), at, length),
{
    reveal(parse_layer);
    lemma_cut_interval::<u32>(bytes, length, at);
    if let Ok((_, a)) = parse_interval::<u32>(bytes, at) {
        if at + a <= length {
            lemma_cut_interval::<u64>(bytes, length, at + a);
            if let Ok((_, b)) = parse_interval::<u64>(bytes, at + a) {
                if at + a + b <= length {
                    lemma_cut_interval::<i64>(bytes, length, at + a + b);
                    if let Ok((_, c)) = parse_interval::<i64>(bytes, at + a + b) {
                        if at + a + b + c <= length {
                            lemma_cut_interval::<Float>(bytes, length, at + a + b + c);
                            if let Ok((_, d)) = parse_interval::<Float>(bytes, at + a + b + c) {
                                if at + a + b + c + d <= length {
                                    lemma_cut_interval::<Double>(
                                        bytes,
                                        length,
                                        at + a + b + c + d,
                                    );
                                }
                            }
                        }
                    }
                }
            }
        }
    }
}

proof fn lemma_cut_layers(bytes: Seq<u8>, length: nat, at: nat, count: nat)
    requires
        at <= length <= bytes.len(),
    ensures
        cut(
            parse_layers(bytes, at, count),
            parse_layers(bytes.take(length as int), at, count),
            at,
            length,
        ),
    decreases count,
{
    if count > 0 {
        lemma_cut_layers(bytes, length, at, (count - 1) as nat);
        if let Ok((_, used)) = parse_layers(bytes, at, (count - 1) as nat) {
            if at + used <= length {
                lemma_cut_layer(bytes, length, at + used);
            }
        }
    }
}

/// Every proper prefix of an encoded trie is rejected as truncated.
pub proof fn lemma_truncated_trie_rejected(trie: TrieView, length: nat)
    requires
        proper(trie),
        trie_bytes(trie).len() <= usize::MAX,
        length < trie_bytes(trie).len(),
    ensures
        parse_trie(trie_bytes(trie).take(length as int)) matches Err(
            TrieStorageError::Truncated { .. },
        ),
{
    let bytes = trie_bytes(trie);
    let header = header_bytes(trie.columns.len(), trie.empty_row);
    assert(bytes.subrange(0, bytes.len() as int) =~= bytes);
    lemma_holds_parts(bytes, 0, header, layers_bytes(trie.columns));
    lemma_header_length(trie.columns.len(), trie.empty_row);
    lemma_layers_aligned(trie.columns);
    lemma_header_round_trip(bytes, trie.columns.len(), trie.empty_row);
    lemma_layers_round_trip(bytes, HEADER_LENGTH as nat, trie.columns);
    lemma_cut_bytes(bytes, length, 0, 8);
    lemma_cut_bytes(bytes, length, 8, 4);
    lemma_cut_bytes(bytes, length, 12, 4);
    lemma_cut_bytes(bytes, length, 16, 8);
    lemma_cut_tag(bytes, length, 24);
    if HEADER_LENGTH <= length {
        lemma_cut_layers(bytes, length, HEADER_LENGTH as nat, trie.columns.len());
    }
}

/// Input that does not start with the magic bytes is not a trie.
pub proof fn lemma_foreign_trie_rejected(bytes: Seq<u8>)
    requires
        bytes.len() >= MAGIC@.len(),
        bytes.take(8) != MAGIC@,
    ensures
        parse_trie(bytes) == Err::<TrieView, _>(TrieStorageError::NotATrie),
{
    assert(bytes.subrange(0, 8) =~= bytes.take(8));
}

/// An encoding with another layout version is rejected, whatever stands behind
/// the version.
pub proof fn lemma_other_trie_version_rejected(version: u32, rest: Seq<u8>)
    requires
        version != FORMAT_VERSION,
    ensures
        parse_trie(MAGIC@ + (le_bytes(version as nat, 4) + rest)) == Err::<TrieView, _>(
            TrieStorageError::VersionMismatch { found: version, expected: FORMAT_VERSION },
        ),
{
    let bytes = MAGIC@ + (le_bytes(version as nat, 4) + rest);
    assert(bytes.subrange(0, bytes.len() as int) =~= bytes);
    lemma_holds_parts(bytes, 0, MAGIC@, le_bytes(version as nat, 4) + rest);
    lemma_holds_parts(bytes, 8, le_bytes(version as nat, 4), rest);
    lemma_pow256_values();
    lemma_le_round_trip(version as nat, 4);
}

/// How the element types of columns are encoded: fixed widths, the lowest byte first,
/// and floating-point numbers by their bits.
pub proof fn lemma_element_encodings(
    id32: u32,
    id64: u64,
    int64: i64,
    index: usize,
    float: Float,
    double: Double,
)
    ensures
        id32.element_bytes() == le_bytes(id32 as nat, 4),
        id64.element_bytes() == le_bytes(id64 as nat, 8),
        int64 >= 0 ==> int64.element_bytes() == le_bytes(int64 as nat, 8),
        int64 < 0 ==> int64.element_bytes() == le_bytes(
            (int64 + 0x1_0000_0000_0000_0000) as nat,
            8,
        ),
        index.element_bytes() == le_bytes(index as nat, 8),
        float.element_bytes() == le_bytes(float.bits as nat, 4),
        double.element_bytes() == le_bytes(double.bits as nat, 8),
{
}

proof fn lemma_element_places<T: ColumnElement>(values: Seq<T>, place: int)
    requires
        0 <= place < values.len(),
    ensures
        elements_bytes(values).len() == values.len() * T::width(),
        holds_at(
            elements_bytes(values),
            (place * T::width()) as nat,
            values[place].element_bytes(),
        ),
    decreases values.len(),
{
    let front = values.drop_last();
    let last = values.len() - 1;
    let width = T::width() as int;
    let bytes = elements_bytes(values);
    let own = values[place].element_bytes();
    values[place].lemma_element();
    values[last].lemma_element();
    T::lemma_width();
    assert((last + 1) * width == last * width + width) by (nonlinear_arith);
    assert(place * width >= 0) by (nonlinear_arith)
        requires
            place >= 0,
            width > 0,
    ;
    if last > 0 {
        lemma_element_places(front, 0);
    } else {
        assert(elements_bytes(front).len() == 0);
        assert(last * width == 0) by (nonlinear_arith)
            requires
                last == 0,
    ;
    }
    if place < last {
        lemma_element_places(front, place);
        assert(bytes.subrange(place * width, place * width + own.len()) =~= elements_bytes(
            front,
        ).subrange(place * width, place * width + own.len()));
    } else {
        assert(bytes.subrange(place * width, place * width + own.len()) =~= own);
    }
}

/// Where the parts of an encoded column stand: its tag, which says how it is held in
/// memory; eight bytes behind it the number of values; and eight bytes behind that the
/// values, one after the other.
pub proof fn lemma_column_layout<T: ColumnElement>(column: ColumnView<T>, place: int)
    requires
        0 <= place < column.values.len(),
    ensures
        ({
            let bytes = column_bytes(column);
            &&& bytes.len() >= 16 + column.values.len() * T::width()
            &&& bytes.len() < 24 + column.values.len() * T::width()
            &&& bytes.len() % 8 == 0
            &&& bytes[0] == (if column.rle {
                1u8
            } else {
                0u8
            })
            &&& bytes.subrange(8, 16) == le_bytes(column.values.len(), 8)
            &&& holds_at(
                bytes,
                (16 + place * T::width()) as nat,
                column.values[place].element_bytes(),
            )
        }),
{
    let bytes = column_bytes(column);
    let tagged = padded(seq![column_tag(column.rle)]);
    let count = le_bytes(column.values.len(), 8);
    let elements = elements_bytes(column.values);
    let own = column.values[place].element_bytes();
    let at = place * T::width();
    lemma_column_parts(column);
    lemma_le_len(column.values.len(), 8);
    lemma_element_places(column.values, place);
    assert(bytes[0] == tagged[0]);
    assert(bytes.subrange(8, 16) =~= count);
    assert(bytes.subrange(16 + at, 16 + at + own.len()) =~= elements.subrange(
        at as int,
        at + own.len(),
    ));
}

/// A column with an unknown tag is rejected by that tag, once the rest of it has been
/// read.
pub proof fn lemma_unknown_column_tag_rejected<T: ColumnElement>(bytes: Seq<u8>, at: nat)
    requires
        at + 8 <= bytes.len(),
        at % 8 == 0,
        bytes[at as int] > 1,
        parse_column_values::<T>(bytes, at + 8) is Ok,
    ensures
        parse_column::<T>(bytes, at) == Err::<(ColumnView<T>, nat), _>(
            TrieStorageError::UnknownColumnTag(bytes[at as int]),
        ),
{
    reveal(parse_column);
    assert(bytes.subrange(at as int, (at + 1) as int)[0] == bytes[at as int]);
    lemma_parse_padding(bytes, at + 1, 7);
}

/// Where the parts of an encoded trie stand: a mark, the version, the number of
/// columns and whether there is an empty row; then the layers, from the first to the
/// last, each with its storage types in the same order, and each of those with its
/// values, the starts of its intervals and its lookups.
pub proof fn lemma_trie_layout(trie: TrieView)
    ensures
        ({
            let bytes = trie_bytes(trie);
            &&& bytes.len() >= 32
            &&& bytes.subrange(0, 8) == seq![78u8, 77, 79, 84, 82, 73, 69, 0]
            &&& bytes.subrange(8, 12) == le_bytes(1, 4)
            &&& bytes.subrange(12, 16) == le_bytes(0, 4)
            &&& bytes.subrange(16, 24) == le_bytes(trie.columns.len(), 8)
            &&& bytes[24] == (if trie.empty_row {
                1u8
            } else {
                0u8
            })
            &&& trie.columns.len() == 0 ==> bytes.len() == 32
            &&& trie.columns.len() > 0 ==> bytes == trie_bytes_before_last(trie) + layer_parts(
                trie.columns.last(),
            )
        }),
{
    let bytes = trie_bytes(trie);
    let version = le_bytes(FORMAT_VERSION as nat, 4);
    let arity = le_bytes(trie.columns.len(), 8);
    let flag = padded(seq![flag_byte(trie.empty_row)]);
    lemma_le_len(FORMAT_VERSION as nat, 4);
    lemma_le_len(0, 4);
    lemma_le_len(trie.columns.len(), 8);
    lemma_header_length(trie.columns.len(), trie.empty_row);
    assert(MAGIC@ =~= seq![78u8, 77, 79, 84, 82, 73, 69, 0]);
    assert(bytes.subrange(0, 8) =~= MAGIC@);
    assert(bytes.subrange(8, 12) =~= version);
    assert(bytes.subrange(12, 16) =~= le_bytes(0, 4));
    assert(bytes.subrange(16, 24) =~= arity);
    assert(bytes[24] == flag[0]);
    if trie.columns.len() > 0 {
        let last = trie.columns.last();
        lemma_layer_parts(last);
        assert(bytes =~= trie_bytes_before_last(trie) + layer_bytes(last));
    }
}

/// What stands in front of the last layer of an encoded trie: what stands there where
/// it has no other layer, but for the number of columns.
pub open spec fn trie_bytes_before_last(trie: TrieView) -> Seq<u8> {
    header_bytes(trie.columns.len(), trie.empty_row) + layers_bytes(trie.columns.drop_last())
}

/// The columns of one storage type in a layer, one behind the other.
pub open spec fn interval_parts<T: ColumnElement>(column: IntervalView<T>) -> Seq<u8> {
    column_bytes(column.data) + column_bytes(column.starts) + columns_bytes(column.lookups)
}

/// The storage types of a layer, one behind the other.
pub open spec fn layer_parts(layer: LayerView) -> Seq<u8> {
    interval_parts(layer.id32) + interval_parts(layer.id64) + interval_parts(layer.int64)
        + interval_parts(layer.float) + interval_parts(layer.double)
}

proof fn lemma_layer_parts(layer: LayerView)
    ensures
        layer_bytes(layer) == layer_parts(layer),
{
    reveal(layer_bytes);
    lemma_interval_parts(layer.id32);
    lemma_interval_parts(layer.id64);
    lemma_interval_parts(layer.int64);
    lemma_interval_parts(layer.float);
    lemma_interval_parts(layer.double);
    assert(layer_bytes(layer) =~= layer_parts(layer));
}

proof fn lemma_interval_parts<T: ColumnElement>(column: IntervalView<T>)
    ensures
        interval_bytes(column) == interval_parts(column),
{
    reveal(interval_bytes);
    assert(interval_bytes(column) =~= interval_parts(column));
}

/// A message tells what its error holds: versions, places and numbers, each in the
/// place where it is expected.
pub proof fn lemma_trie_messages(found: u32, expected: u32, offset: usize, needed: usize, tag: u8)
    ensures
        ({
            let text = error_text(TrieStorageError::VersionMismatch { found, expected });
            &&& reads_at(text, 32, decimal(found as nat))
            &&& reads_at(
                text,
                text.len() - decimal(expected as nat).len(),
                decimal(expected as nat),
            )
        }),
        ({
            let text = error_text(TrieStorageError::Truncated { offset, needed });
            &&& reads_at(text, 38, decimal(needed as nat))
            &&& reads_at(text, text.len() - decimal(offset as nat).len(), decimal(offset as nat))
        }),
        ({
            let text = error_text(TrieStorageError::UnknownColumnTag(tag));
            reads_at(text, 19, decimal(tag as nat))
        }),
{
    reveal_strlit("encoded trie has layout version ");
    reveal_strlit("encoded trie ends prematurely: needed ");
    reveal_strlit("unknown column tag ");
    let version = error_text(TrieStorageError::VersionMismatch { found, expected });
    let a = decimal(found as nat);
    let b = decimal(expected as nat);
    assert(version.subrange(32, 32 + a.len() as int) =~= a);
    assert(version.subrange(version.len() - b.len(), version.len() as int) =~= b);
    let truncated = error_text(TrieStorageError::Truncated { offset, needed });
    let c = decimal(needed as nat);
    let d = decimal(offset as nat);
    assert(truncated.subrange(38, 38 + c.len() as int) =~= c);
    assert(truncated.subrange(truncated.len() - d.len(), truncated.len() as int) =~= d);
    let unknown = error_text(TrieStorageError::UnknownColumnTag(tag));
    let e = decimal(tag as nat);
    assert(unknown.subrange(19, 19 + e.len() as int) =~= e);
}

/// A number is read where its bytes stand, and reported as cut off where they do not all
/// stand there; a flag is set wherever its byte is not zero.
pub proof fn lemma_trie_numbers_read(bytes: Seq<u8>, at: nat, short: u32, long: u64)
    requires
        at + 8 <= usize::MAX,
    ensures
        holds_at(bytes, at, le_bytes(short as nat, 4)) ==> parse_u32(bytes, at) == Ok::<
            _,
            TrieStorageError,
        >((short, 4nat)),
        holds_at(bytes, at, le_bytes(long as nat, 8)) ==> parse_u64(bytes, at) == Ok::<
            _,
            TrieStorageError,
        >((long, 8nat)),
        bytes.len() < at + 4 ==> parse_u32(bytes, at) == Err::<(u32, nat), _>(
            TrieStorageError::Truncated { offset: at as usize, needed: 4 },
        ),
        bytes.len() < at + 8 ==> parse_u64(bytes, at) == Err::<(u64, nat), _>(
            TrieStorageError::Truncated { offset: at as usize, needed: 8 },
        ),
        bytes.len() < at + 8 ==> parse_length(bytes, at) == Err::<(usize, nat), _>(
            TrieStorageError::Truncated { offset: at as usize, needed: 8 },
        ),
        holds_at(bytes, at, le_bytes(long as nat, 8)) && long > usize::MAX ==> parse_length(
            bytes,
            at,
        ) == Err::<(usize, nat), _>(TrieStorageError::ValueOutOfRange(long)),
        at % 8 == 0 && at + 8 <= bytes.len() ==> parse_flag(bytes, at) == Ok::<
            _,
            TrieStorageError,
        >((bytes[at as int] != 0, 8nat)),
        at % 8 == 0 && at + 8 <= bytes.len() ==> parse_tag(bytes, at) == Ok::<
            _,
            TrieStorageError,
        >((bytes[at as int], 8nat)),
{
    lemma_pow256_values();
    lemma_le_round_trip(short as nat, 4);
    lemma_le_round_trip(long as nat, 8);
    if at % 8 == 0 && at + 8 <= bytes.len() {
        assert(bytes.subrange(at as int, (at + 1) as int)[0] == bytes[at as int]);
        lemma_parse_padding(bytes, at + 1, 7);
    }
}

/// Whether a reading that started at `at` ended as it must: behind what it has read
/// where it succeeded, where the missing bytes should stand where the input is cut off,
/// and otherwise behind what it could not accept.
pub open spec fn ends_rightly<T>(
    bytes: Seq<u8>,
    at: nat,
    parsed: Result<(T, nat), TrieStorageError>,
    end: nat,
) -> bool {
    &&& at <= end <= bytes.len()
    &&& match parsed {
        Ok((_, used)) => end == at + used,
        Err(TrieStorageError::Truncated { offset, needed }) => end == offset && bytes.len()
            < offset + needed,
        Err(_) => at < end,
    }
}

proof fn lemma_elements_end<T: ColumnElement>(bytes: Seq<u8>, at: nat, count: nat)
    requires
        at <= bytes.len() <= usize::MAX,
        T::width() <= 8,
        forall|raw: Seq<u8>| !(#[trigger] T::parse_element(raw) matches Err(error) && error is Truncated),
    ensures
        ends_rightly(
            bytes,
            at,
            parse_elements::<T>(bytes, at, count),
            elements_end::<T>(bytes, at, count),
        ),
    decreases count,
{
    if count > 0 {
        lemma_elements_end::<T>(bytes, at, (count - 1) as nat);
        T::lemma_width();
    }
}

/// A reading of a column ends behind it, or, where the input is cut off, exactly where
/// the missing bytes should stand.
pub proof fn lemma_column_ends<T: ColumnElement>(bytes: Seq<u8>, at: nat)
    requires
        at <= bytes.len() <= usize::MAX,
        T::width() <= 8,
        forall|raw: Seq<u8>| !(#[trigger] T::parse_element(raw) matches Err(error) && error is Truncated),
    ensures
        ends_rightly(bytes, at, parse_column::<T>(bytes, at), column_end::<T>(bytes, at)),
{
    reveal(parse_column);
    reveal(column_end);
    if let Ok((_, used)) = parse_tag(bytes, at) {
        if let Ok((count, more)) = parse_length(bytes, at + used) {
            if let Ok((_, skipped)) = parse_padding(bytes, at + used + more) {
                lemma_elements_end::<T>(bytes, at + used + more + skipped, count as nat);
            }
        }
    }
}

} // verus!
