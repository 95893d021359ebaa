//! The encoding of single data values, and the faults of reading it.

use vstd::prelude::*;
use vstd::slice::slice_subrange;
use vstd::string::*;
use vstd::utf8::*;

use crate::datavalues::{
    collapsed, distinct_keys, label_view, lemma_collapsed, lemma_composite_view,
    lemma_last_value_counts, lexical_form, literal_datatype, pairs_view, valid_value, values_view,
    AnyDataValue, ValueView,
};
use crate::literals::{lemma_literal_rebuilds, typed_literal};
use crate::little_endian::{
    holds_at, le_bytes, le_value, lemma_holds_parts, lemma_le_len, lemma_le_round_trip,
    lemma_pow256_values, push_le, read_le,
};
use crate::text::{decimal, decimal_text, quoted, quoted_text, reads_at, utf8_text};

verus! {

/// A literal: lexical form and datatype IRI.
pub const TAG_LITERAL: u8 = 0;

/// A plain string.
pub const TAG_STRING: u8 = 1;

/// An IRI.
pub const TAG_IRI: u8 = 2;

/// A language-tagged string: text and tag.
pub const TAG_LANG_STRING: u8 = 3;

/// A named null: its id.
pub const TAG_NULL: u8 = 4;

/// A tuple: optional label, then its elements.
pub const TAG_TUPLE: u8 = 5;

/// A map: key and value pairs.
pub const TAG_MAP: u8 = 6;

/// A map with a label: the label, then key/value pairs.
pub const TAG_LABELLED_MAP: u8 = 8;

/// Something went wrong while decoding a dictionary snapshot.
#[derive(Debug, Clone, PartialEq, Eq)]
pub enum DictionaryStorageError {
    /// Input does not begin with the magic bytes.
    NotADictionary,
    /// Input was written by a different layout version.
    VersionMismatch {
        /// Version found in the input.
        found: u32,
        /// Version this build writes and reads.
        expected: u32,
    },
    /// Input ended in the middle of a value.
    Truncated {
        /// Byte offset at which more input was required.
        offset: usize,
        /// Number of bytes required there.
        needed: usize,
    },
    /// A discriminant byte held a value this build does not know.
    UnknownValueTag(u8),
    /// A string field was not valid UTF-8.
    InvalidUtf8 {
        /// Byte offset of the offending field.
        offset: usize,
    },
    /// A lexical form and datatype IRI did not rebuild a data value.
    MalformedLiteral {
        /// The lexical form that could not be interpreted.
        lexical: String,
        /// The datatype IRI it was paired with.
        datatype: String,
    },
    /// A value or length did not fit in `usize` on this platform.
    ValueOutOfRange(u64),
    /// The index was not sorted by id, so binary search would be unsound.
    IndexNotSorted,
}

/// What a [DictionaryStorageError] says.
pub enum DictionaryFault {
    NotADictionary,
    VersionMismatch { found: u32, expected: u32 },
    Truncated { offset: nat, needed: nat },
    UnknownValueTag(u8),
    InvalidUtf8 { offset: nat },
    MalformedLiteral { lexical: Seq<char>, datatype: Seq<char> },
    ValueOutOfRange(u64),
    IndexNotSorted,
}

impl View for DictionaryStorageError {
    type V = DictionaryFault;

    open spec fn view(&self) -> DictionaryFault {
        match *self {
            DictionaryStorageError::NotADictionary => DictionaryFault::NotADictionary,
            DictionaryStorageError::VersionMismatch {
                found,
                expected,
            } => DictionaryFault::VersionMismatch { found, expected },
            DictionaryStorageError::Truncated { offset, needed } => DictionaryFault::Truncated {
                offset: offset as nat,
                needed: needed as nat,
            },
            DictionaryStorageError::UnknownValueTag(tag) => DictionaryFault::UnknownValueTag(tag),
            DictionaryStorageError::InvalidUtf8 { offset } => DictionaryFault::InvalidUtf8 {
                offset: offset as nat,
            },
            DictionaryStorageError::MalformedLiteral {
                lexical,
                datatype,
            } => DictionaryFault::MalformedLiteral { lexical: lexical@, datatype: datatype@ },
            DictionaryStorageError::ValueOutOfRange(value) => DictionaryFault::ValueOutOfRange(
                value,
            ),
            DictionaryStorageError::IndexNotSorted => DictionaryFault::IndexNotSorted,
        }
    }
}

/// The message for a literal that could not be rebuilt, given the quoted forms of
/// its two parts.
pub open spec fn malformed_literal_text(lexical: Seq<char>, datatype: Seq<char>) -> Seq<char> {
    "cannot rebuild literal "@ + lexical + " of type "@ + datatype
}

/// What a fault is reported as.
pub open spec fn fault_text(fault: DictionaryFault) -> Seq<char> {
    match fault {
        DictionaryFault::NotADictionary => "input is not an encoded dictionary snapshot"@,
        DictionaryFault::VersionMismatch {
            found,
            expected,
        } => "dictionary snapshot has layout version "@ + decimal(found as nat)
            + ", this build reads "@ + decimal(expected as nat),
        DictionaryFault::Truncated {
            offset,
            needed,
        } => "dictionary snapshot ends prematurely: needed "@ + decimal(needed)
            + " more byte(s) at offset "@ + decimal(offset),
        DictionaryFault::UnknownValueTag(tag) => "unknown datavalue tag "@ + decimal(tag as nat),
        DictionaryFault::InvalidUtf8 { offset } => "string field at offset "@ + decimal(offset)
            + " is not valid UTF-8"@,
        DictionaryFault::MalformedLiteral { lexical, datatype } => malformed_literal_text(
            quoted(lexical),
            quoted(datatype),
        ),
        DictionaryFault::ValueOutOfRange(value) => "encoded value "@ + decimal(value as nat)
            + " does not fit in a pointer on this platform"@,
        DictionaryFault::IndexNotSorted => "dictionary snapshot index is not sorted by id"@,
    }
}

/// The message for a literal that could not be rebuilt, given the quoted forms of
/// its two parts.
pub fn malformed_literal_message(lexical: &str, datatype: &str) -> (message: String)
    ensures
        message@ == malformed_literal_text(lexical@, datatype@),
{
    let mut message = "cannot rebuild literal ".to_owned();
    message.append(lexical);
    message.append(" of type ");
    message.append(datatype);
    message
}

impl DictionaryStorageError {
    /// What this error is reported as.
    pub fn message(&self) -> (message: String)
        ensures
            message@ == fault_text(self@),
    {
        match self {
            DictionaryStorageError::NotADictionary => {
                "input is not an encoded dictionary snapshot".to_owned()
            },
            DictionaryStorageError::VersionMismatch { found, expected } => {
                let mut message = "dictionary snapshot has layout version ".to_owned();
                message.append(decimal_text(*found as u128).as_str());
                message.append(", this build reads ");
                message.append(decimal_text(*expected as u128).as_str());
                message
            },
            DictionaryStorageError::Truncated { offset, needed } => {
                let mut message = "dictionary snapshot ends prematurely: needed ".to_owned();
                message.append(decimal_text(*needed as u128).as_str());
                message.append(" more byte(s) at offset ");
                message.append(decimal_text(*offset as u128).as_str());
                message
            },
            DictionaryStorageError::UnknownValueTag(tag) => {
                let mut message = "unknown datavalue tag ".to_owned();
                message.append(decimal_text(*tag as u128).as_str());
                message
            },
            DictionaryStorageError::InvalidUtf8 { offset } => {
                let mut message = "string field at offset ".to_owned();
                message.append(decimal_text(*offset as u128).as_str());
                message.append(" is not valid UTF-8");
                message
            },
            DictionaryStorageError::MalformedLiteral { lexical, datatype } => {
                malformed_literal_message(
                    quoted_text(lexical.as_str()).as_str(),
                    quoted_text(datatype.as_str()).as_str(),
                )
            },
            DictionaryStorageError::ValueOutOfRange(value) => {
                let mut message = "encoded value ".to_owned();
                message.append(decimal_text(*value as u128).as_str());
                message.append(" does not fit in a pointer on this platform");
                message
            },
            DictionaryStorageError::IndexNotSorted => {
                "dictionary snapshot index is not sorted by id".to_owned()
            },
        }
    }
}

/// The `count` bytes at `at`. As with the other readings below, success also
/// gives the number of bytes that were read.
pub open spec fn parse_bytes(bytes: Seq<u8>, at: nat, count: nat) -> Result<
    (Seq<u8>, nat),
    DictionaryFault,
> {
    if at + count <= bytes.len() {
        Ok((bytes.subrange(at as int, (at + count) as int), count))
    } else {
        Err(DictionaryFault::Truncated { offset: at, needed: count })
    }
}

/// The byte at `at`.
pub open spec fn parse_byte(bytes: Seq<u8>, at: nat) -> Result<(u8, nat), DictionaryFault> {
    match parse_bytes(bytes, at, 1) {
        Ok((raw, used)) => Ok((raw[0], used)),
        Err(fault) => Err(fault),
    }
}

/// The four-byte number at `at`.
pub open spec fn parse_u32(bytes: Seq<u8>, at: nat) -> Result<(u32, nat), DictionaryFault> {
    match parse_bytes(bytes, at, 4) {
        Ok((raw, used)) => Ok((le_value(raw) as u32, used)),
        Err(fault) => Err(fault),
    }
}

/// The eight-byte number at `at`.
pub open spec fn parse_u64(bytes: Seq<u8>, at: nat) -> Result<(u64, nat), DictionaryFault> {
    match parse_bytes(bytes, at, 8) {
        Ok((raw, used)) => Ok((le_value(raw) as u64, used)),
        Err(fault) => Err(fault),
    }
}

/// The eight-byte number at `at`, which must fit in `usize`.
pub open spec fn parse_length(bytes: Seq<u8>, at: nat) -> Result<(usize, nat), DictionaryFault> {
    match parse_u64(bytes, at) {
        Ok((value, used)) => if value <= usize::MAX {
            Ok((value as usize, used))
        } else {
            Err(DictionaryFault::ValueOutOfRange(value))
        },
        Err(fault) => Err(fault),
    }
}

/// The string at `at`: its length in bytes, then its UTF-8 form.
pub open spec fn parse_string(bytes: Seq<u8>, at: nat) -> Result<
    (Seq<char>, nat),
    DictionaryFault,
> {
    match parse_length(bytes, at) {
        Ok((length, used)) => match parse_bytes(bytes, at + used, length as nat) {
            Ok((raw, more)) => if valid_utf8(raw) {
                Ok((decode_utf8(raw), used + more))
            } else {
                Err(DictionaryFault::InvalidUtf8 { offset: at })
            },
            Err(fault) => Err(fault),
        },
        Err(fault) => Err(fault),
    }
}

/// Where a reading of the length at `at` ends: behind it where it is all there,
/// even if it does not fit in `usize`, and else where it began.
pub open spec fn length_end(bytes: Seq<u8>, at: nat) -> nat {
    match parse_bytes(bytes, at, 8) {
        Ok((_, used)) => at + used,
        Err(_) => at,
    }
}

/// Where a reading of the string at `at` ends: behind the last of its two parts
/// that is all there.
pub open spec fn string_end(bytes: Seq<u8>, at: nat) -> nat {
    match parse_length(bytes, at) {
        Ok((length, used)) => match parse_bytes(bytes, at + used, length as nat) {
            Ok((_, more)) => at + used + more,
            Err(_) => at + used,
        },
        Err(_) => length_end(bytes, at),
    }
}

/// The two strings at `at`.
pub open spec fn parse_two_strings(bytes: Seq<u8>, at: nat) -> Result<
    ((Seq<char>, Seq<char>), nat),
    DictionaryFault,
> {
    match parse_string(bytes, at) {
        Ok((first, used)) => match parse_string(bytes, at + used) {
            Ok((second, more)) => Ok(((first, second), used + more)),
            Err(fault) => Err(fault),
        },
        Err(fault) => Err(fault),
    }
}

/// The optional label at `at`: a flag, then the label where the flag is not zero.
pub open spec fn parse_label(bytes: Seq<u8>, at: nat) -> Result<
    (Option<Seq<char>>, nat),
    DictionaryFault,
> {
    match parse_byte(bytes, at) {
        Ok((flag, used)) => if flag == 0 {
            Ok((None, used))
        } else {
            match parse_string(bytes, at + used) {
                Ok((label, more)) => Ok((Some(label), used + more)),
                Err(fault) => Err(fault),
            }
        },
        Err(fault) => Err(fault),
    }
}

/// The label at `at` of a map with the given tag, which says whether there is one.
pub open spec fn parse_map_label(bytes: Seq<u8>, at: nat, tag: u8) -> Result<
    (Option<Seq<char>>, nat),
    DictionaryFault,
> {
    if tag == TAG_LABELLED_MAP {
        match parse_string(bytes, at) {
            Ok((label, used)) => Ok((Some(label), used)),
            Err(fault) => Err(fault),
        }
    } else {
        Ok((None, 0))
    }
}

/// The number of bytes from `at` on.
pub open spec fn remaining(bytes: Seq<u8>, at: nat) -> nat {
    if at <= bytes.len() {
        (bytes.len() - at) as nat
    } else {
        0
    }
}

/// The value at `at`: a tag, then what the tag asks for.
pub open spec fn parse_value(bytes: Seq<u8>, at: nat) -> Result<(ValueView, nat), DictionaryFault>
    decreases remaining(bytes, at), 0nat, 0nat,
{
    match parse_byte(bytes, at) {
        Err(fault) => Err(fault),
        Ok((tag, _)) => if tag == TAG_STRING {
            match parse_string(bytes, at + 1) {
                Ok((text, used)) => Ok((ValueView::PlainString(text), 1 + used)),
                Err(fault) => Err(fault),
            }
        } else if tag == TAG_IRI {
            match parse_string(bytes, at + 1) {
                Ok((text, used)) => Ok((ValueView::Iri(text), 1 + used)),
                Err(fault) => Err(fault),
            }
        } else if tag == TAG_LANG_STRING {
            match parse_two_strings(bytes, at + 1) {
                Ok(((text, tag), used)) => Ok(
                    (ValueView::LanguageTaggedString(text, tag), 1 + used),
                ),
                Err(fault) => Err(fault),
            }
        } else if tag == TAG_NULL {
            match parse_length(bytes, at + 1) {
                Ok((id, used)) => Ok((ValueView::Null(id), 1 + used)),
                Err(fault) => Err(fault),
            }
        } else if tag == TAG_TUPLE {
            match parse_label(bytes, at + 1) {
                Ok((label, before)) => match parse_length(bytes, at + 1 + before) {
                    Ok((count, more)) => match parse_values(
                        bytes,
                        at + 1 + before + more,
                        count as nat,
                    ) {
                        Ok((elements, used)) => Ok(
                            (ValueView::Tuple(label, elements), 1 + before + more + used),
                        ),
                        Err(fault) => Err(fault),
                    },
                    Err(fault) => Err(fault),
                },
                Err(fault) => Err(fault),
            }
        } else if tag == TAG_MAP || tag == TAG_LABELLED_MAP {
            match parse_map_label(bytes, at + 1, tag) {
                Ok((label, before)) => match parse_length(bytes, at + 1 + before) {
                    Ok((count, more)) => match parse_pairs(
                        bytes,
                        at + 1 + before + more,
                        count as nat,
                    ) {
                        Ok((pairs, used)) => Ok(
                            (
                                ValueView::MapValue(label, collapsed(pairs)),
                                1 + before + more + used,
                            ),
                        ),
                        Err(fault) => Err(fault),
                    },
                    Err(fault) => Err(fault),
                },
                Err(fault) => Err(fault),
            }
        } else if tag == TAG_LITERAL {
            match parse_two_strings(bytes, at + 1) {
                Ok(((lexical, datatype), used)) => match typed_literal(lexical, datatype) {
                    Some(value) => Ok((value, 1 + used)),
                    None => Err(DictionaryFault::MalformedLiteral { lexical, datatype }),
                },
                Err(fault) => Err(fault),
            }
        } else {
            Err(DictionaryFault::UnknownValueTag(tag))
        },
    }
}

/// The `count` values from `at` on.
pub open spec fn parse_values(bytes: Seq<u8>, at: nat, count: nat) -> Result<
    (Seq<ValueView>, nat),
    DictionaryFault,
>
    decreases remaining(bytes, at), 1nat, count,
{
    if count == 0 {
        Ok((Seq::empty(), 0))
    } else {
        match parse_values(bytes, at, (count - 1) as nat) {
            Ok((front, used)) => match parse_value(bytes, at + used) {
                Ok((last, more)) => Ok((front.push(last), used + more)),
                Err(fault) => Err(fault),
            },
            Err(fault) => Err(fault),
        }
    }
}

/// The `count` pairs of values from `at` on.
pub open spec fn parse_pairs(bytes: Seq<u8>, at: nat, count: nat) -> Result<
    (Seq<(ValueView, ValueView)>, nat),
    DictionaryFault,
>
    decreases remaining(bytes, at), 1nat, count,
{
    if count == 0 {
        Ok((Seq::empty(), 0))
    } else {
        match parse_pairs(bytes, at, (count - 1) as nat) {
            Ok((front, used)) => match parse_value(bytes, at + used) {
                Ok((key, more)) => match parse_value(bytes, at + used + more) {
                    Ok((value, rest)) => Ok((front.push((key, value)), used + more + rest)),
                    Err(fault) => Err(fault),
                },
                Err(fault) => Err(fault),
            },
            Err(fault) => Err(fault),
        }
    }
}

/// Where a reading of the two strings at `at` ends.
pub open spec fn two_strings_end(bytes: Seq<u8>, at: nat) -> nat {
    match parse_string(bytes, at) {
        Ok((_, used)) => string_end(bytes, at + used),
        Err(_) => string_end(bytes, at),
    }
}

/// Where a reading of the optional label at `at` ends.
pub open spec fn label_end(bytes: Seq<u8>, at: nat) -> nat {
    match parse_byte(bytes, at) {
        Ok((flag, used)) => if flag == 0 {
            at + used
        } else {
            string_end(bytes, at + used)
        },
        Err(_) => at,
    }
}

/// Where a reading of the label at `at` of a map with the given tag ends.
pub open spec fn map_label_end(bytes: Seq<u8>, at: nat, tag: u8) -> nat {
    if tag == TAG_LABELLED_MAP {
        string_end(bytes, at)
    } else {
        at
    }
}

/// Where a reading of the value at `at` ends: behind the last of its parts that
/// is all there.
pub open spec fn value_end(bytes: Seq<u8>, at: nat) -> nat
    decreases remaining(bytes, at), 0nat, 0nat,
{
    match parse_byte(bytes, at) {
        Err(_) => at,
        Ok((tag, _)) => if tag == TAG_STRING || tag == TAG_IRI {
            string_end(bytes, at + 1)
        } else if tag == TAG_LANG_STRING || tag == TAG_LITERAL {
            two_strings_end(bytes, at + 1)
        } else if tag == TAG_NULL {
            length_end(bytes, at + 1)
        } else if tag == TAG_TUPLE {
            match parse_label(bytes, at + 1) {
                Ok((_, before)) => match parse_length(bytes, at + 1 + before) {
                    Ok((count, more)) => values_end(bytes, at + 1 + before + more, count as nat),
                    Err(_) => length_end(bytes, at + 1 + before),
                },
                Err(_) => label_end(bytes, at + 1),
            }
        } else if tag == TAG_MAP || tag == TAG_LABELLED_MAP {
            match parse_map_label(bytes, at + 1, tag) {
                Ok((_, before)) => match parse_length(bytes, at + 1 + before) {
                    Ok((count, more)) => pairs_end(bytes, at + 1 + before + more, count as nat),
                    Err(_) => length_end(bytes, at + 1 + before),
                },
                Err(_) => map_label_end(bytes, at + 1, tag),
            }
        } else {
            at + 1
        },
    }
}

/// Where a reading of the `count` values from `at` on ends.
pub open spec fn values_end(bytes: Seq<u8>, at: nat, count: nat) -> nat
    decreases remaining(bytes, at), 1nat, count,
{
    if count == 0 {
        at
    } else {
        match parse_values(bytes, at, (count - 1) as nat) {
            Ok((_, used)) => value_end(bytes, at + used),
            Err(_) => values_end(bytes, at, (count - 1) as nat),
        }
    }
}

/// Where a reading of the `count` pairs of values from `at` on ends.
pub open spec fn pairs_end(bytes: Seq<u8>, at: nat, count: nat) -> nat
    decreases remaining(bytes, at), 1nat, count,
{
    if count == 0 {
        at
    } else {
        match parse_pairs(bytes, at, (count - 1) as nat) {
            Ok((_, used)) => match parse_value(bytes, at + used) {
                Ok((_, more)) => value_end(bytes, at + used + more),
                Err(_) => value_end(bytes, at + used),
            },
            Err(_) => pairs_end(bytes, at, (count - 1) as nat),
        }
    }
}

/// Where one of the first values cannot be read, the same fault ends a longer
/// reading, in the same place.
proof fn lemma_values_fault(bytes: Seq<u8>, at: nat, count: nat, more: nat)
    requires
        count <= more,
        parse_values(bytes, at, count) is Err,
    ensures
        parse_values(bytes, at, more) == parse_values(bytes, at, count),
        values_end(bytes, at, more) == values_end(bytes, at, count),
    decreases more,
{
    if count < more {
        lemma_values_fault(bytes, at, count, (more - 1) as nat);
    }
}

proof fn lemma_pairs_fault(bytes: Seq<u8>, at: nat, count: nat, more: nat)
    requires
        count <= more,
        parse_pairs(bytes, at, count) is Err,
    ensures
        parse_pairs(bytes, at, more) == parse_pairs(bytes, at, count),
        pairs_end(bytes, at, more) == pairs_end(bytes, at, count),
    decreases more,
{
    if count < more {
        lemma_pairs_fault(bytes, at, count, (more - 1) as nat);
    }
}

/// Cursor over encoded bytes.
pub struct Cursor<'a> {
    pub bytes: &'a [u8],
    pub offset: usize,
}

/// Whether a reading moved the cursor from `before` to `after` and gave `result`
/// as `parsed` says.
pub open spec fn reads<T: View>(
    before: Cursor<'_>,
    after: Cursor<'_>,
    parsed: Result<(T::V, nat), DictionaryFault>,
    result: Result<T, DictionaryStorageError>,
) -> bool {
    &&& after.bytes@ == before.bytes@
    &&& after.offset <= after.bytes@.len()
    &&& match parsed {
        Ok((value, used)) => result matches Ok(got) && got@ == value && after.offset
            == before.offset + used,
        Err(fault) => result matches Err(error) && error@ == fault,
    }
}

impl<'a> Cursor<'a> {
    pub fn new(bytes: &'a [u8]) -> (cursor: Self)
        ensures
            cursor.bytes@ == bytes@,
            cursor.offset == 0,
    {
        Cursor { bytes, offset: 0 }
    }

    pub fn at(bytes: &'a [u8], offset: usize) -> (cursor: Result<Self, DictionaryStorageError>)
        ensures
            if offset <= bytes@.len() {
                cursor matches Ok(made) && made.bytes@ == bytes@ && made.offset == offset
            } else {
                cursor matches Err(error) && error@ == (DictionaryFault::Truncated {
                    offset: offset as nat,
                    needed: 1,
                })
            },
    {
        if offset > bytes.len() {
            return Err(DictionaryStorageError::Truncated { offset, needed: 1 });
        }
        Ok(Cursor { bytes, offset })
    }

    pub fn take(&mut self, count: usize) -> (taken: Result<&'a [u8], DictionaryStorageError>)
        requires
            old(self).offset <= old(self).bytes@.len(),
        ensures
            reads(
                *old(self),
                *final(self),
                parse_bytes(old(self).bytes@, old(self).offset as nat, count as nat),
                taken,
            ),
            taken is Err ==> final(self).offset == old(self).offset,
    {
        if count > self.bytes.len() - self.offset {
            return Err(DictionaryStorageError::Truncated { offset: self.offset, needed: count });
        }
        let end: usize = self.offset + count;
        let taken = slice_subrange(self.bytes, self.offset, end);
        self.offset = end;
        Ok(taken)
    }

    pub fn byte(&mut self) -> (byte: Result<u8, DictionaryStorageError>)
        requires
            old(self).offset <= old(self).bytes@.len(),
        ensures
            reads(
                *old(self),
                *final(self),
                parse_byte(old(self).bytes@, old(self).offset as nat),
                byte,
            ),
            byte is Err ==> final(self).offset == old(self).offset,
    {
        match self.take(1) {
            Ok(raw) => Ok(raw[0]),
            Err(error) => Err(error),
        }
    }

    pub fn u32(&mut self) -> (value: Result<u32, DictionaryStorageError>)
        requires
            old(self).offset <= old(self).bytes@.len(),
        ensures
            reads(
                *old(self),
                *final(self),
                parse_u32(old(self).bytes@, old(self).offset as nat),
                value,
            ),
            value is Err ==> final(self).offset == old(self).offset,
    {
        match self.take(4) {
            Ok(raw) => Ok(read_le(raw) as u32),
            Err(error) => Err(error),
        }
    }

    pub fn u64(&mut self) -> (value: Result<u64, DictionaryStorageError>)
        requires
            old(self).offset <= old(self).bytes@.len(),
        ensures
            reads(
                *old(self),
                *final(self),
                parse_u64(old(self).bytes@, old(self).offset as nat),
                value,
            ),
            value is Err ==> final(self).offset == old(self).offset,
    {
        match self.take(8) {
            Ok(raw) => Ok(read_le(raw)),
            Err(error) => Err(error),
        }
    }

    pub fn length(&mut self) -> (length: Result<usize, DictionaryStorageError>)
        requires
            old(self).offset <= old(self).bytes@.len(),
        ensures
            reads(
                *old(self),
                *final(self),
                parse_length(old(self).bytes@, old(self).offset as nat),
                length,
            ),
            length is Err ==> final(self).offset == length_end(
                old(self).bytes@,
                old(self).offset as nat,
            ),
    {
        match self.u64() {
            Ok(value) => if value <= usize::MAX as u64 {
                Ok(value as usize)
            } else {
                Err(DictionaryStorageError::ValueOutOfRange(value))
            },
            Err(error) => Err(error),
        }
    }

    pub fn string(&mut self) -> (text: Result<String, DictionaryStorageError>)
        requires
            old(self).offset <= old(self).bytes@.len(),
        ensures
            reads(
                *old(self),
                *final(self),
                parse_string(old(self).bytes@, old(self).offset as nat),
                text,
            ),
            text is Err ==> final(self).offset == string_end(
                old(self).bytes@,
                old(self).offset as nat,
            ),
    {
        let offset: usize = self.offset;
        match self.length() {
            Ok(length) => match self.take(length) {
                Ok(raw) => match utf8_text(raw) {
                    Some(text) => Ok(text),
                    None => Err(DictionaryStorageError::InvalidUtf8 { offset }),
                },
                Err(error) => Err(error),
            },
            Err(error) => Err(error),
        }
    }
}

/// Reads two strings.
fn decode_two_strings(reader: &mut Cursor<'_>) -> (texts: Result<
    (String, String),
    DictionaryStorageError,
>)
    requires
        old(reader).offset <= old(reader).bytes@.len(),
    ensures
        final(reader).bytes@ == old(reader).bytes@,
        final(reader).offset <= final(reader).bytes@.len(),
        match parse_two_strings(old(reader).bytes@, old(reader).offset as nat) {
            Ok(((first, second), used)) => {
                &&& texts matches Ok((a, b)) && a@ == first && b@ == second
                &&& final(reader).offset == old(reader).offset + used
            },
            Err(fault) => {
                &&& texts matches Err(error) && error@ == fault
                &&& final(reader).offset == two_strings_end(
                    old(reader).bytes@,
                    old(reader).offset as nat,
                )
            },
        },
{
    match reader.string() {
        Ok(first) => match reader.string() {
            Ok(second) => Ok((first, second)),
            Err(error) => Err(error),
        },
        Err(error) => Err(error),
    }
}

/// Reads an optional label.
fn decode_label(reader: &mut Cursor<'_>) -> (label: Result<Option<String>, DictionaryStorageError>)
    requires
        old(reader).offset <= old(reader).bytes@.len(),
    ensures
        final(reader).bytes@ == old(reader).bytes@,
        final(reader).offset <= final(reader).bytes@.len(),
        match parse_label(old(reader).bytes@, old(reader).offset as nat) {
            Ok((expected, used)) => {
                &&& label matches Ok(read) && label_view(read) == expected
                &&& final(reader).offset == old(reader).offset + used
            },
            Err(fault) => {
                &&& label matches Err(error) && error@ == fault
                &&& final(reader).offset == label_end(
                    old(reader).bytes@,
                    old(reader).offset as nat,
                )
            },
        },
{
    match reader.byte() {
        Ok(flag) => if flag == 0 {
            Ok(None)
        } else {
            match reader.string() {
                Ok(label) => Ok(Some(label)),
                Err(error) => Err(error),
            }
        },
        Err(error) => Err(error),
    }
}

/// Reads the label of a map with the given tag.
fn decode_map_label(reader: &mut Cursor<'_>, tag: u8) -> (label: Result<
    Option<String>,
    DictionaryStorageError,
>)
    requires
        old(reader).offset <= old(reader).bytes@.len(),
    ensures
        final(reader).bytes@ == old(reader).bytes@,
        final(reader).offset <= final(reader).bytes@.len(),
        match parse_map_label(old(reader).bytes@, old(reader).offset as nat, tag) {
            Ok((expected, used)) => {
                &&& label matches Ok(read) && label_view(read) == expected
                &&& final(reader).offset == old(reader).offset + used
            },
            Err(fault) => {
                &&& label matches Err(error) && error@ == fault
                &&& final(reader).offset == map_label_end(
                    old(reader).bytes@,
                    old(reader).offset as nat,
                    tag,
                )
            },
        },
{
    if tag == TAG_LABELLED_MAP {
        match reader.string() {
            Ok(label) => Ok(Some(label)),
            Err(error) => Err(error),
        }
    } else {
        Ok(None)
    }
}

/// Reads values.
fn decode_values(reader: &mut Cursor<'_>, count: usize) -> (values: Result<
    Vec<AnyDataValue>,
    DictionaryStorageError,
>)
    requires
        old(reader).offset <= old(reader).bytes@.len(),
    ensures
        final(reader).bytes@ == old(reader).bytes@,
        final(reader).offset <= final(reader).bytes@.len(),
        match parse_values(old(reader).bytes@, old(reader).offset as nat, count as nat) {
            Ok((expected, used)) => {
                &&& values matches Ok(read) && values_view(read@) == expected
                &&& final(reader).offset == old(reader).offset + used
            },
            Err(fault) => {
                &&& values matches Err(error) && error@ == fault
                &&& final(reader).offset == values_end(
                    old(reader).bytes@,
                    old(reader).offset as nat,
                    count as nat,
                )
            },
        },
    decreases old(reader).bytes@.len() - old(reader).offset, 1nat,
{
    let ghost bytes = reader.bytes@;
    let ghost start = reader.offset as nat;
    let mut values: Vec<AnyDataValue> = Vec::new();
    let mut index: usize = 0;
    assert(values_view(values@) =~= Seq::<ValueView>::empty());
    while index < count
        invariant
            index <= count,
            reader.bytes@ == bytes,
            bytes == old(reader).bytes@,
            start == old(reader).offset,
            start <= reader.offset <= bytes.len(),
            parse_values(bytes, start, index as nat) == Ok::<_, DictionaryFault>(
                (values_view(values@), (reader.offset - start) as nat),
            ),
        decreases count - index,
    {
        let ghost before = values@;
        match decode_value(reader) {
            Ok(value) => {
                values.push(value);
                assert(values_view(values@) =~= values_view(before).push(value@));
            },
            Err(error) => {
                proof {
                    lemma_values_fault(bytes, start, (index + 1) as nat, count as nat);
                }
                return Err(error);
            },
        }
        index = index + 1;
    }
    Ok(values)
}

/// Reads pairs of values.
#[verifier::rlimit(40)]
fn decode_pairs(reader: &mut Cursor<'_>, count: usize) -> (pairs: Result<
    Vec<(AnyDataValue, AnyDataValue)>,
    DictionaryStorageError,
>)
    requires
        old(reader).offset <= old(reader).bytes@.len(),
    ensures
        final(reader).bytes@ == old(reader).bytes@,
        final(reader).offset <= final(reader).bytes@.len(),
        match parse_pairs(old(reader).bytes@, old(reader).offset as nat, count as nat) {
            Ok((expected, used)) => {
                &&& pairs matches Ok(read) && pairs_view(read@) == expected
                &&& final(reader).offset == old(reader).offset + used
            },
            Err(fault) => {
                &&& pairs matches Err(error) && error@ == fault
                &&& final(reader).offset == pairs_end(
                    old(reader).bytes@,
                    old(reader).offset as nat,
                    count as nat,
                )
            },
        },
    decreases old(reader).bytes@.len() - old(reader).offset, 1nat,
{
    let ghost bytes = reader.bytes@;
    let ghost start = reader.offset as nat;
    let mut pairs: Vec<(AnyDataValue, AnyDataValue)> = Vec::new();
    let mut index: usize = 0;
    assert(pairs_view(pairs@) =~= Seq::<(ValueView, ValueView)>::empty());
    while index < count
        invariant
            index <= count,
            reader.bytes@ == bytes,
            bytes == old(reader).bytes@,
            start == old(reader).offset,
            start <= reader.offset <= bytes.len(),
            parse_pairs(bytes, start, index as nat) == Ok::<_, DictionaryFault>(
                (pairs_view(pairs@), (reader.offset - start) as nat),
            ),
        decreases count - index,
    {
        let ghost before = pairs@;
        let key = match decode_value(reader) {
            Ok(key) => key,
            Err(error) => {
                proof {
                    lemma_pairs_fault(bytes, start, (index + 1) as nat, count as nat);
                }
                return Err(error);
            },
        };
        match decode_value(reader) {
            Ok(value) => {
                pairs.push((key, value));
                assert(pairs_view(pairs@) =~= pairs_view(before).push((key@, value@)));
            },
            Err(error) => {
                proof {
                    lemma_pairs_fault(bytes, start, (index + 1) as nat, count as nat);
                }
                return Err(error);
            },
        }
        index = index + 1;
    }
    Ok(pairs)
}

/// Reads a single data value.
pub fn decode_value(reader: &mut Cursor<'_>) -> (value: Result<AnyDataValue, DictionaryStorageError>)
    requires
        old(reader).offset <= old(reader).bytes@.len(),
    ensures
        reads(
            *old(reader),
            *final(reader),
            parse_value(old(reader).bytes@, old(reader).offset as nat),
            value,
        ),
        value is Err ==> final(reader).offset == value_end(
            old(reader).bytes@,
            old(reader).offset as nat,
        ),
    decreases old(reader).bytes@.len() - old(reader).offset, 0nat,
{
    let tag = match reader.byte() {
        Ok(tag) => tag,
        Err(error) => return Err(error),
    };
    if tag == TAG_STRING {
        match reader.string() {
            Ok(text) => Ok(AnyDataValue::new_plain_string(text)),
            Err(error) => Err(error),
        }
    } else if tag == TAG_IRI {
        match reader.string() {
            Ok(text) => Ok(AnyDataValue::new_iri(text)),
            Err(error) => Err(error),
        }
    } else if tag == TAG_LANG_STRING {
        match decode_two_strings(reader) {
            Ok((text, tag)) => Ok(AnyDataValue::new_language_tagged_string(text, tag)),
            Err(error) => Err(error),
        }
    } else if tag == TAG_NULL {
        match reader.length() {
            Ok(id) => Ok(AnyDataValue::new_null(id)),
            Err(error) => Err(error),
        }
    } else if tag == TAG_TUPLE {
        let label = match decode_label(reader) {
            Ok(label) => label,
            Err(error) => return Err(error),
        };
        let count: usize = match reader.length() {
            Ok(count) => count,
            Err(error) => return Err(error),
        };
        match decode_values(reader, count) {
            Ok(elements) => Ok(AnyDataValue::new_tuple(label, elements)),
            Err(error) => Err(error),
        }
    } else if tag == TAG_MAP || tag == TAG_LABELLED_MAP {
        let label = match decode_map_label(reader, tag) {
            Ok(label) => label,
            Err(error) => return Err(error),
        };
        let count: usize = match reader.length() {
            Ok(count) => count,
            Err(error) => return Err(error),
        };
        match decode_pairs(reader, count) {
            Ok(pairs) => Ok(AnyDataValue::new_map(label, pairs)),
            Err(error) => Err(error),
        }
    } else if tag == TAG_LITERAL {
        match decode_two_strings(reader) {
            Ok((lexical, datatype)) => {
                match AnyDataValue::new_from_typed_literal(lexical.as_str(), datatype.as_str()) {
                    Some(value) => Ok(value),
                    None => Err(DictionaryStorageError::MalformedLiteral { lexical, datatype }),
                }
            },
            Err(error) => Err(error),
        }
    } else {
        Err(DictionaryStorageError::UnknownValueTag(tag))
    }
}

/// The encoding of a string.
pub open spec fn string_bytes(text: Seq<char>) -> Seq<u8> {
    le_bytes(encode_utf8(text).len(), 8) + encode_utf8(text)
}

/// The encoding of an optional label.
pub open spec fn label_bytes(label: Option<Seq<char>>) -> Seq<u8> {
    match label {
        Some(text) => seq![1u8] + string_bytes(text),
        None => seq![0u8],
    }
}

/// The tag of a map, which says whether it has a label.
pub open spec fn map_tag(label: Option<Seq<char>>) -> u8 {
    match label {
        Some(_) => TAG_LABELLED_MAP,
        None => TAG_MAP,
    }
}

/// The tag of a map, and its label where it has one.
pub open spec fn map_head(label: Option<Seq<char>>) -> Seq<u8> {
    match label {
        Some(text) => seq![TAG_LABELLED_MAP] + string_bytes(text),
        None => seq![TAG_MAP],
    }
}

/// The encoding of a value.
pub open spec fn value_bytes(value: ValueView) -> Seq<u8>
    decreases value,
{
    match value {
        ValueView::PlainString(text) => seq![TAG_STRING] + string_bytes(text),
        ValueView::Iri(text) => seq![TAG_IRI] + string_bytes(text),
        ValueView::LanguageTaggedString(text, tag) => seq![TAG_LANG_STRING] + (string_bytes(text)
            + string_bytes(tag)),
        ValueView::Null(id) => seq![TAG_NULL] + le_bytes(id as nat, 8),
        ValueView::Tuple(label, elements) => seq![TAG_TUPLE] + (label_bytes(label) + (le_bytes(
            elements.len(),
            8,
        ) + values_bytes(elements))),
        ValueView::MapValue(label, pairs) => map_head(label) + (le_bytes(pairs.len(), 8)
            + pairs_bytes(pairs)),
        _ => seq![TAG_LITERAL] + (string_bytes(lexical_form(value)) + string_bytes(
            literal_datatype(value),
        )),
    }
}

/// The encodings of values, one behind the other.
pub open spec fn values_bytes(values: Seq<ValueView>) -> Seq<u8>
    decreases values,
{
    if values.len() == 0 {
        Seq::empty()
    } else {
        values_bytes(values.drop_last()) + value_bytes(values[values.len() - 1])
    }
}

/// The encodings of keys and values, one pair behind the other.
pub open spec fn pairs_bytes(pairs: Seq<(ValueView, ValueView)>) -> Seq<u8>
    decreases pairs,
{
    if pairs.len() == 0 {
        Seq::empty()
    } else {
        pairs_bytes(pairs.drop_last()) + (value_bytes(pairs[pairs.len() - 1].0) + value_bytes(
            pairs[pairs.len() - 1].1,
        ))
    }
}

/// Appends a length-prefixed UTF-8 string.
fn encode_string(text: &str, out: &mut Vec<u8>)
    ensures
        final(out)@ == old(out)@ + string_bytes(text@),
{
    let raw = text.as_bytes();
    push_le(out, raw.len() as u64, 8);
    out.extend_from_slice(raw);
    assert(out@ =~= old(out)@ + string_bytes(text@));
}

/// Appends an optional label.
fn encode_label(label: &Option<String>, out: &mut Vec<u8>)
    ensures
        final(out)@ == old(out)@ + label_bytes(label_view(*label)),
{
    match label {
        Some(text) => {
            out.push(1);
            encode_string(text.as_str(), out);
        },
        None => {
            out.push(0);
        },
    }
    assert(out@ =~= old(out)@ + label_bytes(label_view(*label)));
}

/// Appends the tag of a map, and its label where it has one.
fn encode_map_head(label: &Option<String>, out: &mut Vec<u8>)
    ensures
        final(out)@ == old(out)@ + map_head(label_view(*label)),
{
    match label {
        Some(text) => {
            out.push(TAG_LABELLED_MAP);
            encode_string(text.as_str(), out);
        },
        None => {
            out.push(TAG_MAP);
        },
    }
    assert(out@ =~= old(out)@ + map_head(label_view(*label)));
}

/// Appends a single data value.
#[verifier::rlimit(40)]
pub fn encode_value(value: &AnyDataValue, out: &mut Vec<u8>)
    ensures
        final(out)@ == old(out)@ + value_bytes(value@),
    decreases value,
{
    proof {
        lemma_composite_view(*value);
    }
    match value {
        AnyDataValue::PlainString(text) => {
            out.push(TAG_STRING);
            encode_string(text.as_str(), out);
        },
        AnyDataValue::Iri(text) => {
            out.push(TAG_IRI);
            encode_string(text.as_str(), out);
        },
        AnyDataValue::LanguageTaggedString(text, tag) => {
            out.push(TAG_LANG_STRING);
            encode_string(text.as_str(), out);
            encode_string(tag.as_str(), out);
        },
        AnyDataValue::Null(id) => {
            out.push(TAG_NULL);
            push_le(out, *id as u64, 8);
        },
        AnyDataValue::Tuple(label, elements) => {
            out.push(TAG_TUPLE);
            encode_label(label, out);
            push_le(out, elements.len() as u64, 8);
            let ghost before = out@;
            let ghost views = values_view(elements@);
            let mut index: usize = 0;
            assert(out@ =~= before + values_bytes(views.take(0)));
            while index < elements.len()
                invariant
                    index <= elements@.len(),
                    views == values_view(elements@),
                    out@ == before + values_bytes(views.take(index as int)),
                    *value is Tuple,
                    value->Tuple_1 == *elements,
                decreases elements@.len() - index,
            {
                proof {
                    assert(decreases_to!(*value => value->Tuple_1));
                    assert(decreases_to!(*elements => elements@));
                    assert(decreases_to!(elements@ => elements@[index as int]));
                    let now = views.take(index + 1);
                    assert(now.drop_last() =~= views.take(index as int));
                    assert(now[now.len() - 1] == elements@[index as int]@);
                }
                encode_value(&elements[index], out);
                index = index + 1;
                assert(out@ =~= before + values_bytes(views.take(index as int)));
            }
            assert(views.take(index as int) =~= views);
        },
        AnyDataValue::MapValue(label, pairs) => {
            encode_map_head(label, out);
            push_le(out, pairs.len() as u64, 8);
            let ghost before = out@;
            let ghost views = pairs_view(pairs@);
            let mut index: usize = 0;
            assert(out@ =~= before + pairs_bytes(views.take(0)));
            while index < pairs.len()
                invariant
                    index <= pairs@.len(),
                    views == pairs_view(pairs@),
                    out@ == before + pairs_bytes(views.take(index as int)),
                    *value is MapValue,
                    value->MapValue_1 == *pairs,
                decreases pairs@.len() - index,
            {
                proof {
                    assert(decreases_to!(*value => value->MapValue_1));
                    assert(decreases_to!(*pairs => pairs@));
                    assert(decreases_to!(pairs@ => pairs@[index as int]));
                    let now = views.take(index + 1);
                    assert(now.drop_last() =~= views.take(index as int));
                    assert(now[now.len() - 1] == (pairs@[index as int].0@, pairs@[index as int].1@));
                }
                encode_value(&pairs[index].0, out);
                encode_value(&pairs[index].1, out);
                index = index + 1;
                assert(out@ =~= before + pairs_bytes(views.take(index as int)));
            }
            assert(views.take(index as int) =~= views);
        },
        _ => {
            out.push(TAG_LITERAL);
            encode_string(value.lexical_value().as_str(), out);
            encode_string(value.datatype_iri().as_str(), out);
        },
    }
    assert(out@ =~= old(out)@ + value_bytes(value@));
}

pub proof fn lemma_parse_length(bytes: Seq<u8>, at: nat, value: nat)
    requires
        value <= usize::MAX,
        holds_at(bytes, at, le_bytes(value, 8)),
    ensures
        parse_length(bytes, at) == Ok::<_, DictionaryFault>((value as usize, 8nat)),
{
    lemma_pow256_values();
    lemma_le_round_trip(value, 8);
}

proof fn lemma_parse_tag(bytes: Seq<u8>, at: nat, tag: u8, rest: Seq<u8>)
    requires
        holds_at(bytes, at, seq![tag] + rest),
    ensures
        parse_byte(bytes, at) == Ok::<_, DictionaryFault>((tag, 1nat)),
        holds_at(bytes, at + 1, rest),
{
    lemma_holds_parts(bytes, at, seq![tag], rest);
    assert(bytes.subrange(at as int, (at + 1) as int)[0] == seq![tag][0]);
}

proof fn lemma_parse_string(bytes: Seq<u8>, at: nat, text: Seq<char>)
    requires
        bytes.len() <= usize::MAX,
        holds_at(bytes, at, string_bytes(text)),
    ensures
        parse_string(bytes, at) == Ok::<_, DictionaryFault>((text, string_bytes(text).len())),
{
    let raw = encode_utf8(text);
    lemma_le_len(raw.len(), 8);
    lemma_holds_parts(bytes, at, le_bytes(raw.len(), 8), raw);
    lemma_parse_length(bytes, at, raw.len());
    encode_utf8_valid_utf8(text);
    encode_utf8_decode_utf8(text);
}

proof fn lemma_parse_two_strings(bytes: Seq<u8>, at: nat, first: Seq<char>, second: Seq<char>)
    requires
        bytes.len() <= usize::MAX,
        holds_at(bytes, at, string_bytes(first) + string_bytes(second)),
    ensures
        parse_two_strings(bytes, at) == Ok::<_, DictionaryFault>(
            ((first, second), (string_bytes(first) + string_bytes(second)).len()),
        ),
{
    lemma_holds_parts(bytes, at, string_bytes(first), string_bytes(second));
    lemma_parse_string(bytes, at, first);
    lemma_parse_string(bytes, at + string_bytes(first).len(), second);
}

proof fn lemma_parse_label(bytes: Seq<u8>, at: nat, label: Option<Seq<char>>)
    requires
        bytes.len() <= usize::MAX,
        holds_at(bytes, at, label_bytes(label)),
    ensures
        parse_label(bytes, at) == Ok::<_, DictionaryFault>((label, label_bytes(label).len())),
{
    match label {
        Some(text) => {
            lemma_parse_tag(bytes, at, 1, string_bytes(text));
            lemma_parse_string(bytes, at + 1, text);
        },
        None => {
            assert(seq![0u8] + Seq::<u8>::empty() =~= seq![0u8]);
            lemma_parse_tag(bytes, at, 0, Seq::empty());
        },
    }
}

proof fn lemma_counts(values: Seq<ValueView>, pairs: Seq<(ValueView, ValueView)>)
    ensures
        values.len() <= values_bytes(values).len(),
        pairs.len() <= pairs_bytes(pairs).len(),
    decreases values.len() + pairs.len(),
{
    if values.len() > 0 {
        lemma_counts(values.drop_last(), Seq::empty());
        lemma_value_nonempty(values[values.len() - 1]);
    }
    if pairs.len() > 0 {
        lemma_counts(Seq::empty(), pairs.drop_last());
        lemma_value_nonempty(pairs[pairs.len() - 1].0);
    }
}

proof fn lemma_value_nonempty(value: ValueView)
    ensures
        value_bytes(value).len() > 0,
{
}

proof fn lemma_parse_map_head(bytes: Seq<u8>, at: nat, label: Option<Seq<char>>, rest: Seq<u8>)
    requires
        bytes.len() <= usize::MAX,
        holds_at(bytes, at, map_head(label) + rest),
    ensures
        parse_byte(bytes, at) == Ok::<_, DictionaryFault>((map_tag(label), 1nat)),
        parse_map_label(bytes, at + 1, map_tag(label)) == Ok::<_, DictionaryFault>(
            (label, (map_head(label).len() - 1) as nat),
        ),
        holds_at(bytes, at + map_head(label).len(), rest),
{
    match label {
        Some(text) => {
            let behind = string_bytes(text) + rest;
            assert(map_head(label) + rest =~= seq![TAG_LABELLED_MAP] + behind);
            lemma_parse_tag(bytes, at, TAG_LABELLED_MAP, behind);
            lemma_holds_parts(bytes, at + 1, string_bytes(text), rest);
            lemma_parse_string(bytes, at + 1, text);
        },
        None => {
            lemma_parse_tag(bytes, at, TAG_MAP, rest);
        },
    }
}

/// A map can be read wherever its encoding stands and its pairs can be read.
proof fn lemma_parse_map(
    bytes: Seq<u8>,
    at: nat,
    label: Option<Seq<char>>,
    pairs: Seq<(ValueView, ValueView)>,
)
    requires
        bytes.len() <= usize::MAX,
        distinct_keys(pairs),
        holds_at(bytes, at, value_bytes(ValueView::MapValue(label, pairs))),
        parse_pairs(bytes, at + map_head(label).len() + 8, pairs.len()) == Ok::<
            _,
            DictionaryFault,
        >((pairs, pairs_bytes(pairs).len())),
    ensures
        parse_value(bytes, at) == Ok::<_, DictionaryFault>(
            (
                ValueView::MapValue(label, pairs),
                value_bytes(ValueView::MapValue(label, pairs)).len(),
            ),
        ),
{
    let counted = le_bytes(pairs.len(), 8);
    let body = pairs_bytes(pairs);
    let after = at + map_head(label).len();
    lemma_le_len(pairs.len(), 8);
    lemma_parse_map_head(bytes, at, label, counted + body);
    lemma_holds_parts(bytes, after, counted, body);
    lemma_counts(Seq::empty(), pairs);
    lemma_parse_length(bytes, after, pairs.len());
    lemma_collapsed(pairs);
}

/// A value can be read wherever its encoding stands.
pub proof fn lemma_value_round_trip(bytes: Seq<u8>, at: nat, value: ValueView)
    requires
        bytes.len() <= usize::MAX,
        valid_value(value),
        holds_at(bytes, at, value_bytes(value)),
    ensures
        parse_value(bytes, at) == Ok::<_, DictionaryFault>((value, value_bytes(value).len())),
    decreases value,
{
    match value {
        ValueView::PlainString(text) => {
            lemma_parse_tag(bytes, at, TAG_STRING, string_bytes(text));
            lemma_parse_string(bytes, at + 1, text);
        },
        ValueView::Iri(text) => {
            lemma_parse_tag(bytes, at, TAG_IRI, string_bytes(text));
            lemma_parse_string(bytes, at + 1, text);
        },
        ValueView::LanguageTaggedString(text, tag) => {
            lemma_parse_tag(bytes, at, TAG_LANG_STRING, string_bytes(text) + string_bytes(tag));
            lemma_parse_two_strings(bytes, at + 1, text, tag);
        },
        ValueView::Null(id) => {
            lemma_parse_tag(bytes, at, TAG_NULL, le_bytes(id as nat, 8));
            lemma_le_len(id as nat, 8);
            lemma_parse_length(bytes, at + 1, id as nat);
        },
        ValueView::Tuple(label, elements) => {
            let counted = le_bytes(elements.len(), 8);
            let body = values_bytes(elements);
            lemma_le_len(elements.len(), 8);
            lemma_parse_tag(bytes, at, TAG_TUPLE, label_bytes(label) + (counted + body));
            lemma_holds_parts(bytes, at + 1, label_bytes(label), counted + body);
            lemma_parse_label(bytes, at + 1, label);
            let after = at + 1 + label_bytes(label).len();
            lemma_holds_parts(bytes, after, counted, body);
            lemma_counts(elements, Seq::empty());
            lemma_parse_length(bytes, after, elements.len());
            lemma_values_round_trip(bytes, after + 8, elements);
        },
        ValueView::MapValue(label, pairs) => {
            let counted = le_bytes(pairs.len(), 8);
            let body = pairs_bytes(pairs);
            let after = at + map_head(label).len();
            lemma_parse_map_head(bytes, at, label, counted + body);
            lemma_le_len(pairs.len(), 8);
            lemma_holds_parts(bytes, after, counted, body);
            lemma_pairs_round_trip(bytes, after + 8, pairs);
            lemma_parse_map(bytes, at, label, pairs);
        },
        _ => {
            let lexical = lexical_form(value);
            let datatype = literal_datatype(value);
            lemma_parse_tag(bytes, at, TAG_LITERAL, string_bytes(lexical) + string_bytes(datatype));
            lemma_parse_two_strings(bytes, at + 1, lexical, datatype);
            lemma_literal_rebuilds(value);
        },
    }
}

proof fn lemma_values_round_trip(bytes: Seq<u8>, at: nat, values: Seq<ValueView>)
    requires
        bytes.len() <= usize::MAX,
        forall|i: int| 0 <= i < values.len() ==> valid_value(#[trigger] values[i]),
        holds_at(bytes, at, values_bytes(values)),
    ensures
        parse_values(bytes, at, values.len()) == Ok::<_, DictionaryFault>(
            (values, values_bytes(values).len()),
        ),
    decreases values,
{
    if values.len() > 0 {
        let front = values.drop_last();
        let last = values[values.len() - 1];
        lemma_holds_parts(bytes, at, values_bytes(front), value_bytes(last));
        assert forall|i: int| 0 <= i < front.len() implies valid_value(#[trigger] front[i]) by {
            assert(front[i] == values[i]);
        }
        lemma_values_round_trip(bytes, at, front);
        lemma_value_round_trip(bytes, at + values_bytes(front).len(), last);
        assert(front.push(last) =~= values);
    } else {
        assert(values =~= Seq::<ValueView>::empty());
    }
}

#[verifier::rlimit(40)]
proof fn lemma_pairs_round_trip(bytes: Seq<u8>, at: nat, pairs: Seq<(ValueView, ValueView)>)
    requires
        bytes.len() <= usize::MAX,
        forall|i: int|
            0 <= i < pairs.len() ==> valid_value((#[trigger] pairs[i]).0) && valid_value(pairs[i].1),
        holds_at(bytes, at, pairs_bytes(pairs)),
    ensures
        parse_pairs(bytes, at, pairs.len()) == Ok::<_, DictionaryFault>(
            (pairs, pairs_bytes(pairs).len()),
        ),
    decreases pairs,
{
    if pairs.len() > 0 {
        let front = pairs.drop_last();
        let last = pairs[pairs.len() - 1];
        let key = value_bytes(last.0);
        let value = value_bytes(last.1);
        lemma_holds_parts(bytes, at, pairs_bytes(front), key + value);
        lemma_holds_parts(bytes, at + pairs_bytes(front).len(), key, value);
        assert forall|i: int| 0 <= i < front.len() implies valid_value((#[trigger] front[i]).0)
            && valid_value(front[i].1) by {
            assert(front[i] == pairs[i]);
        }
        lemma_pairs_round_trip(bytes, at, front);
        lemma_value_round_trip(bytes, at + pairs_bytes(front).len(), last.0);
        lemma_value_round_trip(bytes, at + pairs_bytes(front).len() + key.len(), last.1);
        assert(front.push(last) =~= pairs);
    } else {
        assert(pairs =~= Seq::<(ValueView, ValueView)>::empty());
    }
}

/// A value with an unknown tag is rejected by that tag, whatever follows it.
pub proof fn lemma_unknown_tag_rejected(bytes: Seq<u8>, at: nat)
    requires
        at < bytes.len(),
        bytes[at as int] == 7 || bytes[at as int] > 8,
    ensures
        parse_value(bytes, at) == Err::<(ValueView, nat), _>(
            DictionaryFault::UnknownValueTag(bytes[at as int]),
        ),
{
    assert(bytes.subrange(at as int, (at + 1) as int)[0] == bytes[at as int]);
}

/// Where there is no byte, there is no value: one byte is missing there.
pub proof fn lemma_no_value_behind_the_end(bytes: Seq<u8>, at: nat)
    requires
        at >= bytes.len(),
    ensures
        parse_value(bytes, at) == Err::<(ValueView, nat), _>(
            DictionaryFault::Truncated { offset: at, needed: 1 },
        ),
{
}

/// How the encoding of each kind of value starts: with its tag, and for texts with
/// their lengths in bytes.
pub proof fn lemma_value_tags(value: ValueView)
    ensures
        value_bytes(value).len() > 0,
        value_bytes(value)[0] == (match value {
            ValueView::PlainString(_) => 1u8,
            ValueView::Iri(_) => 2u8,
            ValueView::LanguageTaggedString(_, _) => 3u8,
            ValueView::Null(_) => 4u8,
            ValueView::Tuple(_, _) => 5u8,
            ValueView::MapValue(None, _) => 6u8,
            ValueView::MapValue(Some(_), _) => 8u8,
            _ => 0u8,
        }),
        value matches ValueView::PlainString(text) ==> value_bytes(value).skip(1) == le_bytes(
            encode_utf8(text).len(),
            8,
        ) + encode_utf8(text),
        value matches ValueView::Iri(text) ==> value_bytes(value).skip(1) == le_bytes(
            encode_utf8(text).len(),
            8,
        ) + encode_utf8(text),
        value matches ValueView::Null(id) ==> value_bytes(value).skip(1) == le_bytes(id as nat, 8),
{
    match value {
        ValueView::PlainString(text) => {
            assert(value_bytes(value).skip(1) =~= string_bytes(text));
        },
        ValueView::Iri(text) => {
            assert(value_bytes(value).skip(1) =~= string_bytes(text));
        },
        ValueView::Null(id) => {
            assert(value_bytes(value).skip(1) =~= le_bytes(id as nat, 8));
        },
        _ => {},
    }
}

/// A text that is not UTF-8 is reported where its length stands; one that is cut off,
/// where it is cut off.
pub proof fn lemma_bad_texts_rejected(bytes: Seq<u8>, at: nat, length: usize)
    requires
        holds_at(bytes, at, le_bytes(length as nat, 8)),
    ensures
        parse_string(bytes, at) == (if at + 8 + length > bytes.len() {
            Err(DictionaryFault::Truncated { offset: at + 8, needed: length as nat })
        } else if !valid_utf8(bytes.subrange(at as int + 8, at + 8 + length)) {
            Err(DictionaryFault::InvalidUtf8 { offset: at })
        } else {
            Ok((decode_utf8(bytes.subrange(at as int + 8, at + 8 + length)), (8 + length) as nat))
        }),
{
    lemma_parse_length(bytes, at, length as nat);
}

/// A message tells what its fault holds: versions, places and numbers, each in the
/// place where it is expected.
pub proof fn lemma_dictionary_messages(
    found: u32,
    expected: u32,
    offset: nat,
    needed: nat,
    tag: u8,
    lexical: Seq<char>,
    datatype: Seq<char>,
)
    ensures
        ({
            let text = fault_text(DictionaryFault::VersionMismatch { found, expected });
            &&& reads_at(text, 39, decimal(found as nat))
            &&& reads_at(
                text,
                text.len() - decimal(expected as nat).len(),
                decimal(expected as nat),
            )
        }),
        ({
            let text = fault_text(DictionaryFault::Truncated { offset, needed });
            &&& reads_at(text, 45, decimal(needed))
            &&& reads_at(text, text.len() - decimal(offset).len(), decimal(offset))
        }),
        reads_at(fault_text(DictionaryFault::UnknownValueTag(tag)), 22, decimal(tag as nat)),
        reads_at(fault_text(DictionaryFault::InvalidUtf8 { offset }), 23, decimal(offset)),
        reads_at(malformed_literal_text(lexical, datatype), 23, lexical),
        reads_at(
            malformed_literal_text(lexical, datatype),
            malformed_literal_text(lexical, datatype).len() - datatype.len(),
            datatype,
        ),
{
    reveal_strlit("dictionary snapshot has layout version ");
    reveal_strlit("dictionary snapshot ends prematurely: needed ");
    reveal_strlit("unknown datavalue tag ");
    reveal_strlit("string field at offset ");
    reveal_strlit("cannot rebuild literal ");
    let version = fault_text(DictionaryFault::VersionMismatch { found, expected });
    let a = decimal(found as nat);
    let b = decimal(expected as nat);
    assert(version.subrange(39, 39 + a.len() as int) =~= a);
    assert(version.subrange(version.len() - b.len(), version.len() as int) =~= b);
    let truncated = fault_text(DictionaryFault::Truncated { offset, needed });
    let c = decimal(needed);
    let d = decimal(offset);
    assert(truncated.subrange(45, 45 + c.len() as int) =~= c);
    assert(truncated.subrange(truncated.len() - d.len(), truncated.len() as int) =~= d);
    let unknown = fault_text(DictionaryFault::UnknownValueTag(tag));
    let e = decimal(tag as nat);
    assert(unknown.subrange(22, 22 + e.len() as int) =~= e);
    let invalid = fault_text(DictionaryFault::InvalidUtf8 { offset });
    assert(invalid.subrange(23, 23 + d.len() as int) =~= d);
    let literal = malformed_literal_text(lexical, datatype);
    assert(literal.subrange(23, 23 + lexical.len() as int) =~= lexical);
    assert(literal.subrange(literal.len() - datatype.len(), literal.len() as int) =~= datatype);
}

/// What a decoder gives is valid: literals are read as what they denote, and no map has
/// a key twice.
pub proof fn lemma_decoded_values_are_valid(bytes: Seq<u8>, at: nat)
    ensures
        parse_value(bytes, at) matches Ok((value, _)) ==> valid_value(value),
    decreases remaining(bytes, at), 0nat, 0nat,
{
    if let Ok((value, _)) = parse_value(bytes, at) {
        let tag = bytes[at as int];
        assert(bytes.subrange(at as int, (at + 1) as int)[0] == tag);
        if tag == TAG_TUPLE {
            let (_, before) = parse_label(bytes, at + 1)->Ok_0;
            let (count, more) = parse_length(bytes, at + 1 + before)->Ok_0;
            lemma_decoded_elements_are_valid(bytes, at + 1 + before + more, count as nat);
        } else if tag == TAG_MAP || tag == TAG_LABELLED_MAP {
            let (_, before) = parse_map_label(bytes, at + 1, tag)->Ok_0;
            let (count, more) = parse_length(bytes, at + 1 + before)->Ok_0;
            let start = at + 1 + before + more;
            lemma_decoded_pairs_are_valid(bytes, start, count as nat);
            let pairs = parse_pairs(bytes, start, count as nat)->Ok_0.0;
            lemma_collapsed(pairs);
            assert forall|i: int| 0 <= i < collapsed(pairs).len() implies valid_value(
                (#[trigger] collapsed(pairs)[i]).0,
            ) && valid_value(collapsed(pairs)[i].1) by {
                lemma_last_value_counts(pairs, collapsed(pairs)[i].0);
            }
        }
    }
}

proof fn lemma_decoded_elements_are_valid(bytes: Seq<u8>, at: nat, count: nat)
    ensures
        parse_values(bytes, at, count) matches Ok((values, _)) ==> forall|i: int|
            0 <= i < values.len() ==> valid_value(#[trigger] values[i]),
    decreases remaining(bytes, at), 1nat, count,
{
    if count > 0 {
        lemma_decoded_elements_are_valid(bytes, at, (count - 1) as nat);
        if let Ok((_, used)) = parse_values(bytes, at, (count - 1) as nat) {
            lemma_decoded_values_are_valid(bytes, at + used);
        }
    }
}

proof fn lemma_decoded_pairs_are_valid(bytes: Seq<u8>, at: nat, count: nat)
    ensures
        parse_pairs(bytes, at, count) matches Ok((pairs, _)) ==> forall|i: int|
            0 <= i < pairs.len() ==> valid_value((#[trigger] pairs[i]).0) && valid_value(
                pairs[i].1,
            ),
    decreases remaining(bytes, at), 1nat, count,
{
    if count > 0 {
        lemma_decoded_pairs_are_valid(bytes, at, (count - 1) as nat);
        if let Ok((_, used)) = parse_pairs(bytes, at, (count - 1) as nat) {
            lemma_decoded_values_are_valid(bytes, at + used);
            if let Ok((_, more)) = parse_value(bytes, at + used) {
                lemma_decoded_values_are_valid(bytes, at + used + more);
            }
        }
    }
}

/// An encoded map may hold a key more than once: it is read as the map in which every
/// key has the value that it was last given.
pub proof fn lemma_repeated_keys_read(
    bytes: Seq<u8>,
    at: nat,
    label: Option<Seq<char>>,
    pairs: Seq<(ValueView, ValueView)>,
)
    requires
        bytes.len() <= usize::MAX,
        forall|i: int|
            0 <= i < pairs.len() ==> valid_value((#[trigger] pairs[i]).0) && valid_value(pairs[i].1),
        holds_at(bytes, at, value_bytes(ValueView::MapValue(label, pairs))),
    ensures
        parse_value(bytes, at) == Ok::<_, DictionaryFault>(
            (
                ValueView::MapValue(label, collapsed(pairs)),
                value_bytes(ValueView::MapValue(label, pairs)).len(),
            ),
        ),
{
    let counted = le_bytes(pairs.len(), 8);
    let body = pairs_bytes(pairs);
    let after = at + map_head(label).len();
    lemma_le_len(pairs.len(), 8);
    lemma_parse_map_head(bytes, at, label, counted + body);
    lemma_holds_parts(bytes, after, counted, body);
    lemma_counts(Seq::empty(), pairs);
    lemma_parse_length(bytes, after, pairs.len());
    lemma_pairs_round_trip(bytes, after + 8, pairs);
}

/// An encoded literal, whatever its lexical form and its datatype, is read as the value
/// that it denotes; where it denotes none, it is rejected, and both parts are reported.
pub proof fn lemma_literals_read(
    bytes: Seq<u8>,
    at: nat,
    lexical: Seq<char>,
    datatype: Seq<char>,
)
    requires
        bytes.len() <= usize::MAX,
        holds_at(bytes, at, seq![0u8] + (string_bytes(lexical) + string_bytes(datatype))),
    ensures
        match typed_literal(lexical, datatype) {
            Some(value) => parse_value(bytes, at) == Ok::<_, DictionaryFault>(
                (value, 1 + string_bytes(lexical).len() + string_bytes(datatype).len()),
            ),
            None => parse_value(bytes, at) == Err::<(ValueView, nat), _>(
                DictionaryFault::MalformedLiteral { lexical, datatype },
            ),
        },
{
    lemma_parse_tag(bytes, at, 0, string_bytes(lexical) + string_bytes(datatype));
    lemma_parse_two_strings(bytes, at + 1, lexical, datatype);
}

/// A number is read where its bytes stand, and reported as cut off where they do not all
/// stand there.
pub proof fn lemma_numbers_read(bytes: Seq<u8>, at: nat, short: u32, long: u64)
    ensures
        holds_at(bytes, at, le_bytes(short as nat, 4)) ==> parse_u32(bytes, at) == Ok::<
            _,
            DictionaryFault,
        >((short, 4nat)),
        holds_at(bytes, at, le_bytes(long as nat, 8)) ==> parse_u64(bytes, at) == Ok::<
            _,
            DictionaryFault,
        >((long, 8nat)),
        at < bytes.len() ==> parse_byte(bytes, at) == Ok::<_, DictionaryFault>(
            (bytes[at as int], 1nat),
        ),
        bytes.len() < at + 1 ==> parse_byte(bytes, at) == Err::<(u8, nat), _>(
            DictionaryFault::Truncated { offset: at, needed: 1 },
        ),
        bytes.len() < at + 4 ==> parse_u32(bytes, at) == Err::<(u32, nat), _>(
            DictionaryFault::Truncated { offset: at, needed: 4 },
        ),
        bytes.len() < at + 8 ==> parse_u64(bytes, at) == Err::<(u64, nat), _>(
            DictionaryFault::Truncated { offset: at, needed: 8 },
        ),
        bytes.len() < at + 8 ==> parse_length(bytes, at) == Err::<(usize, nat), _>(
            DictionaryFault::Truncated { offset: at, needed: 8 },
        ),
        holds_at(bytes, at, le_bytes(long as nat, 8)) && long > usize::MAX ==> parse_length(
            bytes,
            at,
        ) == Err::<(usize, nat), _>(DictionaryFault::ValueOutOfRange(long)),
{
    lemma_pow256_values();
    lemma_le_round_trip(short as nat, 4);
    lemma_le_round_trip(long as nat, 8);
    if at < bytes.len() {
        assert(bytes.subrange(at as int, (at + 1) as int)[0] == bytes[at as int]);
    }
}

/// A label is there wherever its flag is not zero.
pub proof fn lemma_labels_read(bytes: Seq<u8>, at: nat, text: Seq<char>)
    requires
        bytes.len() <= usize::MAX,
        at < bytes.len(),
    ensures
        bytes[at as int] == 0 ==> parse_label(bytes, at) == Ok::<_, DictionaryFault>(
            (None::<Seq<char>>, 1nat),
        ),
        bytes[at as int] != 0 && holds_at(bytes, at + 1, string_bytes(text)) ==> parse_label(
            bytes,
            at,
        ) == Ok::<_, DictionaryFault>((Some(text), 1 + string_bytes(text).len())),
{
    assert(bytes.subrange(at as int, (at + 1) as int)[0] == bytes[at as int]);
    if holds_at(bytes, at + 1, string_bytes(text)) {
        lemma_parse_string(bytes, at + 1, text);
    }
}

/// Whether a reading that started at `at` ended as it must: behind what it has read
/// where it succeeded, where the missing bytes should stand where the input is cut off,
/// and otherwise behind what it could not accept.
pub open spec fn ends_rightly<T>(
    bytes: Seq<u8>,
    at: nat,
    parsed: Result<(T, nat), DictionaryFault>,
    end: nat,
) -> bool {
    &&& at <= end <= bytes.len()
    &&& match parsed {
        Ok((_, used)) => end == at + used,
        Err(DictionaryFault::Truncated { offset, needed }) => end == offset && bytes.len() < offset
            + needed,
        Err(_) => at < end,
    }
}

proof fn lemma_string_ends(bytes: Seq<u8>, at: nat)
    requires
        at <= bytes.len(),
    ensures
        ends_rightly(bytes, at, parse_string(bytes, at), string_end(bytes, at)),
{
}

proof fn lemma_head_ends(bytes: Seq<u8>, at: nat, tag: u8)
    requires
        at <= bytes.len(),
    ensures
        ends_rightly(bytes, at, parse_two_strings(bytes, at), two_strings_end(bytes, at)),
        ends_rightly(bytes, at, parse_label(bytes, at), label_end(bytes, at)),
        ends_rightly(bytes, at, parse_length(bytes, at), length_end(bytes, at)),
        parse_map_label(bytes, at, tag) is Ok || tag == TAG_LABELLED_MAP,
        tag == TAG_LABELLED_MAP ==> ends_rightly(
            bytes,
            at,
            parse_map_label(bytes, at, tag),
            map_label_end(bytes, at, tag),
        ),
{
    lemma_string_ends(bytes, at);
    if let Ok((_, used)) = parse_string(bytes, at) {
        lemma_string_ends(bytes, at + used);
    }
    if at < bytes.len() {
        lemma_string_ends(bytes, at + 1);
    }
}

/// A reading of a value ends behind it, or, where the input is cut off, exactly where
/// the missing bytes should stand.
pub proof fn lemma_value_ends(bytes: Seq<u8>, at: nat)
    requires
        at <= bytes.len(),
    ensures
        ends_rightly(bytes, at, parse_value(bytes, at), value_end(bytes, at)),
    decreases remaining(bytes, at), 0nat, 0nat,
{
    if at < bytes.len() {
        let tag = bytes[at as int];
        assert(bytes.subrange(at as int, (at + 1) as int)[0] == tag);
        lemma_string_ends(bytes, at + 1);
        lemma_head_ends(bytes, at + 1, tag);
        if tag == TAG_TUPLE {
            if let Ok((_, before)) = parse_label(bytes, at + 1) {
                lemma_head_ends(bytes, at + 1 + before, tag);
                if let Ok((count, more)) = parse_length(bytes, at + 1 + before) {
                    lemma_elements_end(bytes, at + 1 + before + more, count as nat);
                }
            }
        } else if tag == TAG_MAP || tag == TAG_LABELLED_MAP {
            if let Ok((_, before)) = parse_map_label(bytes, at + 1, tag) {
                lemma_head_ends(bytes, at + 1 + before, tag);
                if let Ok((count, more)) = parse_length(bytes, at + 1 + before) {
                    lemma_pairs_end(bytes, at + 1 + before + more, count as nat);
                }
            }
        }
    }
}

proof fn lemma_elements_end(bytes: Seq<u8>, at: nat, count: nat)
    requires
        at <= bytes.len(),
    ensures
        ends_rightly(bytes, at, parse_values(bytes, at, count), values_end(bytes, at, count)),
    decreases remaining(bytes, at), 1nat, count,
{
    if count > 0 {
        lemma_elements_end(bytes, at, (count - 1) as nat);
        if let Ok((_, used)) = parse_values(bytes, at, (count - 1) as nat) {
            lemma_value_ends(bytes, at + used);
        }
    }
}

proof fn lemma_pairs_end(bytes: Seq<u8>, at: nat, count: nat)
    requires
        at <= bytes.len(),
    ensures
        ends_rightly(bytes, at, parse_pairs(bytes, at, count), pairs_end(bytes, at, count)),
    decreases remaining(bytes, at), 1nat, count,
{
    if count > 0 {
        lemma_pairs_end(bytes, at, (count - 1) as nat);
        if let Ok((_, used)) = parse_pairs(bytes, at, (count - 1) as nat) {
            lemma_value_ends(bytes, at + used);
            if let Ok((_, more)) = parse_value(bytes, at + used) {
                lemma_value_ends(bytes, at + used + more);
            }
        }
    }
}

} // verus!
