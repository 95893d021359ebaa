//! Layout of a materialized model on disk, and the decisions about it.
//!
//! A store holds one encoded trie per `(predicate, step)` subtable, the snapshot
//! of the dictionary that the ids in the tries refer to, and a manifest that ties
//! those together with the rule history and a cache key.
//!
//! Table files are numbered rather than named, because predicate names come from
//! user programs and are not constrained to anything a file system accepts. The
//! cache key holds the text of the program rather than a hash of it, so that it
//! is compared exactly.

use vstd::prelude::*;
use vstd::string::*;

use crate::dictionary::encoding::{fault_text, DictionaryFault};
use crate::dictionary::storage::{
    parse_snapshot, snapshot_bytes, DictionarySnapshot, DictionaryStorageError,
};
use crate::parameters::Parameters;
use crate::tabular::trie::storage::{
    error_text, lemma_trie_round_trip, parse_trie, proper, trie_bytes, TrieStorageError,
};
use crate::tabular::trie::{Trie, TrieView};
use crate::text::{
    char_vec, decimal, decimal_text, decimal_value, lemma_decimal_length,
    lemma_decimal_round_trip, lemma_zero_padding, pad_front, pow10, reads_at, same_text,
    zero_padded,
};

verus! {

/// Layout version of the store directory itself, independent of the encodings of
/// tries and dictionaries in it.
pub const STORE_LAYOUT_VERSION: u32 = 1;

/// Layout version of the encoding of tries.
pub const TRIE_FORMAT_VERSION: u32 = crate::tabular::trie::storage::FORMAT_VERSION;

/// Layout version of the encoding of dictionaries.
pub const DICTIONARY_FORMAT_VERSION: u32 = crate::dictionary::storage::FORMAT_VERSION;

/// Stem of the name of the file that holds the [ModelManifest].
pub const MANIFEST_STEM: &'static str = "manifest";

/// Extension of the name of that file.
pub const MANIFEST_EXTENSION: &'static str = "json";

/// File that holds the encoded [DictionarySnapshot].
pub const DICTIONARY_FILE: &'static str = "dictionary.bin";

/// Directory that holds the encoded subtables.
pub const TABLES_DIR: &'static str = "tables";

/// Something went wrong reading or writing a model store.
#[allow(inconsistent_fields)]
#[derive(Debug)]
pub enum ModelStoreError {
    /// The filesystem operation failed.
    Io {
        /// Path being operated on.
        path: String,
        /// Underlying error.
        source: String,
    },
    /// The manifest could not be parsed.
    MalformedManifest {
        /// Path of the manifest.
        path: String,
        /// Underlying error.
        source: String,
    },
    /// The store was written by a different directory layout version.
    LayoutVersionMismatch {
        /// Version found in the store.
        found: u32,
        /// Version this build writes and reads.
        expected: u32,
    },
    /// A trie could not be decoded.
    MalformedTable {
        /// Path of the table file.
        path: String,
        /// Underlying error.
        source: TrieStorageError,
    },
    /// The dictionary snapshot could not be decoded.
    MalformedDictionary(DictionaryStorageError),
    /// The dictionary snapshot could not be replayed into a dictionary.
    DictionaryRestore(String),
    /// The target directory already exists.
    AlreadyExists {
        /// Path that was requested.
        path: String,
    },
    /// The manifest refers to a table file that is not present.
    MissingTableFile {
        /// Name recorded in the manifest.
        file: String,
    },
}

/// What a [ModelStoreError] says.
#[allow(inconsistent_fields)]
pub enum StoreFault {
    Io { path: Seq<char>, source: Seq<char> },
    MalformedManifest { path: Seq<char>, source: Seq<char> },
    LayoutVersionMismatch { found: u32, expected: u32 },
    MalformedTable { path: Seq<char>, source: TrieStorageError },
    MalformedDictionary(DictionaryFault),
    DictionaryRestore(Seq<char>),
    AlreadyExists { path: Seq<char> },
    MissingTableFile { file: Seq<char> },
}

impl View for ModelStoreError {
    type V = StoreFault;

    open spec fn view(&self) -> StoreFault {
        match *self {
            ModelStoreError::Io { path, source } => StoreFault::Io { path: path@, source: source@ },
            ModelStoreError::MalformedManifest { path, source } => StoreFault::MalformedManifest {
                path: path@,
                source: source@,
            },
            ModelStoreError::LayoutVersionMismatch {
                found,
                expected,
            } => StoreFault::LayoutVersionMismatch { found, expected },
            ModelStoreError::MalformedTable { path, source } => StoreFault::MalformedTable {
                path: path@,
                source,
            },
            ModelStoreError::MalformedDictionary(source) => StoreFault::MalformedDictionary(
                source@,
            ),
            ModelStoreError::DictionaryRestore(source) => StoreFault::DictionaryRestore(source@),
            ModelStoreError::AlreadyExists { path } => StoreFault::AlreadyExists { path: path@ },
            ModelStoreError::MissingTableFile { file } => StoreFault::MissingTableFile {
                file: file@,
            },
        }
    }
}

/// What a fault is reported as.
pub open spec fn store_fault_text(fault: StoreFault) -> Seq<char> {
    match fault {
        StoreFault::Io { path, source } => "model store I/O error at "@ + path + ": "@ + source,
        StoreFault::MalformedManifest { path, source } => "model store manifest at "@ + path
            + " is malformed: "@ + source,
        StoreFault::LayoutVersionMismatch {
            found,
            expected,
        } => "model store has layout version "@ + decimal(found as nat) + ", this build reads "@
            + decimal(expected as nat),
        StoreFault::MalformedTable { path, source } => "subtable "@ + path
            + " could not be decoded: "@ + error_text(source),
        StoreFault::MalformedDictionary(source) => "dictionary snapshot could not be decoded: "@
            + fault_text(source),
        StoreFault::DictionaryRestore(source) => "dictionary snapshot could not be replayed: "@
            + source,
        StoreFault::AlreadyExists { path } => "cannot create a model store at "@ + path
            + ": it already exists"@,
        StoreFault::MissingTableFile { file } => "manifest refers to missing subtable file "@
            + file,
    }
}

impl ModelStoreError {
    /// What this error is reported as.
    pub fn message(&self) -> (message: String)
        ensures
            message@ == store_fault_text(self@),
    {
        match self {
            ModelStoreError::Io { path, source } => {
                let mut message = "model store I/O error at ".to_owned();
                message.append(path.as_str());
                message.append(": ");
                message.append(source.as_str());
                message
            },
            ModelStoreError::MalformedManifest { path, source } => {
                let mut message = "model store manifest at ".to_owned();
                message.append(path.as_str());
                message.append(" is malformed: ");
                message.append(source.as_str());
                message
            },
            ModelStoreError::LayoutVersionMismatch { found, expected } => {
                let mut message = "model store has layout version ".to_owned();
                message.append(decimal_text(*found as u128).as_str());
                message.append(", this build reads ");
                message.append(decimal_text(*expected as u128).as_str());
                message
            },
            ModelStoreError::MalformedTable { path, source } => {
                let mut message = "subtable ".to_owned();
                message.append(path.as_str());
                message.append(" could not be decoded: ");
                message.append(source.message().as_str());
                message
            },
            ModelStoreError::MalformedDictionary(source) => {
                let mut message = "dictionary snapshot could not be decoded: ".to_owned();
                message.append(source.message().as_str());
                message
            },
            ModelStoreError::DictionaryRestore(source) => {
                let mut message = "dictionary snapshot could not be replayed: ".to_owned();
                message.append(source.as_str());
                message
            },
            ModelStoreError::AlreadyExists { path } => {
                let mut message = "cannot create a model store at ".to_owned();
                message.append(path.as_str());
                message.append(": it already exists");
                message
            },
            ModelStoreError::MissingTableFile { file } => {
                let mut message = "manifest refers to missing subtable file ".to_owned();
                message.append(file.as_str());
                message
            },
        }
    }
}

/// What the file system says of a file.
#[derive(Clone, Copy, Debug)]
pub struct FileMetadata {
    /// Length in bytes.
    pub length: u64,
    /// Modification time since the Unix epoch, in seconds and nanoseconds, if it
    /// is known and not before the epoch.
    pub modified: Option<(u64, u32)>,
}

/// Fingerprint of one imported resource: its length and its modification time
/// rather than its content.
#[derive(Debug, Clone, PartialEq, Eq)]
pub struct ImportFingerprint {
    /// Resource as written in the program, after parameter substitution.
    pub resource: String,
    /// Length in bytes, or `None` if it could not be determined.
    pub bytes: Option<u64>,
    /// Modification time in nanoseconds since the Unix epoch, or `None` if
    /// unavailable.
    pub modified_unix_nanos: Option<u128>,
}

/// What an [ImportFingerprint] says.
pub struct ImportView {
    pub resource: Seq<char>,
    pub bytes: Option<u64>,
    pub modified_unix_nanos: Option<u128>,
}

impl View for ImportFingerprint {
    type V = ImportView;

    open spec fn view(&self) -> ImportView {
        ImportView {
            resource: self.resource@,
            bytes: self.bytes,
            modified_unix_nanos: self.modified_unix_nanos,
        }
    }
}

/// The nanoseconds in some seconds and nanoseconds.
pub open spec fn nanos_of(time: (u64, u32)) -> u128 {
    (time.0 * 1_000_000_000 + time.1) as u128
}

impl ImportFingerprint {
    /// Fingerprints a local file, given what the file system says of it.
    ///
    /// Missing metadata is recorded as `None` rather than failing: a resource that
    /// cannot be fingerprinted still has to appear in the key, and a `None` will
    /// simply never match a `Some`.
    pub fn of_file(resource: String, metadata: Option<FileMetadata>) -> (fingerprint: Self)
        ensures
            fingerprint@ == (ImportView {
                resource: resource@,
                bytes: match metadata {
                    Some(found) => Some(found.length),
                    None => None,
                },
                modified_unix_nanos: match metadata {
                    Some(found) => match found.modified {
                        Some(time) => Some(nanos_of(time)),
                        None => None,
                    },
                    None => None,
                },
            }),
    {
        match metadata {
            Some(found) => ImportFingerprint {
                resource,
                bytes: Some(found.length),
                modified_unix_nanos: match found.modified {
                    Some(time) => Some(time.0 as u128 * 1_000_000_000 + time.1 as u128),
                    None => None,
                },
            },
            None => ImportFingerprint { resource, bytes: None, modified_unix_nanos: None },
        }
    }

    /// Whether two fingerprints are the same.
    pub fn same(&self, other: &Self) -> (same: bool)
        ensures
            same == (self@ == other@),
    {
        if !same_text(self.resource.as_str(), other.resource.as_str()) {
            return false;
        }
        let same_bytes = match (self.bytes, other.bytes) {
            (Some(a), Some(b)) => a == b,
            (None, None) => true,
            _ => false,
        };
        let same_time = match (self.modified_unix_nanos, other.modified_unix_nanos) {
            (Some(a), Some(b)) => a == b,
            (None, None) => true,
            _ => false,
        };
        same_bytes && same_time
    }
}

/// What a list of fingerprints says.
pub open spec fn imports_view(imports: Seq<ImportFingerprint>) -> Seq<ImportView> {
    Seq::new(imports.len(), |i: int| imports[i]@)
}

/// Everything that has to agree before a store may be reused.
///
/// Any field that differs invalidates the store: a stale hit is silently wrong,
/// while a spurious miss merely costs a recomputation.
#[derive(Debug, Clone, PartialEq, Eq)]
pub struct CacheKey {
    /// Layout version of the store directory.
    pub store_layout_version: u32,
    /// Layout version of the trie encoding.
    pub trie_format_version: u32,
    /// Layout version of the dictionary encoding.
    pub dictionary_format_version: u32,
    /// Canonical text of the normalized program, stored verbatim.
    pub program: String,
    /// Global parameter bindings.
    pub parameters: Parameters,
    /// Fingerprints of the imported resources.
    pub imports: Vec<ImportFingerprint>,
}

/// What a [CacheKey] says.
pub struct KeyView {
    pub store_layout_version: u32,
    pub trie_format_version: u32,
    pub dictionary_format_version: u32,
    pub program: Seq<char>,
    pub parameters: Seq<(Seq<char>, Seq<char>)>,
    pub imports: Seq<ImportView>,
}

impl View for CacheKey {
    type V = KeyView;

    open spec fn view(&self) -> KeyView {
        KeyView {
            store_layout_version: self.store_layout_version,
            trie_format_version: self.trie_format_version,
            dictionary_format_version: self.dictionary_format_version,
            program: self.program@,
            parameters: self.parameters@,
            imports: imports_view(self.imports@),
        }
    }
}

impl CacheKey {
    /// Builds a key for the formats of this build.
    pub fn new(
        program: String,
        parameters: Parameters,
        imports: Vec<ImportFingerprint>,
    ) -> (key: Self)
        ensures
            key@ == (KeyView {
                store_layout_version: STORE_LAYOUT_VERSION,
                trie_format_version: TRIE_FORMAT_VERSION,
                dictionary_format_version: DICTIONARY_FORMAT_VERSION,
                program: program@,
                parameters: parameters@,
                imports: imports_view(imports@),
            }),
    {
        CacheKey {
            store_layout_version: STORE_LAYOUT_VERSION,
            trie_format_version: TRIE_FORMAT_VERSION,
            dictionary_format_version: DICTIONARY_FORMAT_VERSION,
            program,
            parameters,
            imports,
        }
    }

    /// Whether two keys agree in everything.
    pub fn same(&self, other: &Self) -> (same: bool)
        ensures
            same == (self@ == other@),
    {
        if self.store_layout_version != other.store_layout_version || self.trie_format_version
            != other.trie_format_version || self.dictionary_format_version
            != other.dictionary_format_version {
            return false;
        }
        if !same_text(self.program.as_str(), other.program.as_str()) || !self.parameters.same(
            &other.parameters,
        ) {
            return false;
        }
        assert(imports_view(self.imports@).len() == self.imports@.len());
        assert(imports_view(other.imports@).len() == other.imports@.len());
        if self.imports.len() != other.imports.len() {
            return false;
        }
        let mut index: usize = 0;
        while index < self.imports.len()
            invariant
                index <= self.imports@.len() == other.imports@.len(),
                forall|i: int| 0 <= i < index ==> (#[trigger] self.imports@[i])@ == other.imports@[i]@,
            decreases self.imports@.len() - index,
        {
            if !self.imports[index].same(&other.imports[index]) {
                assert(self@.imports[index as int] != other@.imports[index as int]);
                return false;
            }
            index = index + 1;
        }
        assert(imports_view(self.imports@) =~= imports_view(other.imports@));
        true
    }
}

/// One `(step, file)` subtable of a predicate.
#[derive(Debug, Clone, PartialEq, Eq)]
pub struct SubtableEntry {
    /// Execution step this subtable was derived in.
    pub step: usize,
    /// Name of the encoded trie inside the tables directory.
    pub file: String,
}

/// What a [SubtableEntry] says.
pub struct SubtableView {
    pub step: usize,
    pub file: Seq<char>,
}

impl View for SubtableEntry {
    type V = SubtableView;

    open spec fn view(&self) -> SubtableView {
        SubtableView { step: self.step, file: self.file@ }
    }
}

/// What a list of subtables says.
pub open spec fn subtables_view(subtables: Seq<SubtableEntry>) -> Seq<SubtableView> {
    Seq::new(subtables.len(), |i: int| subtables[i]@)
}

/// A predicate and the subtables it was built from.
///
/// Subtables are kept per step rather than merged, because that layout is what
/// provenance is recovered from.
#[derive(Debug, Clone, PartialEq, Eq)]
pub struct PredicateEntry {
    /// Predicate name.
    pub predicate: String,
    /// Arity.
    pub arity: usize,
    /// Subtables, ascending by step.
    pub subtables: Vec<SubtableEntry>,
}

/// What a [PredicateEntry] says.
pub struct PredicateView {
    pub predicate: Seq<char>,
    pub arity: usize,
    pub subtables: Seq<SubtableView>,
}

impl View for PredicateEntry {
    type V = PredicateView;

    open spec fn view(&self) -> PredicateView {
        PredicateView {
            predicate: self.predicate@,
            arity: self.arity,
            subtables: subtables_view(self.subtables@),
        }
    }
}

/// What a list of predicates says.
pub open spec fn predicates_view(predicates: Seq<PredicateEntry>) -> Seq<PredicateView> {
    Seq::new(predicates.len(), |i: int| predicates[i]@)
}

/// The manifest of a model store.
#[derive(Debug, Clone, PartialEq, Eq)]
pub struct ModelManifest {
    /// Layout version of the store directory.
    pub layout_version: u32,
    /// What has to agree for this store to be reusable.
    pub cache_key: CacheKey,
    /// Predicates and their subtables.
    pub predicates: Vec<PredicateEntry>,
    /// Rule applied at each step, indexed by step.
    pub rule_history: Vec<usize>,
}

/// What a [ModelManifest] says.
pub struct ManifestView {
    pub layout_version: u32,
    pub cache_key: KeyView,
    pub predicates: Seq<PredicateView>,
    pub rule_history: Seq<usize>,
}

impl View for ModelManifest {
    type V = ManifestView;

    open spec fn view(&self) -> ManifestView {
        ManifestView {
            layout_version: self.layout_version,
            cache_key: self.cache_key@,
            predicates: predicates_view(self.predicates@),
            rule_history: self.rule_history@,
        }
    }
}

/// The place of the first predicate with the given name.
pub open spec fn predicate_place(predicates: Seq<PredicateView>, name: Seq<char>) -> Option<nat>
    decreases predicates.len(),
{
    if predicates.len() == 0 {
        None
    } else {
        match predicate_place(predicates.drop_last(), name) {
            Some(place) => Some(place),
            None => if predicates.last().predicate == name {
                Some((predicates.len() - 1) as nat)
            } else {
                None
            },
        }
    }
}

/// The place of the first subtable of the given step.
pub open spec fn step_place(subtables: Seq<SubtableView>, step: usize) -> Option<nat>
    decreases subtables.len(),
{
    if subtables.len() == 0 {
        None
    } else {
        match step_place(subtables.drop_last(), step) {
            Some(place) => Some(place),
            None => if subtables.last().step == step {
                Some((subtables.len() - 1) as nat)
            } else {
                None
            },
        }
    }
}

/// The file of the subtable that a predicate has at a step.
pub open spec fn table_file(
    predicates: Seq<PredicateView>,
    name: Seq<char>,
    step: usize,
) -> Option<Seq<char>> {
    match predicate_place(predicates, name) {
        Some(place) => match step_place(predicates[place as int].subtables, step) {
            Some(subtable) => Some(predicates[place as int].subtables[subtable as int].file),
            None => None,
        },
        None => None,
    }
}

proof fn lemma_predicate_place(predicates: Seq<PredicateView>, name: Seq<char>, place: int)
    requires
        0 <= place < predicates.len(),
        predicates[place].predicate == name,
        forall|i: int| 0 <= i < place ==> (#[trigger] predicates[i]).predicate != name,
    ensures
        predicate_place(predicates, name) == Some(place as nat),
    decreases predicates.len(),
{
    if place < predicates.len() - 1 {
        let front = predicates.drop_last();
        assert forall|i: int| 0 <= i < place implies (#[trigger] front[i]).predicate != name by {
            assert(front[i] == predicates[i]);
        }
        lemma_predicate_place(front, name, place);
    } else {
        lemma_no_predicate(predicates.drop_last(), name);
    }
}

proof fn lemma_no_predicate(predicates: Seq<PredicateView>, name: Seq<char>)
    requires
        forall|i: int| 0 <= i < predicates.len() ==> (#[trigger] predicates[i]).predicate != name,
    ensures
        predicate_place(predicates, name) is None,
    decreases predicates.len(),
{
    if predicates.len() > 0 {
        let front = predicates.drop_last();
        assert forall|i: int| 0 <= i < front.len() implies (#[trigger] front[i]).predicate
            != name by {
            assert(front[i] == predicates[i]);
        }
        lemma_no_predicate(front, name);
        assert(predicates[predicates.len() - 1].predicate != name);
    }
}

proof fn lemma_step_place(subtables: Seq<SubtableView>, step: usize, place: int)
    requires
        0 <= place < subtables.len(),
        subtables[place].step == step,
        forall|i: int| 0 <= i < place ==> (#[trigger] subtables[i]).step != step,
    ensures
        step_place(subtables, step) == Some(place as nat),
    decreases subtables.len(),
{
    if place < subtables.len() - 1 {
        let front = subtables.drop_last();
        assert forall|i: int| 0 <= i < place implies (#[trigger] front[i]).step != step by {
            assert(front[i] == subtables[i]);
        }
        lemma_step_place(front, step, place);
    } else {
        lemma_no_step(subtables.drop_last(), step);
    }
}

proof fn lemma_no_step(subtables: Seq<SubtableView>, step: usize)
    requires
        forall|i: int| 0 <= i < subtables.len() ==> (#[trigger] subtables[i]).step != step,
    ensures
        step_place(subtables, step) is None,
    decreases subtables.len(),
{
    if subtables.len() > 0 {
        let front = subtables.drop_last();
        assert forall|i: int| 0 <= i < front.len() implies (#[trigger] front[i]).step != step by {
            assert(front[i] == subtables[i]);
        }
        lemma_no_step(front, step);
        assert(subtables[subtables.len() - 1].step != step);
    }
}

/// Finds the first predicate with the given name.
fn find_predicate(predicates: &Vec<PredicateEntry>, name: &str) -> (place: Option<usize>)
    ensures
        match predicate_place(predicates_view(predicates@), name@) {
            Some(expected) => place matches Some(found) && found == expected && found
                < predicates@.len(),
            None => place is None,
        },
{
    let ghost views = predicates_view(predicates@);
    let mut index: usize = 0;
    while index < predicates.len()
        invariant
            index <= predicates@.len(),
            views == predicates_view(predicates@),
            forall|i: int| 0 <= i < index ==> (#[trigger] views[i]).predicate != name@,
        decreases predicates@.len() - index,
    {
        assert(views[index as int].predicate == predicates@[index as int].predicate@);
        if same_text(predicates[index].predicate.as_str(), name) {
            proof {
                lemma_predicate_place(views, name@, index as int);
            }
            return Some(index);
        }
        index = index + 1;
    }
    proof {
        lemma_no_predicate(views, name@);
    }
    None
}

/// Finds the first subtable of the given step.
fn find_step(subtables: &Vec<SubtableEntry>, step: usize) -> (place: Option<usize>)
    ensures
        match step_place(subtables_view(subtables@), step) {
            Some(expected) => place matches Some(found) && found == expected && found
                < subtables@.len(),
            None => place is None,
        },
{
    let ghost views = subtables_view(subtables@);
    let mut index: usize = 0;
    while index < subtables.len()
        invariant
            index <= subtables@.len(),
            views == subtables_view(subtables@),
            forall|i: int| 0 <= i < index ==> (#[trigger] views[i]).step != step,
        decreases subtables@.len() - index,
    {
        assert(views[index as int].step == subtables@[index as int].step);
        if subtables[index].step == step {
            proof {
                lemma_step_place(views, step, index as int);
            }
            return Some(index);
        }
        index = index + 1;
    }
    proof {
        lemma_no_step(views, step);
    }
    None
}

/// Where a subtable of the given step goes among subtables that ascend by step:
/// behind all that are not of a later step.
pub open spec fn insertion_place(subtables: Seq<SubtableView>, step: usize) -> nat
    decreases subtables.len(),
{
    if subtables.len() > 0 && subtables.last().step > step {
        insertion_place(subtables.drop_last(), step)
    } else {
        subtables.len()
    }
}

/// The subtables by ascending step. Those of one step keep their order.
pub open spec fn by_step(subtables: Seq<SubtableView>) -> Seq<SubtableView>
    decreases subtables.len(),
{
    if subtables.len() == 0 {
        subtables
    } else {
        let front = by_step(subtables.drop_last());
        let last = subtables.last();
        front.insert(insertion_place(front, last.step) as int, last)
    }
}

/// Each predicate with its subtables by ascending step.
pub open spec fn all_by_step(predicates: Seq<PredicateView>) -> Seq<PredicateView> {
    Seq::new(
        predicates.len(),
        |i: int|
            PredicateView {
                predicate: predicates[i].predicate,
                arity: predicates[i].arity,
                subtables: by_step(predicates[i].subtables),
            },
    )
}

/// Whether the steps of subtables ascend.
pub open spec fn steps_ascend(subtables: Seq<SubtableView>) -> bool {
    forall|i: int, j: int|
        0 <= i < j < subtables.len() ==> (#[trigger] subtables[i]).step <= (
        #[trigger] subtables[j]).step
}

proof fn lemma_insertion_place(subtables: Seq<SubtableView>, step: usize)
    requires
        steps_ascend(subtables),
    ensures
        insertion_place(subtables, step) <= subtables.len(),
        forall|i: int|
            0 <= i < insertion_place(subtables, step) ==> (#[trigger] subtables[i]).step <= step,
        forall|i: int|
            insertion_place(subtables, step) <= i < subtables.len() ==> (
            #[trigger] subtables[i]).step > step,
    decreases subtables.len(),
{
    if subtables.len() > 0 {
        let front = subtables.drop_last();
        let last = subtables.len() - 1;
        assert forall|i: int, j: int| 0 <= i < j < front.len() implies (#[trigger] front[i]).step
            <= (#[trigger] front[j]).step by {
            assert(subtables[i].step <= subtables[j].step);
        }
        if subtables.last().step > step {
            lemma_insertion_place(front, step);
            let place = insertion_place(front, step);
            assert forall|i: int| 0 <= i < place implies (#[trigger] subtables[i]).step
                <= step by {
                assert(front[i] == subtables[i]);
            }
            assert forall|i: int| place <= i < subtables.len() implies (
            #[trigger] subtables[i]).step > step by {
                if i < last {
                    assert(front[i] == subtables[i]);
                }
            }
        } else {
            assert forall|i: int| 0 <= i < subtables.len() implies (#[trigger] subtables[i]).step
                <= step by {
                if i < last {
                    assert(subtables[i].step <= subtables[last].step);
                }
            }
        }
    }
}

/// The subtable of a step is the first that has it, and there is none where no
/// subtable has it.
pub proof fn lemma_step_place_meaning(subtables: Seq<SubtableView>, step: usize)
    ensures
        match step_place(subtables, step) {
            Some(place) => {
                &&& place < subtables.len()
                &&& subtables[place as int].step == step
                &&& forall|i: int| 0 <= i < place ==> (#[trigger] subtables[i]).step != step
            },
            None => forall|i: int|
                0 <= i < subtables.len() ==> (#[trigger] subtables[i]).step != step,
        },
    decreases subtables.len(),
{
    if subtables.len() > 0 {
        let front = subtables.drop_last();
        lemma_step_place_meaning(front, step);
        match step_place(front, step) {
            Some(place) => {
                assert forall|i: int| 0 <= i < place implies (#[trigger] subtables[i]).step
                    != step by {
                    assert(front[i] == subtables[i]);
                }
            },
            None => {
                assert forall|i: int| 0 <= i < subtables.len() - 1 implies (
                #[trigger] subtables[i]).step != step by {
                    assert(front[i] == subtables[i]);
                }
            },
        }
    }
}

/// The file of the first subtable of the given step.
pub open spec fn step_file(subtables: Seq<SubtableView>, step: usize) -> Option<Seq<char>> {
    match step_place(subtables, step) {
        Some(place) => Some(subtables[place as int].file),
        None => None,
    }
}

proof fn lemma_inserted_step_file(
    subtables: Seq<SubtableView>,
    entry: SubtableView,
    place: int,
    step: usize,
)
    requires
        0 <= place <= subtables.len(),
        forall|i: int| place <= i < subtables.len() ==> (#[trigger] subtables[i]).step != entry.step,
    ensures
        step_file(subtables.insert(place, entry), step) == (match step_file(subtables, step) {
            Some(file) => Some(file),
            None => if entry.step == step {
                Some(entry.file)
            } else {
                None
            },
        }),
{
    let more = subtables.insert(place, entry);
    lemma_step_place_meaning(subtables, step);
    match step_place(subtables, step) {
        Some(found) => {
            let moved = if found < place {
                found as int
            } else {
                found as int + 1
            };
            assert(more[moved] == subtables[found as int]);
            assert forall|i: int| 0 <= i < moved implies (#[trigger] more[i]).step != step by {
                if i < place {
                    assert(more[i] == subtables[i]);
                } else if i > place {
                    assert(more[i] == subtables[i - 1]);
                }
            }
            lemma_step_place(more, step, moved);
        },
        None => {
            if entry.step == step {
                assert forall|i: int| 0 <= i < place implies (#[trigger] more[i]).step != step by {
                    assert(more[i] == subtables[i]);
                }
                lemma_step_place(more, step, place);
            } else {
                assert forall|i: int| 0 <= i < more.len() implies (#[trigger] more[i]).step
                    != step by {
                    if i < place {
                        assert(more[i] == subtables[i]);
                    } else if i > place {
                        assert(more[i] == subtables[i - 1]);
                    }
                }
                lemma_no_step(more, step);
            }
        },
    }
}

/// Ordering subtables by step makes the steps ascend, loses and adds none, and
/// leaves the first subtable of each step the first.
pub proof fn lemma_by_step(subtables: Seq<SubtableView>)
    ensures
        steps_ascend(by_step(subtables)),
        by_step(subtables).to_multiset() == subtables.to_multiset(),
        by_step(subtables).len() == subtables.len(),
        forall|step: usize| #[trigger]
            step_file(by_step(subtables), step) == step_file(subtables, step),
    decreases subtables.len(),
{
    if subtables.len() > 0 {
        let rest = subtables.drop_last();
        let front = by_step(rest);
        let last = subtables.last();
        let place = insertion_place(front, last.step) as int;
        lemma_by_step(rest);
        lemma_insertion_place(front, last.step);
        let more = front.insert(place, last);
        assert forall|i: int, j: int| 0 <= i < j < more.len() implies (#[trigger] more[i]).step <= (
        #[trigger] more[j]).step by {
            let a = if i > place {
                i - 1
            } else {
                i
            };
            let b = if j > place {
                j - 1
            } else {
                j
            };
            if i != place {
                assert(more[i] == front[a]);
            }
            if j != place {
                assert(more[j] == front[b]);
            }
            if i != place && j != place {
                assert(front[a].step <= front[b].step);
            }
        }
        vstd::seq_lib::to_multiset_insert(front, place, last);
        vstd::seq_lib::to_multiset_build(rest, last);
        assert(subtables =~= rest.push(last));
        assert forall|step: usize| #[trigger]
            step_file(more, step) == step_file(subtables, step) by {
            lemma_inserted_step_file(front, last, place, step);
            lemma_inserted_step_file(rest, last, rest.len() as int, step);
            assert(rest.insert(rest.len() as int, last) =~= subtables);
            assert(step_file(front, step) == step_file(rest, step));
        }
    }
}

/// Orders subtables by step.
fn order_by_step(subtables: &mut Vec<SubtableEntry>)
    ensures
        subtables_view(final(subtables)@) == by_step(subtables_view(old(subtables)@)),
{
    let mut ordered: Vec<SubtableEntry> = Vec::new();
    let ghost views = subtables_view(subtables@);
    let mut index: usize = 0;
    assert(subtables_view(ordered@) =~= by_step(views.take(0)));
    while index < subtables.len()
        invariant
            index <= subtables@.len(),
            views == subtables_view(subtables@),
            subtables_view(ordered@) == by_step(views.take(index as int)),
            *subtables == *old(subtables),
        decreases subtables@.len() - index,
    {
        let step: usize = subtables[index].step;
        let entry = SubtableEntry { step, file: subtables[index].file.clone() };
        let ghost front = subtables_view(ordered@);
        let ghost now = views.take(index + 1);
        proof {
            assert(now.drop_last() =~= views.take(index as int));
            assert(now.last() == entry@);
        }
        let mut place: usize = ordered.len();
        assert(front.take(place as int) =~= front);
        while place > 0 && ordered[place - 1].step > step
            invariant
                place <= ordered@.len(),
                front == subtables_view(ordered@),
                insertion_place(front, step) == insertion_place(front.take(place as int), step),
            decreases place,
        {
            assert(front[place - 1].step == ordered@[place - 1].step);
            assert(front.take(place as int).last() == front[place - 1]);
            assert(front.take(place as int).drop_last() =~= front.take(place - 1));
            place = place - 1;
        }
        proof {
            if place > 0 {
                assert(front[place - 1].step == ordered@[place - 1].step);
                assert(front.take(place as int).last() == front[place - 1]);
            }
        }
        ordered.insert(place, entry);
        assert(subtables_view(ordered@) =~= front.insert(place as int, entry@));
        index = index + 1;
    }
    assert(views.take(index as int) =~= views);
    *subtables = ordered;
}

/// The name of a table file.
pub open spec fn table_name(number: nat) -> Seq<char> {
    "t"@ + pad_front(decimal(number), '0', 6) + ".bin"@
}

/// Different numbers give different table files, so no table is overwritten.
pub proof fn lemma_table_names_differ(left: nat, right: nat)
    requires
        table_name(left) == table_name(right),
    ensures
        left == right,
{
    let a = pad_front(decimal(left), '0', 6);
    let b = pad_front(decimal(right), '0', 6);
    reveal_strlit("t");
    reveal_strlit(".bin");
    assert(table_name(left).len() == a.len() + 5);
    assert(table_name(right).len() == b.len() + 5);
    assert(table_name(left).subrange(1, a.len() as int + 1) =~= a);
    assert(table_name(right).subrange(1, b.len() as int + 1) =~= b);
    lemma_zero_padding(left, 6);
    lemma_zero_padding(right, 6);
}

fn table_name_text(number: usize) -> (name: String)
    ensures
        name@ == table_name(number as nat),
{
    let mut name = "t".to_owned();
    name.append(zero_padded(number, 6).as_str());
    name.append(".bin");
    name
}

/// The predicates with one more subtable: among those of its predicate, or as
/// the first of a new one.
pub open spec fn recorded(
    predicates: Seq<PredicateView>,
    name: Seq<char>,
    arity: usize,
    entry: SubtableView,
) -> Seq<PredicateView> {
    match predicate_place(predicates, name) {
        Some(place) => {
            let existing = predicates[place as int];
            predicates.update(
                place as int,
                PredicateView {
                    predicate: existing.predicate,
                    arity: existing.arity,
                    subtables: existing.subtables.push(entry),
                },
            )
        },
        None => predicates.push(
            PredicateView { predicate: name, arity, subtables: seq![entry] },
        ),
    }
}

/// Why a file system operation failed, and where.
#[derive(Debug)]
pub struct IoFailure {
    /// Path being operated on.
    pub path: String,
    /// Underlying error.
    pub source: String,
}

/// What an [IoFailure] is as a fault.
pub open spec fn io_fault(failure: IoFailure) -> StoreFault {
    StoreFault::Io { path: failure.path@, source: failure.source@ }
}

/// A subtable that is about to be written.
#[derive(Debug)]
pub struct PendingTable {
    /// Predicate name.
    pub predicate: String,
    /// Arity.
    pub arity: usize,
    /// Execution step.
    pub step: usize,
    /// Name of the file, inside the tables directory.
    pub file: String,
    /// Contents of the file.
    pub bytes: Vec<u8>,
}

/// What has to be done before tables can be written.
#[derive(Clone, Copy, Debug, PartialEq, Eq, Structural)]
pub enum Preparation {
    /// Remove the staging directory that an earlier run left behind.
    RemoveStaging,
    /// Create the staging directory and the tables directory in it.
    CreateTables,
}

/// Builds a model store.
///
/// Content goes into a staging directory, which is renamed into place at the end,
/// so an interrupted write leaves a staging directory rather than a store that
/// looks complete but is not.
#[derive(Debug)]
pub struct ModelStoreWriter {
    target: String,
    staging: String,
    predicates: Vec<PredicateEntry>,
    tables_written: usize,
}

/// What a [ModelStoreWriter] has recorded.
pub struct WriterView {
    pub target: Seq<char>,
    pub staging: Seq<char>,
    pub predicates: Seq<PredicateView>,
    pub tables_written: nat,
}

impl View for ModelStoreWriter {
    type V = WriterView;

    closed spec fn view(&self) -> WriterView {
        WriterView {
            target: self.target@,
            staging: self.staging@,
            predicates: predicates_view(self.predicates@),
            tables_written: self.tables_written as nat,
        }
    }
}

/// The name of the staging directory, next to a target with the given name, of a
/// process with the given id.
pub open spec fn staging_name(file_name: Option<Seq<char>>, process: u32) -> Seq<char> {
    let name = match file_name {
        Some(name) => name,
        None => "model-store"@,
    };
    name + ".staging."@ + decimal(process as nat)
}

/// The text behind a reference that may be absent.
pub open spec fn text_view(text: Option<&str>) -> Option<Seq<char>> {
    match text {
        Some(present) => Some(present@),
        None => None,
    }
}

impl ModelStoreWriter {
    /// Starts a store at `target`, which must not exist. Its staging directory is
    /// a sibling of the target, so that the final rename stays within one file
    /// system, and is named after the process, so that two writers do not collide.
    pub fn create(
        target: String,
        file_name: Option<&str>,
        target_exists: bool,
        process: u32,
    ) -> (writer: Result<Self, ModelStoreError>)
        ensures
            if target_exists {
                writer matches Err(error) && error@ == (StoreFault::AlreadyExists { path: target@ })
            } else {
                writer matches Ok(made) && made@ == (WriterView {
                    target: target@,
                    staging: staging_name(text_view(file_name), process),
                    predicates: Seq::empty(),
                    tables_written: 0,
                })
            },
    {
        if target_exists {
            return Err(ModelStoreError::AlreadyExists { path: target });
        }
        let mut staging = match file_name {
            Some(name) => name.to_owned(),
            None => "model-store".to_owned(),
        };
        staging.append(".staging.");
        staging.append(decimal_text(process as u128).as_str());
        let writer = ModelStoreWriter {
            target,
            staging,
            predicates: Vec::new(),
            tables_written: 0,
        };
        assert(writer@.predicates =~= Seq::<PredicateView>::empty());
        Ok(writer)
    }

    /// What has to be done before the first table can be written.
    pub fn preparations(&self, staging_exists: bool) -> (steps: Vec<Preparation>)
        ensures
            steps@ == (if staging_exists {
                seq![Preparation::RemoveStaging, Preparation::CreateTables]
            } else {
                seq![Preparation::CreateTables]
            }),
    {
        let mut steps: Vec<Preparation> = Vec::new();
        if staging_exists {
            steps.push(Preparation::RemoveStaging);
        }
        steps.push(Preparation::CreateTables);
        assert(staging_exists ==> steps@ =~= seq![
            Preparation::RemoveStaging,
            Preparation::CreateTables,
        ]);
        assert(!staging_exists ==> steps@ =~= seq![Preparation::CreateTables]);
        steps
    }

    /// The final location.
    pub fn target(&self) -> (target: &str)
        ensures
            target@ == self@.target,
    {
        self.target.as_str()
    }

    /// The name of the directory that content is written to.
    pub fn staging(&self) -> (staging: &str)
        ensures
            staging@ == self@.staging,
    {
        self.staging.as_str()
    }

    /// One subtable of a predicate, to be written and then committed.
    pub fn write_table(&self, predicate: &str, arity: usize, step: usize, trie: &Trie) -> (table:
        PendingTable)
        ensures
            table.predicate@ == predicate@,
            table.arity == arity,
            table.step == step,
            table.file@ == table_name(self@.tables_written),
            table.bytes@ == trie_bytes(trie@),
    {
        self.write_table_bytes(predicate, arity, step, trie.encode())
    }

    /// One subtable from already encoded bytes, to be written and then committed.
    pub fn write_table_bytes(
        &self,
        predicate: &str,
        arity: usize,
        step: usize,
        bytes: Vec<u8>,
    ) -> (table: PendingTable)
        ensures
            table.predicate@ == predicate@,
            table.arity == arity,
            table.step == step,
            table.file@ == table_name(self@.tables_written),
            table.bytes@ == bytes@,
    {
        PendingTable {
            predicate: predicate.to_owned(),
            arity,
            step,
            file: table_name_text(self.tables_written),
            bytes,
        }
    }

    /// Records the subtable that was just written, or reports why it was not: then
    /// nothing is recorded.
    pub fn commit_table(&mut self, table: PendingTable, written: Result<(), IoFailure>) -> (result:
        Result<(), ModelStoreError>)
        requires
            table.file@ == table_name(old(self)@.tables_written),
            old(self)@.tables_written < usize::MAX,
        ensures
            final(self)@.target == old(self)@.target,
            final(self)@.staging == old(self)@.staging,
            match written {
                Ok(_) => {
                    &&& result is Ok
                    &&& final(self)@.tables_written == old(self)@.tables_written + 1
                    &&& final(self)@.predicates == recorded(
                        old(self)@.predicates,
                        table.predicate@,
                        table.arity,
                        SubtableView { step: table.step, file: table.file@ },
                    )
                },
                Err(failure) => {
                    &&& result matches Err(error) && error@ == io_fault(failure)
                    &&& final(self)@.tables_written == old(self)@.tables_written
                    &&& final(self)@.predicates == old(self)@.predicates
                },
            },
    {
        if let Err(failure) = written {
            return Err(ModelStoreError::Io { path: failure.path, source: failure.source });
        }
        self.tables_written = self.tables_written + 1;
        let ghost before = predicates_view(self.predicates@);
        let entry = SubtableEntry { step: table.step, file: table.file };
        let ghost written_entry = entry@;
        match find_predicate(&self.predicates, table.predicate.as_str()) {
            Some(place) => {
                let ghost subtables = self.predicates@[place as int].subtables@;
                self.predicates[place].subtables.push(entry);
                assert(subtables_view(self.predicates@[place as int].subtables@)
                    =~= subtables_view(subtables).push(written_entry));
                let ghost existing = before[place as int];
                assert(existing.subtables == subtables_view(subtables));
                assert(predicates_view(self.predicates@)[place as int] == (PredicateView {
                    predicate: existing.predicate,
                    arity: existing.arity,
                    subtables: existing.subtables.push(written_entry),
                }));
                assert(predicates_view(self.predicates@) =~= recorded(
                    before,
                    table.predicate@,
                    table.arity,
                    written_entry,
                ));
            },
            None => {
                let mut subtables: Vec<SubtableEntry> = Vec::new();
                subtables.push(entry);
                assert(subtables_view(subtables@) =~= seq![written_entry]);
                let added = PredicateEntry {
                    predicate: table.predicate,
                    arity: table.arity,
                    subtables,
                };
                self.predicates.push(added);
                assert(predicates_view(self.predicates@) =~= before.push(added@));
            },
        }
        Ok(())
    }

    /// The dictionary that the ids in the tries refer to: the name of its file and
    /// its contents.
    pub fn write_dictionary(&self, dictionary: &DictionarySnapshot) -> (file: (String, Vec<u8>))
        ensures
            file.0@ == DICTIONARY_FILE@,
            file.1@ == snapshot_bytes(dictionary@),
    {
        (DICTIONARY_FILE.to_owned(), dictionary.encode())
    }

    /// The manifest of the store, and how it is published.
    pub fn finish(self, cache_key: CacheKey, rule_history: Vec<usize>) -> (publication: Publication)
        ensures
            publication@ == (PublicationView {
                target: self@.target,
                staging: self@.staging,
                manifest: ManifestView {
                    layout_version: STORE_LAYOUT_VERSION,
                    cache_key: cache_key@,
                    predicates: all_by_step(self@.predicates),
                    rule_history: rule_history@,
                },
                step: PublishStep::WriteManifest,
            }),
    {
        let ghost before = predicates_view(self.predicates@);
        let mut predicates = self.predicates;
        let mut index: usize = 0;
        while index < predicates.len()
            invariant
                index <= predicates@.len() == before.len(),
                forall|i: int|
                    index <= i < before.len() ==> (#[trigger] predicates@[i])@ == before[i],
                forall|i: int|
                    0 <= i < index ==> (#[trigger] predicates@[i])@ == all_by_step(before)[i],
            decreases predicates@.len() - index,
        {
            assert(predicates@[index as int]@ == before[index as int]);
            order_by_step(&mut predicates[index].subtables);
            index = index + 1;
        }
        assert(predicates_view(predicates@) =~= all_by_step(before));
        let manifest = ModelManifest {
            layout_version: STORE_LAYOUT_VERSION,
            cache_key,
            predicates,
            rule_history,
        };
        Publication {
            target: self.target,
            staging: self.staging,
            manifest,
            step: PublishStep::WriteManifest,
        }
    }

    /// Abandons the store: the name of the directory to remove.
    pub fn abandon(self) -> (staging: String)
        ensures
            staging@ == self@.staging,
    {
        self.staging
    }
}

/// What is left to do until a store is published.
#[derive(Clone, Copy, Debug, PartialEq, Eq, Structural)]
pub enum PublishStep {
    /// Write the manifest into the staging directory.
    WriteManifest,
    /// Rename the staging directory to the target.
    MoveIntoPlace,
    /// Nothing: the store is in place.
    Done,
}

/// The step behind one that succeeded.
pub open spec fn next_step(step: PublishStep) -> PublishStep {
    match step {
        PublishStep::WriteManifest => PublishStep::MoveIntoPlace,
        PublishStep::MoveIntoPlace => PublishStep::Done,
        PublishStep::Done => PublishStep::Done,
    }
}

/// A store that is being published.
///
/// The manifest is written last, and the rename is the only step that publishes,
/// so a store either has a manifest and is complete, or does not exist.
#[derive(Debug)]
pub struct Publication {
    target: String,
    staging: String,
    manifest: ModelManifest,
    step: PublishStep,
}

/// What a [Publication] has done and holds.
pub struct PublicationView {
    pub target: Seq<char>,
    pub staging: Seq<char>,
    pub manifest: ManifestView,
    pub step: PublishStep,
}

impl View for Publication {
    type V = PublicationView;

    closed spec fn view(&self) -> PublicationView {
        PublicationView {
            target: self.target@,
            staging: self.staging@,
            manifest: self.manifest@,
            step: self.step,
        }
    }
}

impl Publication {
    /// What is to be done next.
    pub fn step(&self) -> (step: PublishStep)
        ensures
            step == self@.step,
    {
        self.step
    }

    /// The manifest.
    pub fn manifest(&self) -> (manifest: &ModelManifest)
        ensures
            manifest@ == self@.manifest,
    {
        &self.manifest
    }

    /// The name of the staging directory.
    pub fn staging(&self) -> (staging: &str)
        ensures
            staging@ == self@.staging,
    {
        self.staging.as_str()
    }

    /// The final location.
    pub fn target(&self) -> (target: &str)
        ensures
            target@ == self@.target,
    {
        self.target.as_str()
    }

    /// Goes on to the next step where the last one succeeded, or reports why it
    /// did not.
    pub fn proceed(&mut self, outcome: Result<(), IoFailure>) -> (result: Result<
        (),
        ModelStoreError,
    >)
        ensures
            final(self)@.target == old(self)@.target,
            final(self)@.staging == old(self)@.staging,
            final(self)@.manifest == old(self)@.manifest,
            match outcome {
                Ok(_) => result is Ok && final(self)@.step == next_step(old(self)@.step),
                Err(failure) => {
                    &&& result matches Err(error) && error@ == io_fault(failure)
                    &&& final(self)@.step == old(self)@.step
                },
            },
    {
        match outcome {
            Ok(_) => {
                self.step = match self.step {
                    PublishStep::WriteManifest => PublishStep::MoveIntoPlace,
                    PublishStep::MoveIntoPlace => PublishStep::Done,
                    PublishStep::Done => PublishStep::Done,
                };
                Ok(())
            },
            Err(failure) => Err(
                ModelStoreError::Io { path: failure.path, source: failure.source },
            ),
        }
    }
}

/// The step that publishing has reached after the given outcomes.
pub open spec fn step_after(outcomes: Seq<bool>) -> PublishStep
    decreases outcomes.len(),
{
    if outcomes.len() == 0 {
        PublishStep::WriteManifest
    } else if outcomes.last() {
        next_step(step_after(outcomes.drop_last()))
    } else {
        step_after(outcomes.drop_last())
    }
}

/// A store is published only once the rename has succeeded, and that comes only
/// once the manifest has been written.
pub proof fn lemma_published_last(outcomes: Seq<bool>)
    requires
        step_after(outcomes) == PublishStep::Done,
    ensures
        exists|written: int, moved: int|
            0 <= written < moved < outcomes.len() && outcomes[written] && #[trigger] step_after(
                outcomes.take(written),
            ) == PublishStep::WriteManifest && outcomes[moved] && #[trigger] step_after(
                outcomes.take(moved),
            ) == PublishStep::MoveIntoPlace,
    decreases outcomes.len(),
{
    let front = outcomes.drop_last();
    let last = outcomes.len() - 1;
    assert(outcomes.take(last) =~= front);
    if step_after(front) == PublishStep::Done {
        lemma_published_last(front);
        let (written, moved) = choose|written: int, moved: int|
            0 <= written < moved < front.len() && front[written] && #[trigger] step_after(
                front.take(written),
            ) == PublishStep::WriteManifest && front[moved] && #[trigger] step_after(
                front.take(moved),
            ) == PublishStep::MoveIntoPlace;
        assert(front.take(written) =~= outcomes.take(written));
        assert(front.take(moved) =~= outcomes.take(moved));
    } else {
        assert(step_after(outcomes.take(last)) == PublishStep::MoveIntoPlace);
        lemma_manifest_written(front);
        let written = choose|written: int|
            0 <= written < front.len() && front[written] && #[trigger] step_after(
                front.take(written),
            ) == PublishStep::WriteManifest;
        assert(front.take(written) =~= outcomes.take(written));
    }
}

proof fn lemma_manifest_written(outcomes: Seq<bool>)
    requires
        step_after(outcomes) == PublishStep::MoveIntoPlace,
    ensures
        exists|written: int|
            0 <= written < outcomes.len() && outcomes[written] && #[trigger] step_after(
                outcomes.take(written),
            ) == PublishStep::WriteManifest,
    decreases outcomes.len(),
{
    let front = outcomes.drop_last();
    let last = outcomes.len() - 1;
    assert(outcomes.take(last) =~= front);
    if step_after(front) == PublishStep::MoveIntoPlace {
        lemma_manifest_written(front);
        let written = choose|written: int|
            0 <= written < front.len() && front[written] && #[trigger] step_after(
                front.take(written),
            ) == PublishStep::WriteManifest;
        assert(front.take(written) =~= outcomes.take(written));
    } else {
        assert(step_after(outcomes.take(last)) == PublishStep::WriteManifest);
    }
}

/// What came of reading and parsing a manifest.
#[derive(Debug)]
pub enum ManifestRead {
    /// The file could not be read.
    Unreadable(IoFailure),
    /// The file is not a manifest.
    Malformed(IoFailure),
    /// The manifest.
    Parsed(ModelManifest),
}

/// What came of reading a table file.
#[derive(Debug)]
pub enum TableRead {
    /// There is no such file.
    Missing,
    /// The file could not be read.
    Unreadable(IoFailure),
    /// The contents of the file.
    Contents(Vec<u8>),
}

/// A model store on disk, opened for reading.
#[derive(Debug)]
pub struct ModelStore {
    path: String,
    manifest: ModelManifest,
}

/// What a [ModelStore] holds.
pub struct StoreView {
    pub path: Seq<char>,
    pub manifest: ManifestView,
}

impl View for ModelStore {
    type V = StoreView;

    closed spec fn view(&self) -> StoreView {
        StoreView { path: self.path@, manifest: self.manifest@ }
    }
}

/// A path with another one behind it. One that starts at the root replaces what is
/// in front of it, and a separator is added only where there is something in front
/// that does not end in one.
pub open spec fn joined(front: Seq<char>, behind: Seq<char>) -> Seq<char> {
    if behind.len() > 0 && behind[0] == '/' {
        behind
    } else if front.len() == 0 || front.last() == '/' {
        front + behind
    } else {
        front + "/"@ + behind
    }
}

/// The path of a table file of the store at the given path.
pub open spec fn table_path(store: Seq<char>, file: Seq<char>) -> Seq<char> {
    joined(joined(store, TABLES_DIR@), file)
}

fn join(front: &str, behind: &str) -> (path: String)
    ensures
        path@ == joined(front@, behind@),
{
    let start = char_vec(behind);
    if start.len() > 0 && start[0] == '/' {
        return behind.to_owned();
    }
    let end = char_vec(front);
    let mut path = front.to_owned();
    if end.len() > 0 && end[end.len() - 1] != '/' {
        path.append("/");
    }
    path.append(behind);
    path
}

/// A table file whose name is no path from the root stands in the tables directory
/// of the store, with one separator at each seam.
pub proof fn lemma_table_path(store: Seq<char>, file: Seq<char>)
    requires
        file.len() > 0 ==> file[0] != '/',
    ensures
        table_path(store, file) == (if store.len() == 0 || store.last() == '/' {
            store + "tables/"@ + file
        } else {
            store + "/tables/"@ + file
        }),
{
    reveal_strlit("tables");
    reveal_strlit("tables/");
    reveal_strlit("/tables/");
    reveal_strlit("/");
    let front = joined(store, TABLES_DIR@);
    assert(front.last() == 's');
    assert(table_path(store, file) == front + "/"@ + file);
    if store.len() == 0 || store.last() == '/' {
        assert(front + "/"@ + file =~= store + "tables/"@ + file);
    } else {
        assert(front + "/"@ + file =~= store + "/tables/"@ + file);
    }
}

/// The bytes of the subtable that a predicate has at a step, given what came of
/// reading its file.
pub open spec fn loaded_bytes(
    predicates: Seq<PredicateView>,
    name: Seq<char>,
    step: usize,
    read: TableRead,
) -> Result<Option<Seq<u8>>, StoreFault> {
    match table_file(predicates, name, step) {
        None => Ok(None),
        Some(file) => match read {
            TableRead::Missing => Err(StoreFault::MissingTableFile { file }),
            TableRead::Unreadable(failure) => Err(io_fault(failure)),
            TableRead::Contents(bytes) => Ok(Some(bytes@)),
        },
    }
}

impl ModelStore {
    /// Opens a store, given what came of reading its manifest.
    ///
    /// Checks the version of the directory layout but not the cache key: whether a
    /// store is applicable is the caller's question, which needs the manifest to
    /// be answered.
    pub fn open(path: String, read: ManifestRead) -> (store: Result<Self, ModelStoreError>)
        ensures
            match read {
                ManifestRead::Unreadable(failure) => store matches Err(error) && error@ == io_fault(
                    failure,
                ),
                ManifestRead::Malformed(failure) => store matches Err(error) && error@ == (
                StoreFault::MalformedManifest { path: failure.path@, source: failure.source@ }),
                ManifestRead::Parsed(manifest) => if manifest.layout_version
                    != STORE_LAYOUT_VERSION {
                    store matches Err(error) && error@ == (StoreFault::LayoutVersionMismatch {
                        found: manifest.layout_version,
                        expected: STORE_LAYOUT_VERSION,
                    })
                } else {
                    store matches Ok(opened) && opened@ == (StoreView {
                        path: path@,
                        manifest: manifest@,
                    })
                },
            },
    {
        match read {
            ManifestRead::Unreadable(failure) => Err(
                ModelStoreError::Io { path: failure.path, source: failure.source },
            ),
            ManifestRead::Malformed(failure) => Err(
                ModelStoreError::MalformedManifest { path: failure.path, source: failure.source },
            ),
            ManifestRead::Parsed(manifest) => {
                if manifest.layout_version != STORE_LAYOUT_VERSION {
                    return Err(
                        ModelStoreError::LayoutVersionMismatch {
                            found: manifest.layout_version,
                            expected: STORE_LAYOUT_VERSION,
                        },
                    );
                }
                Ok(ModelStore { path, manifest })
            },
        }
    }

    /// Location of the store.
    pub fn path(&self) -> (path: &str)
        ensures
            path@ == self@.path,
    {
        self.path.as_str()
    }

    /// The manifest.
    pub fn manifest(&self) -> (manifest: &ModelManifest)
        ensures
            manifest@ == self@.manifest,
    {
        &self.manifest
    }

    /// Whether this store was built for the given key.
    pub fn is_applicable(&self, key: &CacheKey) -> (applicable: bool)
        ensures
            applicable == (self@.manifest.cache_key == key@),
    {
        self.manifest.cache_key.same(key)
    }

    /// Steps at which the given predicate has subtables.
    pub fn steps_for(&self, predicate: &str) -> (steps: Vec<usize>)
        ensures
            match predicate_place(self@.manifest.predicates, predicate@) {
                Some(place) => steps@ == self@.manifest.predicates[place as int].subtables.map_values(
                    |subtable: SubtableView| subtable.step,
                ),
                None => steps@ == Seq::<usize>::empty(),
            },
    {
        let mut steps: Vec<usize> = Vec::new();
        if let Some(place) = find_predicate(&self.manifest.predicates, predicate) {
            let subtables = &self.manifest.predicates[place].subtables;
            let ghost views = subtables_view(subtables@);
            assert(self@.manifest.predicates[place as int].subtables == views);
            let mut index: usize = 0;
            while index < subtables.len()
                invariant
                    index <= subtables@.len(),
                    steps@.len() == index,
                    forall|i: int| 0 <= i < index ==> steps@[i] == (#[trigger] subtables@[i]).step,
                decreases subtables@.len() - index,
            {
                steps.push(subtables[index].step);
                index = index + 1;
            }
            assert(steps@ =~= views.map_values(|subtable: SubtableView| subtable.step));
        }
        steps
    }

    /// The recorded entry for a predicate, if it has one.
    pub fn predicate(&self, predicate: &str) -> (entry: Option<&PredicateEntry>)
        ensures
            match predicate_place(self@.manifest.predicates, predicate@) {
                Some(place) => entry matches Some(found) && found@
                    == self@.manifest.predicates[place as int],
                None => entry is None,
            },
    {
        match find_predicate(&self.manifest.predicates, predicate) {
            Some(place) => Some(&self.manifest.predicates[place]),
            None => None,
        }
    }

    /// The snapshot of the dictionary, given what came of reading its file.
    pub fn dictionary(&self, read: Result<Vec<u8>, IoFailure>) -> (dictionary: Result<
        DictionarySnapshot,
        ModelStoreError,
    >)
        ensures
            match read {
                Ok(bytes) => match parse_snapshot(bytes@) {
                    Ok(entries) => dictionary matches Ok(snapshot) && snapshot@ == entries,
                    Err(fault) => dictionary matches Err(error) && error@
                        == StoreFault::MalformedDictionary(fault),
                },
                Err(failure) => dictionary matches Err(error) && error@ == io_fault(failure),
            },
    {
        match read {
            Ok(bytes) => match DictionarySnapshot::decode(bytes.as_slice()) {
                Ok(snapshot) => Ok(snapshot),
                Err(error) => Err(ModelStoreError::MalformedDictionary(error)),
            },
            Err(failure) => Err(
                ModelStoreError::Io { path: failure.path, source: failure.source },
            ),
        }
    }

    /// The file of one subtable, inside the tables directory, or `None` if the
    /// predicate has nothing at that step.
    pub fn table_file(&self, predicate: &str, step: usize) -> (file: Option<&str>)
        ensures
            text_view(file) == table_file(self@.manifest.predicates, predicate@, step),
    {
        match find_predicate(&self.manifest.predicates, predicate) {
            Some(place) => {
                let subtables = &self.manifest.predicates[place].subtables;
                assert(self@.manifest.predicates[place as int].subtables == subtables_view(
                    subtables@,
                ));
                match find_step(subtables, step) {
                    Some(subtable) => Some(subtables[subtable].file.as_str()),
                    None => None,
                }
            },
            None => None,
        }
    }

    /// The path of the file of one subtable, or `None` if the predicate has nothing
    /// at that step.
    pub fn table_path(&self, predicate: &str, step: usize) -> (path: Option<String>)
        ensures
            match table_file(self@.manifest.predicates, predicate@, step) {
                Some(file) => path matches Some(text) && text@ == table_path(self@.path, file),
                None => path is None,
            },
    {
        match self.table_file(predicate, step) {
            Some(file) => Some(self.path_of(file)),
            None => None,
        }
    }

    fn path_of(&self, file: &str) -> (path: String)
        ensures
            path@ == table_path(self@.path, file@),
    {
        join(join(self.path.as_str(), TABLES_DIR).as_str(), file)
    }

    /// One subtable, given what came of reading its file, or `None` if the
    /// predicate has nothing at that step.
    pub fn load_table(&self, predicate: &str, step: usize, read: TableRead) -> (table: Result<
        Option<Trie>,
        ModelStoreError,
    >)
        ensures
            match loaded_bytes(self@.manifest.predicates, predicate@, step, read) {
                Ok(Some(bytes)) => match parse_trie(bytes) {
                    Ok(expected) => table matches Ok(Some(trie)) && trie@ == expected,
                    Err(source) => {
                        &&& table_file(self@.manifest.predicates, predicate@, step) matches Some(
                            file,
                        )
                        &&& table matches Err(error)
                        &&& error@ == (StoreFault::MalformedTable {
                            path: table_path(self@.path, file),
                            source,
                        })
                    },
                },
                Ok(None) => table matches Ok(None),
                Err(fault) => table matches Err(error) && error@ == fault,
            },
    {
        let file = match self.table_file(predicate, step) {
            Some(file) => file,
            None => return Ok(None),
        };
        match self.load_table_bytes(predicate, step, read) {
            Ok(Some(bytes)) => match Trie::decode(bytes.as_slice()) {
                Ok(trie) => Ok(Some(trie)),
                Err(source) => Err(
                    ModelStoreError::MalformedTable { path: self.path_of(file), source },
                ),
            },
            Ok(None) => Ok(None),
            Err(error) => Err(error),
        }
    }

    /// The raw bytes of one subtable, given what came of reading its file.
    pub fn load_table_bytes(&self, predicate: &str, step: usize, read: TableRead) -> (bytes: Result<
        Option<Vec<u8>>,
        ModelStoreError,
    >)
        ensures
            match loaded_bytes(self@.manifest.predicates, predicate@, step, read) {
                Ok(Some(expected)) => bytes matches Ok(Some(got)) && got@ == expected,
                Ok(None) => bytes matches Ok(None),
                Err(fault) => bytes matches Err(error) && error@ == fault,
            },
    {
        match self.table_file(predicate, step) {
            Some(file) => match read {
                TableRead::Missing => Err(
                    ModelStoreError::MissingTableFile { file: file.to_owned() },
                ),
                TableRead::Unreadable(failure) => Err(
                    ModelStoreError::Io { path: failure.path, source: failure.source },
                ),
                TableRead::Contents(bytes) => Ok(Some(bytes)),
            },
            None => Ok(None),
        }
    }
}

/// A subtable that was written: predicate, arity and step.
pub struct TableWrite {
    pub predicate: Seq<char>,
    pub arity: usize,
    pub step: usize,
}

/// The predicates that are recorded by writing subtables one after the other.
pub open spec fn after_writes(writes: Seq<TableWrite>) -> Seq<PredicateView>
    decreases writes.len(),
{
    if writes.len() == 0 {
        Seq::empty()
    } else {
        let last = writes.last();
        recorded(
            after_writes(writes.drop_last()),
            last.predicate,
            last.arity,
            SubtableView {
                step: last.step,
                file: table_name((writes.len() - 1) as nat),
            },
        )
    }
}

/// The entry of a predicate is the first with its name, and there is none where no
/// entry has it.
pub proof fn lemma_predicate_place_meaning(predicates: Seq<PredicateView>, name: Seq<char>)
    ensures
        match predicate_place(predicates, name) {
            Some(place) => {
                &&& place < predicates.len()
                &&& predicates[place as int].predicate == name
                &&& forall|i: int| 0 <= i < place ==> (#[trigger] predicates[i]).predicate != name
            },
            None => forall|i: int|
                0 <= i < predicates.len() ==> (#[trigger] predicates[i]).predicate != name,
        },
    decreases predicates.len(),
{
    if predicates.len() > 0 {
        let front = predicates.drop_last();
        lemma_predicate_place_meaning(front, name);
        match predicate_place(front, name) {
            Some(place) => {
                assert forall|i: int| 0 <= i < place implies (#[trigger] predicates[i]).predicate
                    != name by {
                    assert(front[i] == predicates[i]);
                }
            },
            None => {
                assert forall|i: int| 0 <= i < predicates.len() - 1 implies (
                #[trigger] predicates[i]).predicate != name by {
                    assert(front[i] == predicates[i]);
                }
            },
        }
    }
}

/// Recording a subtable makes it the one of its predicate and step, unless there
/// was one before, and leaves all others as they were.
proof fn lemma_recorded_file(
    predicates: Seq<PredicateView>,
    name: Seq<char>,
    arity: usize,
    entry: SubtableView,
    other: Seq<char>,
    step: usize,
)
    ensures
        table_file(recorded(predicates, name, arity, entry), other, step) == (match table_file(
            predicates,
            other,
            step,
        ) {
            Some(file) => Some(file),
            None => if other == name && step == entry.step {
                Some(entry.file)
            } else {
                None
            },
        }),
{
    let more = recorded(predicates, name, arity, entry);
    lemma_predicate_place_meaning(predicates, name);
    lemma_predicate_place_meaning(predicates, other);
    match predicate_place(predicates, name) {
        Some(place) => {
            match predicate_place(predicates, other) {
                Some(found) => {
                    assert forall|i: int| 0 <= i < found implies (#[trigger] more[i]).predicate
                        != other by {
                        assert(predicates[i].predicate != other);
                    }
                    lemma_predicate_place(more, other, found as int);
                    if other == name {
                        let subtables = predicates[place as int].subtables;
                        lemma_inserted_step_file(subtables, entry, subtables.len() as int, step);
                        assert(subtables.insert(subtables.len() as int, entry) =~= subtables.push(
                            entry,
                        ));
                    }
                },
                None => {
                    assert forall|i: int| 0 <= i < more.len() implies (
                    #[trigger] more[i]).predicate != other by {
                        assert(predicates[i].predicate != other);
                    }
                    lemma_no_predicate(more, other);
                },
            }
        },
        None => {
            match predicate_place(predicates, other) {
                Some(found) => {
                    assert forall|i: int| 0 <= i < found implies (#[trigger] more[i]).predicate
                        != other by {
                        assert(more[i] == predicates[i]);
                    }
                    lemma_predicate_place(more, other, found as int);
                },
                None => {
                    assert forall|i: int| 0 <= i < predicates.len() implies (
                    #[trigger] more[i]).predicate != other by {
                        assert(more[i] == predicates[i]);
                    }
                    if other == name {
                        lemma_predicate_place(more, other, predicates.len() as int);
                        let empty = Seq::<SubtableView>::empty();
                        lemma_no_step(empty, step);
                        lemma_inserted_step_file(empty, entry, 0, step);
                        assert(empty.insert(0, entry) =~= seq![entry]);
                    } else {
                        lemma_no_predicate(more, other);
                    }
                },
            }
        },
    }
}

/// Ordering the subtables by step does not change which file a predicate has at a
/// step.
pub proof fn lemma_ordering_keeps_files(
    predicates: Seq<PredicateView>,
    name: Seq<char>,
    step: usize,
)
    ensures
        table_file(all_by_step(predicates), name, step) == table_file(predicates, name, step),
{
    let ordered = all_by_step(predicates);
    lemma_predicate_place_meaning(predicates, name);
    match predicate_place(predicates, name) {
        Some(place) => {
            assert forall|i: int| 0 <= i < place implies (#[trigger] ordered[i]).predicate
                != name by {
                assert(predicates[i].predicate != name);
            }
            lemma_predicate_place(ordered, name, place as int);
            lemma_by_step(predicates[place as int].subtables);
            assert(step_file(ordered[place as int].subtables, step) == step_file(
                predicates[place as int].subtables,
                step,
            ));
        },
        None => {
            assert forall|i: int| 0 <= i < ordered.len() implies (#[trigger] ordered[i]).predicate
                != name by {
                assert(predicates[i].predicate != name);
            }
            lemma_no_predicate(ordered, name);
        },
    }
}

proof fn lemma_written_file(writes: Seq<TableWrite>, index: int)
    requires
        0 <= index < writes.len(),
        forall|i: int|
            0 <= i < index ==> (#[trigger] writes[i]).predicate != writes[index].predicate
                || writes[i].step != writes[index].step,
    ensures
        table_file(after_writes(writes), writes[index].predicate, writes[index].step) == Some(
            table_name(index as nat),
        ),
    decreases writes.len(),
{
    let front = writes.drop_last();
    let last = writes.last();
    let entry = SubtableView { step: last.step, file: table_name((writes.len() - 1) as nat) };
    let name = writes[index].predicate;
    let step = writes[index].step;
    lemma_recorded_file(after_writes(front), last.predicate, last.arity, entry, name, step);
    if index < front.len() {
        assert forall|i: int| 0 <= i < index implies (#[trigger] front[i]).predicate
            != front[index].predicate || front[i].step != front[index].step by {
            assert(front[i] == writes[i]);
        }
        lemma_written_file(front, index);
    } else {
        assert forall|i: int| 0 <= i < front.len() implies (#[trigger] front[i]).predicate != name
            || front[i].step != step by {
            assert(front[i] == writes[i]);
        }
        lemma_unwritten_file(front, name, step);
    }
}

proof fn lemma_unwritten_file(writes: Seq<TableWrite>, name: Seq<char>, step: usize)
    requires
        forall|i: int|
            0 <= i < writes.len() ==> (#[trigger] writes[i]).predicate != name || writes[i].step
                != step,
    ensures
        table_file(after_writes(writes), name, step) is None,
    decreases writes.len(),
{
    if writes.len() > 0 {
        let front = writes.drop_last();
        let last = writes[writes.len() - 1];
        let entry = SubtableView { step: last.step, file: table_name((writes.len() - 1) as nat) };
        assert forall|i: int| 0 <= i < front.len() implies (#[trigger] front[i]).predicate != name
            || front[i].step != step by {
            assert(front[i] == writes[i]);
        }
        lemma_unwritten_file(front, name, step);
        lemma_recorded_file(after_writes(front), last.predicate, last.arity, entry, name, step);
    }
}

/// What was written is what is found: in the manifest of a finished store, the
/// file of a predicate at a step is the one that its subtable was written to, and
/// there is none where none was written.
pub proof fn lemma_written_tables_are_found(
    writes: Seq<TableWrite>,
    predicate: Seq<char>,
    step: usize,
)
    ensures
        match table_file(all_by_step(after_writes(writes)), predicate, step) {
            Some(file) => exists|index: int|
                0 <= index < writes.len() && file == table_name(index as nat) && (
                #[trigger] writes[index]).predicate == predicate && writes[index].step == step
                    && forall|i: int|
                    0 <= i < index ==> (#[trigger] writes[i]).predicate != predicate
                        || writes[i].step != step,
            None => forall|i: int|
                0 <= i < writes.len() ==> (#[trigger] writes[i]).predicate != predicate
                    || writes[i].step != step,
        },
{
    lemma_ordering_keeps_files(after_writes(writes), predicate, step);
    if exists|i: int|
        0 <= i < writes.len() && (#[trigger] writes[i]).predicate == predicate && writes[i].step
            == step {
        let some = choose|i: int|
            0 <= i < writes.len() && (#[trigger] writes[i]).predicate == predicate && writes[i].step
                == step;
        let first = lemma_first_write(writes, predicate, step, some);
        lemma_written_file(writes, first);
    } else {
        lemma_unwritten_file(writes, predicate, step);
    }
}

proof fn lemma_first_write(
    writes: Seq<TableWrite>,
    predicate: Seq<char>,
    step: usize,
    some: int,
) -> (first: int)
    requires
        0 <= some < writes.len(),
        writes[some].predicate == predicate,
        writes[some].step == step,
    ensures
        0 <= first <= some,
        writes[first].predicate == predicate,
        writes[first].step == step,
        forall|i: int|
            0 <= i < first ==> (#[trigger] writes[i]).predicate != predicate || writes[i].step
                != step,
    decreases some,
{
    if exists|i: int|
        0 <= i < some && (#[trigger] writes[i]).predicate == predicate && writes[i].step == step {
        let earlier = choose|i: int|
            0 <= i < some && (#[trigger] writes[i]).predicate == predicate && writes[i].step
                == step;
        lemma_first_write(writes, predicate, step, earlier)
    } else {
        some
    }
}

/// The contents of the table files, by their names, once the given tries have been
/// written one after the other.
pub open spec fn files_after(tries: Seq<TrieView>) -> Map<Seq<char>, Seq<u8>>
    decreases tries.len(),
{
    if tries.len() == 0 {
        Map::empty()
    } else {
        files_after(tries.drop_last()).insert(
            table_name((tries.len() - 1) as nat),
            trie_bytes(tries.last()),
        )
    }
}

proof fn lemma_file_contents(tries: Seq<TrieView>, index: int)
    requires
        0 <= index < tries.len(),
    ensures
        files_after(tries).contains_key(table_name(index as nat)),
        files_after(tries)[table_name(index as nat)] == trie_bytes(tries[index]),
    decreases tries.len(),
{
    let last = tries.len() - 1;
    if index < last {
        let front = tries.drop_last();
        lemma_file_contents(front, index);
        assert(front[index] == tries[index]);
        if table_name(index as nat) == table_name(last as nat) {
            lemma_table_names_differ(index as nat, last as nat);
        }
    }
}

/// A table that was written is the table that is loaded: the manifest of a finished
/// store names a file for its predicate and step, and that file decodes to it. Where
/// a predicate was given two tables for one step, this holds of the first.
pub proof fn lemma_stored_tables_load(writes: Seq<TableWrite>, tries: Seq<TrieView>, index: int)
    requires
        writes.len() == tries.len(),
        0 <= index < writes.len(),
        forall|i: int|
            0 <= i < index ==> (#[trigger] writes[i]).predicate != writes[index].predicate
                || writes[i].step != writes[index].step,
        proper(tries[index]),
        trie_bytes(tries[index]).len() <= usize::MAX,
    ensures
        table_file(
            all_by_step(after_writes(writes)),
            writes[index].predicate,
            writes[index].step,
        ) matches Some(file) && files_after(tries).contains_key(file) && parse_trie(
            files_after(tries)[file],
        ) == Ok::<_, TrieStorageError>(tries[index]),
{
    lemma_ordering_keeps_files(after_writes(writes), writes[index].predicate, writes[index].step);
    lemma_written_file(writes, index);
    lemma_file_contents(tries, index);
    lemma_trie_round_trip(tries[index]);
}

/// In the manifest of a finished store the steps of each predicate ascend, in
/// whatever order its subtables were written, and no subtable is lost.
pub proof fn lemma_finished_steps_ascend(predicates: Seq<PredicateView>, place: int)
    requires
        0 <= place < predicates.len(),
    ensures
        steps_ascend(all_by_step(predicates)[place].subtables),
        all_by_step(predicates)[place].subtables.to_multiset()
            == predicates[place].subtables.to_multiset(),
        all_by_step(predicates)[place].predicate == predicates[place].predicate,
        all_by_step(predicates)[place].arity == predicates[place].arity,
{
    lemma_by_step(predicates[place].subtables);
}

/// The file of a predicate at a step is that of the first subtable of that step in
/// the first entry with that name, and there is none where there is no such entry
/// or it has no such subtable.
pub proof fn lemma_table_file(predicates: Seq<PredicateView>, name: Seq<char>, step: usize)
    ensures
        match table_file(predicates, name, step) {
            Some(file) => exists|p: int, t: int|
                0 <= p < predicates.len() && 0 <= t < predicates[p].subtables.len()
                    && predicates[p].predicate == name && (
                #[trigger] predicates[p].subtables[t]).step == step
                    && predicates[p].subtables[t].file == file && (forall|i: int|
                    0 <= i < p ==> (#[trigger] predicates[i]).predicate != name) && (forall|i: int|
                    0 <= i < t ==> (#[trigger] predicates[p].subtables[i]).step != step),
            None => forall|p: int|
                0 <= p < predicates.len() && (#[trigger] predicates[p]).predicate == name && (
                forall|i: int| 0 <= i < p ==> (#[trigger] predicates[i]).predicate != name)
                    ==> forall|t: int|
                    0 <= t < predicates[p].subtables.len() ==> (
                    #[trigger] predicates[p].subtables[t]).step != step,
        },
{
    lemma_predicate_place_meaning(predicates, name);
    if let Some(place) = predicate_place(predicates, name) {
        lemma_step_place_meaning(predicates[place as int].subtables, step);
        if let Some(subtable) = step_place(predicates[place as int].subtables, step) {
            assert(predicates[place as int].subtables[subtable as int].step == step);
        } else {
            assert forall|p: int|
                0 <= p < predicates.len() && (#[trigger] predicates[p]).predicate == name && (
                forall|i: int|
                    0 <= i < p ==> (#[trigger] predicates[i]).predicate != name) implies forall|
                t: int,
            |
                0 <= t < predicates[p].subtables.len() ==> (
                #[trigger] predicates[p].subtables[t]).step != step by {
                if p < place {
                    assert(predicates[p].predicate != name);
                }
                assert(!(place < p)) by {
                    if place < p {
                        assert(predicates[place as int].predicate != name);
                    }
                }
            }
        }
    }
}

/// Loading a subtable that the manifest lists gives the contents of its file, or
/// says what is wrong with the file; it never says that there is nothing.
pub proof fn lemma_listed_subtables_load(
    predicates: Seq<PredicateView>,
    p: int,
    t: int,
    read: TableRead,
)
    requires
        0 <= p < predicates.len(),
        0 <= t < predicates[p].subtables.len(),
        forall|i: int|
            0 <= i < p ==> (#[trigger] predicates[i]).predicate != predicates[p].predicate,
        forall|i: int|
            0 <= i < t ==> (#[trigger] predicates[p].subtables[i]).step
                != predicates[p].subtables[t].step,
    ensures
        loaded_bytes(
            predicates,
            predicates[p].predicate,
            predicates[p].subtables[t].step,
            read,
        ) == (match read {
            TableRead::Contents(contents) => Ok(Some(contents@)),
            TableRead::Missing => Err(
                StoreFault::MissingTableFile { file: predicates[p].subtables[t].file },
            ),
            TableRead::Unreadable(failure) => Err(
                StoreFault::Io { path: failure.path@, source: failure.source@ },
            ),
        }),
{
    lemma_predicate_place(predicates, predicates[p].predicate, p);
    lemma_step_place(predicates[p].subtables, predicates[p].subtables[t].step, t);
}

/// Loading gives nothing only where the manifest lists nothing: no entry has the
/// name, or the first that has it has no subtable of the step.
pub proof fn lemma_unlisted_subtables_do_not_load(
    predicates: Seq<PredicateView>,
    name: Seq<char>,
    step: usize,
    read: TableRead,
)
    ensures
        loaded_bytes(predicates, name, step, read) matches Ok(None) <==> forall|p: int|
            0 <= p < predicates.len() && (#[trigger] predicates[p]).predicate == name && (forall|
                i: int,
            |
                0 <= i < p ==> (#[trigger] predicates[i]).predicate != name) ==> forall|t: int|
                0 <= t < predicates[p].subtables.len() ==> (
                #[trigger] predicates[p].subtables[t]).step != step,
{
    lemma_table_file(predicates, name, step);
    if table_file(predicates, name, step) is Some {
        let (p, t) = choose|p: int, t: int|
            0 <= p < predicates.len() && 0 <= t < predicates[p].subtables.len()
                && predicates[p].predicate == name && (#[trigger] predicates[p].subtables[t]).step
                == step && predicates[p].subtables[t].file == table_file(
                predicates,
                name,
                step,
            )->0 && (forall|i: int|
                0 <= i < p ==> (#[trigger] predicates[i]).predicate != name) && (forall|i: int|
                0 <= i < t ==> (#[trigger] predicates[p].subtables[i]).step != step);
        assert(predicates[p].subtables[t].step == step);
        assert(predicates[p].predicate == name);
        lemma_listed_subtables_load(predicates, p, t, read);
    }
}

/// What was written is what is loaded: handed the bytes that were written for a
/// predicate and a step, a finished store gives them back. Where a predicate was
/// given two tables for one step, this holds of the first.
pub proof fn lemma_written_bytes_load(writes: Seq<TableWrite>, index: int, bytes: Vec<u8>)
    requires
        0 <= index < writes.len(),
        forall|i: int|
            0 <= i < index ==> (#[trigger] writes[i]).predicate != writes[index].predicate
                || writes[i].step != writes[index].step,
    ensures
        loaded_bytes(
            all_by_step(after_writes(writes)),
            writes[index].predicate,
            writes[index].step,
            TableRead::Contents(bytes),
        ) == Ok::<_, StoreFault>(Some(bytes@)),
        loaded_bytes(
            all_by_step(after_writes(writes)),
            writes[index].predicate,
            writes[index].step,
            TableRead::Missing,
        ) == Err::<Option<Seq<u8>>, _>(
            StoreFault::MissingTableFile { file: table_name(index as nat) },
        ),
{
    lemma_ordering_keeps_files(after_writes(writes), writes[index].predicate, writes[index].step);
    lemma_written_file(writes, index);
}

/// Whether an entry records the writes of its predicate among some writes: their
/// steps and files, and the arity of the first of them.
#[verifier::opaque]
pub open spec fn records_writes(entry: PredicateView, writes: Seq<TableWrite>) -> bool {
    &&& exists|first: int|
        0 <= first < writes.len() && (#[trigger] writes[first]).predicate == entry.predicate
            && writes[first].arity == entry.arity && forall|i: int|
            0 <= i < first ==> (#[trigger] writes[i]).predicate != entry.predicate
    &&& forall|i: int|
        0 <= i < writes.len() && (#[trigger] writes[i]).predicate == entry.predicate
            ==> entry.subtables.contains(
            SubtableView { step: writes[i].step, file: table_name(i as nat) },
        )
    &&& forall|t: int|
        0 <= t < entry.subtables.len() ==> exists|i: int|
            0 <= i < writes.len() && (#[trigger] writes[i]).predicate == entry.predicate
                && writes[i].step == (#[trigger] entry.subtables[t]).step && table_name(i as nat)
                == entry.subtables[t].file
}

/// In the manifest of a finished store every predicate that was written has one
/// entry, with the arity that it was first written with, and with its own subtables;
/// and there are no other entries.
pub proof fn lemma_manifest_records_writes(writes: Seq<TableWrite>)
    ensures
        ({
            let predicates = all_by_step(after_writes(writes));
            &&& forall|p: int|
                0 <= p < predicates.len() ==> records_writes(#[trigger] predicates[p], writes)
            &&& forall|p: int, q: int|
                0 <= p < q < predicates.len() ==> (#[trigger] predicates[p]).predicate != (
                #[trigger] predicates[q]).predicate
            &&& forall|i: int|
                0 <= i < writes.len() ==> exists|p: int|
                    0 <= p < predicates.len() && (#[trigger] predicates[p]).predicate == (
                    #[trigger] writes[i]).predicate
        }),
{
    let plain = after_writes(writes);
    let predicates = all_by_step(plain);
    lemma_recorded_writes(writes);
    assert forall|p: int| 0 <= p < predicates.len() implies records_writes(
        #[trigger] predicates[p],
        writes,
    ) by {
        lemma_ordered_entry(plain[p], writes);
    }
    assert forall|p: int, q: int| 0 <= p < q < predicates.len() implies (
    #[trigger] predicates[p]).predicate != (#[trigger] predicates[q]).predicate by {
        assert(plain[p].predicate != plain[q].predicate);
    }
    assert forall|i: int| 0 <= i < writes.len() implies exists|p: int|
        0 <= p < predicates.len() && (#[trigger] predicates[p]).predicate == (
        #[trigger] writes[i]).predicate by {
        let p = choose|p: int|
            0 <= p < plain.len() && (#[trigger] plain[p]).predicate == writes[i].predicate;
        assert(predicates[p].predicate == writes[i].predicate);
    }
}

proof fn lemma_recorded_writes(writes: Seq<TableWrite>)
    ensures
        forall|p: int|
            0 <= p < after_writes(writes).len() ==> records_writes(
                #[trigger] after_writes(writes)[p],
                writes,
            ),
        forall|p: int, q: int|
            0 <= p < q < after_writes(writes).len() ==> (
            #[trigger] after_writes(writes)[p]).predicate != (
            #[trigger] after_writes(writes)[q]).predicate,
        forall|i: int|
            0 <= i < writes.len() ==> exists|p: int|
                0 <= p < after_writes(writes).len() && (
                #[trigger] after_writes(writes)[p]).predicate == (#[trigger] writes[i]).predicate,
    decreases writes.len(),
{
    if writes.len() > 0 {
        let front = writes.drop_last();
        let last = writes.last();
        let end = writes.len() - 1;
        let old = after_writes(front);
        let new = after_writes(writes);
        let entry = SubtableView { step: last.step, file: table_name(end as nat) };
        lemma_recorded_writes(front);
        lemma_predicate_place_meaning(old, last.predicate);
        assert forall|p: int| 0 <= p < new.len() implies records_writes(
            #[trigger] new[p],
            writes,
        ) by {
            if p < old.len() {
                lemma_one_more_write(old[p], new[p], writes);
            } else {
                assert forall|i: int| 0 <= i < end implies (#[trigger] writes[i]).predicate
                    != last.predicate by {
                    assert(front[i] == writes[i]);
                    let q = choose|q: int|
                        0 <= q < old.len() && (#[trigger] old[q]).predicate == front[i].predicate;
                    assert(old[q].predicate != last.predicate);
                }
                lemma_new_entry(new[p], writes);
            }
        }
        assert forall|p: int, q: int| 0 <= p < q < new.len() implies (
        #[trigger] new[p]).predicate != (#[trigger] new[q]).predicate by {
            if q < old.len() {
                assert(old[p].predicate != old[q].predicate);
            } else {
                assert(old[p].predicate != last.predicate);
            }
        }
        assert forall|i: int| 0 <= i < writes.len() implies exists|p: int|
            0 <= p < new.len() && (#[trigger] new[p]).predicate == (
            #[trigger] writes[i]).predicate by {
            if i < end {
                assert(front[i] == writes[i]);
                let p = choose|p: int|
                    0 <= p < old.len() && (#[trigger] old[p]).predicate == front[i].predicate;
                assert(new[p].predicate == writes[i].predicate);
            } else {
                match predicate_place(old, last.predicate) {
                    Some(place) => {
                        assert(new[place as int].predicate == last.predicate);
                    },
                    None => {
                        assert(new[old.len() as int].predicate == last.predicate);
                    },
                }
            }
        }
    }
}

proof fn lemma_ordered_entry(entry: PredicateView, writes: Seq<TableWrite>)
    requires
        records_writes(entry, writes),
    ensures
        records_writes(
            PredicateView {
                predicate: entry.predicate,
                arity: entry.arity,
                subtables: by_step(entry.subtables),
            },
            writes,
        ),
{
    reveal(records_writes);
    let before = entry.subtables;
    let after = by_step(before);
    lemma_by_step(before);
    before.to_multiset_ensures();
    after.to_multiset_ensures();
    assert forall|i: int|
        0 <= i < writes.len() && (#[trigger] writes[i]).predicate
            == entry.predicate implies after.contains(
        SubtableView { step: writes[i].step, file: table_name(i as nat) },
    ) by {
        let wanted = SubtableView { step: writes[i].step, file: table_name(i as nat) };
        assert(before.contains(wanted));
        assert(before.to_multiset().count(wanted) > 0);
        assert(after.to_multiset().count(wanted) > 0);
    }
    assert forall|t: int| 0 <= t < after.len() implies exists|i: int|
        0 <= i < writes.len() && (#[trigger] writes[i]).predicate == entry.predicate
            && writes[i].step == (#[trigger] after[t]).step && table_name(i as nat)
            == after[t].file by {
        assert(after.contains(after[t]));
        assert(after.to_multiset().count(after[t]) > 0);
        assert(before.to_multiset().count(after[t]) > 0);
        assert(before.contains(after[t]));
        let u = choose|u: int| 0 <= u < before.len() && before[u] == after[t];
        assert(entry.subtables[u] == after[t]);
    }
}

proof fn lemma_new_entry(entry: PredicateView, writes: Seq<TableWrite>)
    requires
        writes.len() > 0,
        entry.predicate == writes.last().predicate,
        entry.arity == writes.last().arity,
        entry.subtables == seq![
            SubtableView {
                step: writes.last().step,
                file: table_name((writes.len() - 1) as nat),
            },
        ],
        forall|i: int|
            0 <= i < writes.len() - 1 ==> (#[trigger] writes[i]).predicate
                != writes.last().predicate,
    ensures
        records_writes(entry, writes),
{
    reveal(records_writes);
    let end = writes.len() - 1;
    assert(writes[end].predicate == entry.predicate);
    assert(entry.subtables[0] == (SubtableView {
        step: writes[end].step,
        file: table_name(end as nat),
    }));
}

#[verifier::rlimit(40)]
proof fn lemma_one_more_write(old: PredicateView, new: PredicateView, writes: Seq<TableWrite>)
    requires
        writes.len() > 0,
        records_writes(old, writes.drop_last()),
        new.predicate == old.predicate,
        new.arity == old.arity,
        new.subtables == (if writes.last().predicate == old.predicate {
            old.subtables.push(
                SubtableView {
                    step: writes.last().step,
                    file: table_name((writes.len() - 1) as nat),
                },
            )
        } else {
            old.subtables
        }),
    ensures
        records_writes(new, writes),
{
    reveal(records_writes);
    let front = writes.drop_last();
    let end = writes.len() - 1;
    let first = choose|first: int|
        0 <= first < front.len() && (#[trigger] front[first]).predicate == old.predicate
            && front[first].arity == old.arity && forall|i: int|
            0 <= i < first ==> (#[trigger] front[i]).predicate != old.predicate;
    assert(writes[first] == front[first]);
    assert forall|i: int| 0 <= i < first implies (#[trigger] writes[i]).predicate
        != new.predicate by {
        assert(front[i] == writes[i]);
    }
    assert forall|i: int|
        0 <= i < writes.len() && (#[trigger] writes[i]).predicate
            == new.predicate implies new.subtables.contains(
        SubtableView { step: writes[i].step, file: table_name(i as nat) },
    ) by {
        let entry = SubtableView { step: writes[i].step, file: table_name(i as nat) };
        if i < end {
            assert(front[i] == writes[i]);
            assert(old.subtables.contains(entry));
            let t = choose|t: int| 0 <= t < old.subtables.len() && old.subtables[t] == entry;
            assert(new.subtables[t] == entry);
        } else {
            assert(new.subtables[old.subtables.len() as int] == entry);
        }
    }
    assert forall|t: int| 0 <= t < new.subtables.len() implies exists|i: int|
        0 <= i < writes.len() && (#[trigger] writes[i]).predicate == new.predicate
            && writes[i].step == (#[trigger] new.subtables[t]).step && table_name(i as nat)
            == new.subtables[t].file by {
        if t < old.subtables.len() {
            assert(old.subtables[t] == new.subtables[t]);
            let i = choose|i: int|
                0 <= i < front.len() && (#[trigger] front[i]).predicate == old.predicate
                    && front[i].step == old.subtables[t].step && table_name(i as nat)
                    == old.subtables[t].file;
            assert(writes[i] == front[i]);
        } else {
            assert(writes[end].predicate == new.predicate);
        }
    }
}

/// The number of steps that have succeeded.
pub open spec fn successes(outcomes: Seq<bool>) -> nat
    decreases outcomes.len(),
{
    if outcomes.len() == 0 {
        0
    } else if outcomes.last() {
        successes(outcomes.drop_last()) + 1
    } else {
        successes(outcomes.drop_last())
    }
}

/// Publishing takes two steps that succeed, the manifest and then the rename,
/// however often either fails before.
pub proof fn lemma_published_in_two_steps(outcomes: Seq<bool>)
    ensures
        step_after(outcomes) == (if successes(outcomes) == 0 {
            PublishStep::WriteManifest
        } else if successes(outcomes) == 1 {
            PublishStep::MoveIntoPlace
        } else {
            PublishStep::Done
        }),
    decreases outcomes.len(),
{
    if outcomes.len() > 0 {
        lemma_published_in_two_steps(outcomes.drop_last());
    }
}

/// Two keys say the same exactly where they agree in every field: a store applies
/// to nothing but the key that it was built for.
pub proof fn lemma_keys_agree_in_everything(left: CacheKey, right: CacheKey)
    ensures
        left@ == right@ <==> {
            &&& left.store_layout_version == right.store_layout_version
            &&& left.trie_format_version == right.trie_format_version
            &&& left.dictionary_format_version == right.dictionary_format_version
            &&& left.program@ == right.program@
            &&& left.parameters@ == right.parameters@
            &&& left.imports@.len() == right.imports@.len()
            &&& forall|i: int|
                0 <= i < left.imports@.len() ==> (#[trigger] left.imports@[i]).resource@
                    == right.imports@[i].resource@ && left.imports@[i].bytes
                    == right.imports@[i].bytes && left.imports@[i].modified_unix_nanos
                    == right.imports@[i].modified_unix_nanos
        },
{
    if left@ == right@ {
        assert(left@.imports.len() == right@.imports.len());
        assert forall|i: int| 0 <= i < left.imports@.len() implies (
        #[trigger] left.imports@[i]).resource@ == right.imports@[i].resource@
            && left.imports@[i].bytes == right.imports@[i].bytes
            && left.imports@[i].modified_unix_nanos == right.imports@[i].modified_unix_nanos by {
            assert(left@.imports[i] == right@.imports[i]);
        }
    }
    if left.imports@.len() == right.imports@.len() && forall|i: int|
        0 <= i < left.imports@.len() ==> (#[trigger] left.imports@[i]).resource@
            == right.imports@[i].resource@ && left.imports@[i].bytes == right.imports@[i].bytes
            && left.imports@[i].modified_unix_nanos == right.imports@[i].modified_unix_nanos {
        assert(left@.imports =~= right@.imports);
    }
}

/// A modification time is told apart from every other: the nanoseconds give back the
/// seconds and what is behind them.
pub proof fn lemma_times_differ(time: (u64, u32))
    requires
        time.1 < 1_000_000_000,
    ensures
        nanos_of(time) as int / 1_000_000_000 == time.0,
        nanos_of(time) as int % 1_000_000_000 == time.1,
{
}

/// A manifest says what its parts say: two that say the same list the same
/// predicates with the same arities, steps and files, and the same rules.
pub proof fn lemma_manifests_say_everything(left: ModelManifest, right: ModelManifest)
    requires
        left@ == right@,
    ensures
        left.layout_version == right.layout_version,
        left.cache_key@ == right.cache_key@,
        left.rule_history@ == right.rule_history@,
        left.predicates@.len() == right.predicates@.len(),
        forall|p: int|
            0 <= p < left.predicates@.len() ==> {
                &&& (#[trigger] left.predicates@[p]).predicate@ == right.predicates@[p].predicate@
                &&& left.predicates@[p].arity == right.predicates@[p].arity
                &&& left.predicates@[p].subtables@.len() == right.predicates@[p].subtables@.len()
            },
        forall|p: int, t: int|
            0 <= p < left.predicates@.len() && 0 <= t < left.predicates@[p].subtables@.len() ==> (
            #[trigger] left.predicates@[p].subtables@[t]).step
                == right.predicates@[p].subtables@[t].step
                && left.predicates@[p].subtables@[t].file@
                == right.predicates@[p].subtables@[t].file@,
{
    assert(left@.predicates.len() == left.predicates@.len());
    assert(right@.predicates.len() == right.predicates@.len());
    assert forall|p: int| 0 <= p < left.predicates@.len() implies {
        &&& (#[trigger] left.predicates@[p]).predicate@ == right.predicates@[p].predicate@
        &&& left.predicates@[p].arity == right.predicates@[p].arity
        &&& left.predicates@[p].subtables@.len() == right.predicates@[p].subtables@.len()
    } by {
        assert(left@.predicates[p] == right@.predicates[p]);
        assert(left@.predicates[p] == left.predicates@[p]@);
        assert(right@.predicates[p] == right.predicates@[p]@);
        assert(left@.predicates[p].subtables.len() == left.predicates@[p].subtables@.len());
        assert(right@.predicates[p].subtables.len() == right.predicates@[p].subtables@.len());
    }
    assert forall|p: int, t: int|
        0 <= p < left.predicates@.len() && 0 <= t < left.predicates@[p].subtables@.len() implies (
    #[trigger] left.predicates@[p].subtables@[t]).step == right.predicates@[p].subtables@[t].step
        && left.predicates@[p].subtables@[t].file@
        == right.predicates@[p].subtables@[t].file@ by {
        assert(left@.predicates[p] == right@.predicates[p]);
        assert(left@.predicates[p] == left.predicates@[p]@);
        assert(right@.predicates[p] == right.predicates@[p]@);
        assert(left@.predicates[p].subtables[t] == left.predicates@[p].subtables@[t]@);
        assert(right@.predicates[p].subtables.len() == right.predicates@[p].subtables@.len());
        assert(left@.predicates[p].subtables.len() == left.predicates@[p].subtables@.len());
        assert(right@.predicates[p].subtables[t] == right.predicates@[p].subtables@[t]@);
    }
}

/// The staging directory is named after the target and the process, so that writers
/// of different processes do not collide.
pub proof fn lemma_staging_names(
    name: Option<Seq<char>>,
    process: u32,
    other: u32,
)
    ensures
        name matches Some(text) ==> staging_name(name, process).take(text.len() as int) == text,
        decimal_value(
            staging_name(name, process).skip(
                staging_name(name, process).len() - decimal(process as nat).len(),
            ),
        ) == process,
        staging_name(name, process) == staging_name(name, other) ==> process == other,
{
    let digits = decimal(process as nat);
    let full = staging_name(name, process);
    lemma_decimal_round_trip(process as nat);
    lemma_decimal_round_trip(other as nat);
    assert(full.skip(full.len() - digits.len()) =~= digits);
    if let Some(text) = name {
        assert(full.take(text.len() as int) =~= text);
    }
    if full == staging_name(name, other) {
        let front = match name {
            Some(text) => text,
            None => "model-store"@,
        } + ".staging."@;
        let more = decimal(other as nat);
        assert(full.skip(front.len() as int) =~= digits);
        assert(staging_name(name, other).skip(front.len() as int) =~= more);
    }
}

/// The name of a table file: a letter, at least six digits that give its number, and
/// an extension.
pub proof fn lemma_table_name_shape(number: nat)
    ensures
        ({
            let name = table_name(number);
            &&& name.len() >= 11
            &&& number < 1_000_000 ==> name.len() == 11
            &&& name[0] == 't'
            &&& decimal_value(name.subrange(1, name.len() - 4)) == number
            &&& name.skip(name.len() - 4) == seq!['.', 'b', 'i', 'n']
        }),
{
    let digits = pad_front(decimal(number), '0', 6);
    if number < 1_000_000 {
        reveal_with_fuel(pow10, 7);
        lemma_decimal_length(number, 6);
    }
    reveal_strlit("t");
    reveal_strlit(".bin");
    lemma_zero_padding(number, 6);
    assert(table_name(number).subrange(1, table_name(number).len() - 4) =~= digits);
    assert(table_name(number).skip(table_name(number).len() - 4) =~= seq!['.', 'b', 'i', 'n']);
}

/// A message tells what its fault holds: where it happened, what came of it and which
/// versions are at odds.
pub proof fn lemma_store_messages(
    path: Seq<char>,
    source: Seq<char>,
    found: u32,
    expected: u32,
    trie: TrieStorageError,
    dictionary: DictionaryFault,
)
    ensures
        ({
            let text = store_fault_text(StoreFault::Io { path, source });
            &&& reads_at(text, 25, path)
            &&& reads_at(text, text.len() - source.len(), source)
        }),
        ({
            let text = store_fault_text(StoreFault::MalformedManifest { path, source });
            &&& reads_at(text, 24, path)
            &&& reads_at(text, text.len() - source.len(), source)
        }),
        ({
            let text = store_fault_text(StoreFault::LayoutVersionMismatch { found, expected });
            &&& reads_at(text, 31, decimal(found as nat))
            &&& reads_at(
                text,
                text.len() - decimal(expected as nat).len(),
                decimal(expected as nat),
            )
        }),
        ({
            let text = store_fault_text(StoreFault::MalformedTable { path, source: trie });
            &&& reads_at(text, 9, path)
            &&& reads_at(text, text.len() - error_text(trie).len(), error_text(trie))
        }),
        reads_at(
            store_fault_text(StoreFault::MalformedDictionary(dictionary)),
            42,
            fault_text(dictionary),
        ),
        reads_at(store_fault_text(StoreFault::DictionaryRestore(source)), 43, source),
        reads_at(store_fault_text(StoreFault::AlreadyExists { path }), 31, path),
        reads_at(store_fault_text(StoreFault::MissingTableFile { file: path }), 41, path),
{
    reveal_strlit("model store I/O error at ");
    reveal_strlit("model store manifest at ");
    reveal_strlit("model store has layout version ");
    reveal_strlit("subtable ");
    reveal_strlit("dictionary snapshot could not be decoded: ");
    reveal_strlit("dictionary snapshot could not be replayed: ");
    reveal_strlit("cannot create a model store at ");
    reveal_strlit("manifest refers to missing subtable file ");
    let a = decimal(found as nat);
    let b = decimal(expected as nat);
    let c = error_text(trie);
    let d = fault_text(dictionary);
    let io = store_fault_text(StoreFault::Io { path, source });
    assert(io.subrange(25, 25 + path.len() as int) =~= path);
    assert(io.subrange(io.len() - source.len(), io.len() as int) =~= source);
    let manifest = store_fault_text(StoreFault::MalformedManifest { path, source });
    assert(manifest.subrange(24, 24 + path.len() as int) =~= path);
    assert(manifest.subrange(manifest.len() - source.len(), manifest.len() as int) =~= source);
    let version = store_fault_text(StoreFault::LayoutVersionMismatch { found, expected });
    assert(version.subrange(31, 31 + a.len() as int) =~= a);
    assert(version.subrange(version.len() - b.len(), version.len() as int) =~= b);
    let table = store_fault_text(StoreFault::MalformedTable { path, source: trie });
    assert(table.subrange(9, 9 + path.len() as int) =~= path);
    assert(table.subrange(table.len() - c.len(), table.len() as int) =~= c);
    let decoded = store_fault_text(StoreFault::MalformedDictionary(dictionary));
    assert(decoded.subrange(42, 42 + d.len() as int) =~= d);
    let replayed = store_fault_text(StoreFault::DictionaryRestore(source));
    assert(replayed.subrange(43, 43 + source.len() as int) =~= source);
    let present = store_fault_text(StoreFault::AlreadyExists { path });
    assert(present.subrange(31, 31 + path.len() as int) =~= path);
    let missing = store_fault_text(StoreFault::MissingTableFile { file: path });
    assert(missing.subrange(41, 41 + path.len() as int) =~= path);
}

/// Two errors that say the same are of one variant and hold the same.
pub proof fn lemma_store_errors_say_everything(left: ModelStoreError, right: ModelStoreError)
    requires
        left@ == right@,
    ensures
        match (left, right) {
            (
                ModelStoreError::Io { path: a, source: c },
                ModelStoreError::Io { path: b, source: d },
            ) => a@ == b@ && c@ == d@,
            (
                ModelStoreError::MalformedManifest { path: a, source: c },
                ModelStoreError::MalformedManifest { path: b, source: d },
            ) => a@ == b@ && c@ == d@,
            (
                ModelStoreError::LayoutVersionMismatch { found: a, expected: c },
                ModelStoreError::LayoutVersionMismatch { found: b, expected: d },
            ) => a == b && c == d,
            (
                ModelStoreError::MalformedTable { path: a, source: c },
                ModelStoreError::MalformedTable { path: b, source: d },
            ) => a@ == b@ && c == d,
            (
                ModelStoreError::MalformedDictionary(a),
                ModelStoreError::MalformedDictionary(b),
            ) => a@ == b@,
            (
                ModelStoreError::DictionaryRestore(a),
                ModelStoreError::DictionaryRestore(b),
            ) => a@ == b@,
            (
                ModelStoreError::AlreadyExists { path: a },
                ModelStoreError::AlreadyExists { path: b },
            ) => a@ == b@,
            (
                ModelStoreError::MissingTableFile { file: a },
                ModelStoreError::MissingTableFile { file: b },
            ) => a@ == b@,
            _ => false,
        },
{
}

proof fn lemma_entry_has_write(entry: PredicateView, writes: Seq<TableWrite>) -> (first: int)
    requires
        records_writes(entry, writes),
    ensures
        0 <= first < writes.len(),
        writes[first].predicate == entry.predicate,
{
    reveal(records_writes);
    choose|first: int|
        0 <= first < writes.len() && (#[trigger] writes[first]).predicate == entry.predicate
            && writes[first].arity == entry.arity && forall|i: int|
            0 <= i < first ==> (#[trigger] writes[i]).predicate != entry.predicate
}

/// Predicates are listed in the order in which they were first written.
pub proof fn lemma_predicates_in_order_of_first_write(
    writes: Seq<TableWrite>,
    p: int,
    q: int,
    k: int,
)
    requires
        0 <= p < q < after_writes(writes).len(),
        0 <= k < writes.len(),
        writes[k].predicate == after_writes(writes)[q].predicate,
    ensures
        exists|l: int|
            0 <= l < k && (#[trigger] writes[l]).predicate == after_writes(writes)[p].predicate,
    decreases writes.len(),
{
    let front = writes.drop_last();
    let last = writes.last();
    let end = writes.len() - 1;
    let old = after_writes(front);
    lemma_predicate_place_meaning(old, last.predicate);
    assert(after_writes(writes)[p].predicate == old[p].predicate);
    if k < end {
        assert(front[k] == writes[k]);
        lemma_recorded_writes(front);
        if q < old.len() {
            assert(after_writes(writes)[q].predicate == old[q].predicate);
            lemma_predicates_in_order_of_first_write(front, p, q, k);
            let l = choose|l: int|
                0 <= l < k && (#[trigger] front[l]).predicate == old[p].predicate;
            assert(writes[l] == front[l]);
        } else {
            let r = choose|r: int|
                0 <= r < old.len() && (#[trigger] old[r]).predicate == front[k].predicate;
            assert(false);
        }
    } else {
        lemma_recorded_writes(front);
        let l = lemma_entry_has_write(old[p], front);
        assert(writes[l] == front[l]);
    }
}

/// A table file whose name is a path from the root is read from there.
pub proof fn lemma_rooted_table_path(store: Seq<char>, file: Seq<char>)
    requires
        file.len() > 0,
        file[0] == '/',
    ensures
        table_path(store, file) == file,
{
}

/// A store without a name of its own is staged under a fixed one, and what follows the
/// name says that it is being staged.
pub proof fn lemma_staging_mark(name: Seq<char>, process: u32)
    ensures
        staging_name(None, process) == staging_name(Some("model-store"@), process),
        reads_at(staging_name(Some(name), process), name.len() as int, ".staging."@),
{
    let full = staging_name(Some(name), process);
    reveal_strlit(".staging.");
    assert(full.subrange(name.len() as int, name.len() as int + 9) =~= ".staging."@);
}

/// The lists of a store say what their parts say, in their order.
pub proof fn lemma_store_lists_say_their_parts(
    imports: Seq<ImportFingerprint>,
    subtables: Seq<SubtableEntry>,
    predicates: Seq<PredicateEntry>,
    place: int,
)
    ensures
        imports_view(imports).len() == imports.len(),
        0 <= place < imports.len() ==> imports_view(imports)[place].resource
            == imports[place].resource@,
        0 <= place < imports.len() ==> imports_view(imports)[place].bytes == imports[place].bytes,
        0 <= place < imports.len() ==> imports_view(imports)[place].modified_unix_nanos
            == imports[place].modified_unix_nanos,
        subtables_view(subtables).len() == subtables.len(),
        0 <= place < subtables.len() ==> subtables_view(subtables)[place].step
            == subtables[place].step,
        0 <= place < subtables.len() ==> subtables_view(subtables)[place].file
            == subtables[place].file@,
        predicates_view(predicates).len() == predicates.len(),
        0 <= place < predicates.len() ==> predicates_view(predicates)[place].predicate
            == predicates[place].predicate@,
        0 <= place < predicates.len() ==> predicates_view(predicates)[place].arity
            == predicates[place].arity,
        0 <= place < predicates.len() ==> predicates_view(predicates)[place].subtables
            == subtables_view(predicates[place].subtables@),
{
}

} // verus!
