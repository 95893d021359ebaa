//! Writing model stores and reading them back, with the file system in memory.

use std::collections::BTreeMap;

use nemo_store::{
    columnar::{ColumnEnum, StorageValueT},
    datavalues::AnyDataValue,
    dictionary::{meta_dv_dict::MetaDvDictionary, storage::DictionarySnapshot},
    model_store::{
        CacheKey, FileMetadata, ImportFingerprint, IoFailure, ManifestRead, ModelManifest,
        ModelStore, ModelStoreError, ModelStoreWriter, Preparation, PublishStep, TableRead,
        STORE_LAYOUT_VERSION,
    },
    parameters::Parameters,
    tabular::trie::{storage::TrieStorageError, IntervalColumn, IntervalColumnT, Trie},
};

/// A directory with files, and possibly a manifest.
#[derive(Default)]
struct Directory {
    files: BTreeMap<String, Vec<u8>>,
    manifest: Option<ModelManifest>,
}

/// A file system.
#[derive(Default)]
struct Disk {
    directories: BTreeMap<String, Directory>,
}

impl Disk {
    fn has(&self, path: &str) -> bool {
        self.directories.contains_key(path)
    }

    fn create(&mut self, path: &str) -> Result<ModelStoreWriter, ModelStoreError> {
        let writer =
            ModelStoreWriter::create(path.to_string(), Some(path), self.has(path), 4711)?;
        for preparation in writer.preparations(self.has(writer.staging())) {
            match preparation {
                Preparation::RemoveStaging => {
                    self.directories.remove(writer.staging());
                }
                Preparation::CreateTables => {
                    self.directories
                        .insert(writer.staging().to_string(), Directory::default());
                }
            }
        }
        Ok(writer)
    }

    fn write(
        &mut self,
        writer: &mut ModelStoreWriter,
        predicate: &str,
        arity: usize,
        step: usize,
        bytes: &[u8],
    ) -> Result<(), ModelStoreError> {
        let table = writer.write_table_bytes(predicate, arity, step, bytes.to_vec());
        self.directories
            .get_mut(writer.staging())
            .expect("staging directory")
            .files
            .insert(format!("tables/{}", table.file), table.bytes.clone());
        writer.commit_table(table, Ok(()))
    }

    fn write_dictionary(&mut self, writer: &ModelStoreWriter, dictionary: &DictionarySnapshot) {
        let (file, bytes) = writer.write_dictionary(dictionary);
        self.directories
            .get_mut(writer.staging())
            .expect("staging directory")
            .files
            .insert(file, bytes);
    }

    fn finish(
        &mut self,
        writer: ModelStoreWriter,
        key: CacheKey,
        rule_history: Vec<usize>,
    ) -> Result<(), ModelStoreError> {
        let mut publication = writer.finish(key, rule_history);
        while publication.step() != PublishStep::Done {
            match publication.step() {
                PublishStep::WriteManifest => {
                    self.directories
                        .get_mut(publication.staging())
                        .expect("staging directory")
                        .manifest = Some(publication.manifest().clone());
                }
                PublishStep::MoveIntoPlace => {
                    let directory = self
                        .directories
                        .remove(publication.staging())
                        .expect("staging directory");
                    self.directories
                        .insert(publication.target().to_string(), directory);
                }
                PublishStep::Done => unreachable!(),
            }
            publication.proceed(Ok(()))?;
        }
        Ok(())
    }

    fn open(&self, path: &str) -> Result<ModelStore, ModelStoreError> {
        let read = match self
            .directories
            .get(path)
            .and_then(|directory| directory.manifest.as_ref())
        {
            Some(manifest) => ManifestRead::Parsed(manifest.clone()),
            None => ManifestRead::Unreadable(failure("store/manifest")),
        };
        ModelStore::open(path.to_string(), read)
    }

    fn read_table(&self, store: &ModelStore, predicate: &str, step: usize) -> TableRead {
        match store.table_file(predicate, step).and_then(|file| {
            self.directories[store.path()]
                .files
                .get(&format!("tables/{file}"))
        }) {
            Some(bytes) => TableRead::Contents(bytes.clone()),
            None => TableRead::Missing,
        }
    }

    fn load_table_bytes(
        &self,
        store: &ModelStore,
        predicate: &str,
        step: usize,
    ) -> Result<Option<Vec<u8>>, ModelStoreError> {
        store.load_table_bytes(predicate, step, self.read_table(store, predicate, step))
    }
}

fn failure(path: &str) -> IoFailure {
    IoFailure {
        path: path.to_string(),
        source: "no such file".to_string(),
    }
}

fn key(program: &str) -> CacheKey {
    CacheKey::new(program.to_string(), Parameters::new(), Vec::new())
}

/// A snapshot with one IRI in it, plus the id it was given.
fn dictionary_with_one_iri() -> (DictionarySnapshot, usize) {
    let mut dictionary = MetaDvDictionary::new();
    let id = dictionary
        .add_datavalue(AnyDataValue::new_iri("http://example.org/a".to_string()))
        .value();

    (DictionarySnapshot::capture(&dictionary, vec![id]), id)
}

#[test]
fn round_trip_manifest_and_contents() {
    let mut temp = Disk::default();
    let path = "store";
    let (dictionary, id) = dictionary_with_one_iri();

    let mut writer = temp.create(path).expect("create");
    temp.write(&mut writer, "mapping", 3, 1, b"first subtable")
        .expect("write");
    temp.write(&mut writer, "mapping", 3, 4, b"second subtable")
        .expect("write");
    temp.write(&mut writer, "inferredMapping", 3, 7, b"other predicate")
        .expect("write");
    temp.write_dictionary(&writer, &dictionary);
    temp.finish(
        writer,
        key("mapping(?a) :- b(?a) ."),
        vec![usize::MAX, 0, 1, 0, 2],
    )
    .expect("finish");

    let store = temp.open(path).expect("open");

    assert_eq!(store.manifest().layout_version, STORE_LAYOUT_VERSION);
    assert_eq!(store.manifest().rule_history, vec![usize::MAX, 0, 1, 0, 2]);
    assert_eq!(store.steps_for("mapping"), vec![1, 4]);
    assert_eq!(store.steps_for("inferredMapping"), vec![7]);
    assert_eq!(store.steps_for("absent"), Vec::<usize>::new());
    assert_eq!(store.predicate("mapping").expect("recorded").arity, 3);

    assert_eq!(
        temp.load_table_bytes(&store, "mapping", 4).expect("load"),
        Some(b"second subtable".to_vec())
    );
    assert_eq!(
        temp.load_table_bytes(&store, "mapping", 2).expect("load"),
        None
    );
    assert_eq!(
        temp.load_table_bytes(&store, "absent", 1).expect("load"),
        None
    );

    assert_eq!(
        store
            .dictionary(Ok(temp.directories[path].files["dictionary.bin"].clone()))
            .expect("dictionary")
            .id_to_datavalue(id)
            .expect("captured"),
        AnyDataValue::new_iri("http://example.org/a".to_string())
    );
}

#[test]
fn subtables_are_ordered_by_step_regardless_of_write_order() {
    // Provenance lookups scan a predicate's subtables, so the manifest is
    // normalized rather than trusting the caller's order.
    let mut temp = Disk::default();
    let path = "store";

    let mut writer = temp.create(path).expect("create");
    for step in [9, 2, 5, 1] {
        temp.write(&mut writer, "p", 1, step, b"x").expect("write");
    }
    temp.finish(writer, key("p"), Vec::new()).expect("finish");

    let store = temp.open(path).expect("open");
    assert_eq!(store.steps_for("p"), vec![1, 2, 5, 9]);
    assert_eq!(store.table_file("p", 9), Some("t000000.bin"));
    assert_eq!(store.table_file("p", 1), Some("t000003.bin"));
}

#[test]
fn a_store_is_published_only_by_finish() {
    let mut temp = Disk::default();
    let path = "store";

    let mut writer = temp.create(path).expect("create");
    temp.write(&mut writer, "p", 1, 1, b"x").expect("write");

    // An interrupted write must not leave something that opens successfully:
    // the rename is the only publishing step.
    assert!(!temp.has(path), "target must not exist before finish");
    assert!(temp.open(path).is_err());

    temp.finish(writer, key("p"), Vec::new()).expect("finish");
    assert!(temp.has(path));
    assert!(temp.open(path).is_ok());
}

#[test]
fn abandoning_removes_the_staging_directory() {
    let mut temp = Disk::default();
    let path = "store";

    let mut writer = temp.create(path).expect("create");
    temp.write(&mut writer, "p", 1, 1, b"x").expect("write");
    let staging = writer.abandon();
    assert_eq!(staging, "store.staging.4711");
    temp.directories.remove(&staging).expect("abandon");

    assert!(!temp.has(path));
    assert!(
        temp.directories.is_empty(),
        "staging directory should be gone"
    );
}

#[test]
fn refuses_to_overwrite_an_existing_store() {
    let mut temp = Disk::default();
    let path = "store";

    let writer = temp.create(path).expect("create");
    temp.finish(writer, key("p"), Vec::new()).expect("finish");

    assert!(matches!(
        temp.create(path),
        Err(ModelStoreError::AlreadyExists { .. })
    ));
}

#[test]
fn applicability_is_decided_by_the_whole_key() {
    let mut temp = Disk::default();
    let path = "store";

    let mut parameters = Parameters::new();
    parameters.insert("importfile".to_string(), "\"data.nt\"".to_string());
    let original = CacheKey::new(
        "p(?a) :- q(?a) .".to_string(),
        parameters.clone(),
        vec![ImportFingerprint {
            resource: "data.nt".to_string(),
            bytes: Some(1024),
            modified_unix_nanos: Some(42),
        }],
    );

    let writer = temp.create(path).expect("create");
    temp.finish(writer, original.clone(), Vec::new())
        .expect("finish");

    let store = temp.open(path).expect("open");
    assert!(store.is_applicable(&original));

    // A different program.
    let mut other = original.clone();
    other.program = "p(?a) :- r(?a) .".to_string();
    assert!(!store.is_applicable(&other));

    // A different parameter binding, which changes which file is imported
    // even though the program text is identical.
    let mut other = original.clone();
    other
        .parameters
        .insert("importfile".to_string(), "\"elsewhere.nt\"".to_string());
    assert!(!store.is_applicable(&other));

    // The same import, changed underneath us.
    let mut other = original.clone();
    other.imports[0].bytes = Some(2048);
    assert!(!store.is_applicable(&other));

    // A format version bump must invalidate too, or old bytes get read by a
    // build that no longer understands them.
    let mut other = original.clone();
    other.trie_format_version += 1;
    assert!(!store.is_applicable(&other));
}

#[test]
fn rejects_a_different_layout_version() {
    let mut temp = Disk::default();
    let path = "store";

    let writer = temp.create(path).expect("create");
    temp.finish(writer, key("p"), Vec::new()).expect("finish");

    let mut manifest = temp.open(path).expect("open").manifest().clone();
    manifest.layout_version = STORE_LAYOUT_VERSION + 1;
    let error = ModelStore::open(path.to_string(), ManifestRead::Parsed(manifest))
        .expect_err("the layout version differs");
    assert!(matches!(
        error,
        ModelStoreError::LayoutVersionMismatch { .. }
    ));
    assert_eq!(
        error.message(),
        "model store has layout version 2, this build reads 1"
    );
}

#[test]
fn rejects_a_missing_or_malformed_manifest() {
    let temp = Disk::default();
    let path = "store";

    assert!(matches!(temp.open(path), Err(ModelStoreError::Io { .. })));

    let error = ModelStore::open(
        path.to_string(),
        ManifestRead::Malformed(IoFailure {
            path: "store/manifest".to_string(),
            source: "expected value".to_string(),
        }),
    )
    .expect_err("the manifest is malformed");
    assert!(matches!(error, ModelStoreError::MalformedManifest { .. }));
    assert_eq!(
        error.message(),
        "model store manifest at store/manifest is malformed: expected value"
    );
}

#[test]
fn reports_a_table_file_the_manifest_promised() {
    let mut temp = Disk::default();
    let path = "store";

    let mut writer = temp.create(path).expect("create");
    temp.write(&mut writer, "p", 1, 1, b"x").expect("write");
    temp.finish(writer, key("p"), Vec::new()).expect("finish");

    temp.directories
        .get_mut(path)
        .expect("store")
        .files
        .remove("tables/t000000.bin")
        .expect("remove");

    let store = temp.open(path).expect("open");
    assert!(matches!(
        temp.load_table_bytes(&store, "p", 1),
        Err(ModelStoreError::MissingTableFile { file }) if file == "t000000.bin"
    ));
    assert!(matches!(
        store.load_table_bytes("p", 1, TableRead::Unreadable(failure("t000000.bin"))),
        Err(ModelStoreError::Io { .. })
    ));
}

#[test]
fn predicate_names_needing_escaping_are_stored_safely() {
    // Table files are numbered precisely so predicate names never reach the
    // filesystem. A name with separators and reserved characters must round
    // trip regardless.
    let mut temp = Disk::default();
    let path = "store";
    let awkward = "../../etc/passwd:<http://example.org/p>";

    let mut writer = temp.create(path).expect("create");
    temp.write(&mut writer, awkward, 2, 3, b"payload")
        .expect("write");
    temp.finish(writer, key("p"), Vec::new()).expect("finish");

    let store = temp.open(path).expect("open");
    assert_eq!(store.steps_for(awkward), vec![3]);
    assert_eq!(
        temp.load_table_bytes(&store, awkward, 3).expect("load"),
        Some(b"payload".to_vec())
    );
}

#[test]
fn manifest_serialization_is_stable() {
    // Two stores built from equal inputs must have identical manifests, or the
    // store cannot be content-addressed.
    let mut temp = Disk::default();

    let mut parameters = Parameters::new();
    parameters.insert("b".to_string(), "2".to_string());
    parameters.insert("a".to_string(), "1".to_string());

    let mut manifests = Vec::new();
    for name in ["first", "second"] {
        let mut writer = temp.create(name).expect("create");
        temp.write(&mut writer, "p", 1, 1, b"x").expect("write");
        temp.finish(
            writer,
            CacheKey::new(
                "p(?a) :- q(?a) .".to_string(),
                parameters.clone(),
                Vec::new(),
            ),
            vec![usize::MAX, 0],
        )
        .expect("finish");

        manifests.push(temp.open(name).expect("read").manifest().clone());
    }

    assert_eq!(manifests[0], manifests[1]);
}

#[test]
fn equal_bindings_are_kept_in_one_order() {
    let mut first = Parameters::new();
    first.insert("b".to_string(), "2".to_string());
    first.insert("a".to_string(), "1".to_string());
    let mut second = Parameters::new();
    second.insert("a".to_string(), "0".to_string());
    second.insert("b".to_string(), "2".to_string());
    assert!(!first.same(&second));
    second.insert("a".to_string(), "1".to_string());
    assert!(first.same(&second));
    assert_eq!(first.bindings(), second.bindings());
    assert_eq!(first.bindings()[0].0, "a");
}

#[test]
fn a_table_that_could_not_be_written_is_not_recorded() {
    let mut temp = Disk::default();
    let mut writer = temp.create("store").expect("create");
    let table = writer.write_table_bytes("p", 1, 1, b"x".to_vec());
    assert_eq!(table.file, "t000000.bin");
    let error = writer
        .commit_table(table, Err(failure("tables/t000000.bin")))
        .expect_err("the write failed");
    assert_eq!(
        error.message(),
        "model store I/O error at tables/t000000.bin: no such file"
    );
    let table = writer.write_table_bytes("p", 1, 1, b"x".to_vec());
    assert_eq!(table.file, "t000000.bin");
}

#[test]
fn a_failed_publication_stays_where_it_is() {
    let mut temp = Disk::default();
    let writer = temp.create("store").expect("create");
    let mut publication = writer.finish(key("p"), Vec::new());
    assert!(publication.proceed(Err(failure("store/manifest"))).is_err());
    assert_eq!(publication.step(), PublishStep::WriteManifest);
    publication.proceed(Ok(())).expect("manifest written");
    assert!(publication.proceed(Err(failure("store"))).is_err());
    assert_eq!(publication.step(), PublishStep::MoveIntoPlace);
    publication.proceed(Ok(())).expect("renamed");
    assert_eq!(publication.step(), PublishStep::Done);
}

#[test]
fn leftover_staging_directories_are_removed_first() {
    let writer =
        ModelStoreWriter::create("/".to_string(), None, false, 9).expect("nothing is there");
    assert_eq!(writer.staging(), "model-store.staging.9");
    assert_eq!(
        writer.preparations(true),
        vec![Preparation::RemoveStaging, Preparation::CreateTables]
    );
    assert_eq!(writer.preparations(false), vec![Preparation::CreateTables]);
}

fn empty_column<T: nemo_store::columnar::RunLengthEncodable>(data: Vec<T>) -> IntervalColumn<T> {
    let none = || ColumnEnum::ColumnVector(Vec::new());
    IntervalColumn {
        data: ColumnEnum::ColumnVector(data),
        interval_starts: none(),
        lookups: [none(), none(), none(), none(), none()],
    }
}

#[test]
fn tables_are_stored_and_loaded() {
    let mut temp = Disk::default();
    let mut writer = temp.create("store").expect("create");
    let trie = Trie::new(
        vec![IntervalColumnT {
            id32: empty_column(vec![3, 8]),
            id64: empty_column(Vec::new()),
            int64: empty_column(vec![-1]),
            float: empty_column(Vec::new()),
            double: empty_column(Vec::new()),
        }],
        false,
    );
    let table = writer.write_table("p", 1, 5, &trie);
    let bytes = table.bytes.clone();
    assert_eq!(bytes, trie.encode());
    writer.commit_table(table, Ok(())).expect("write");
    temp.finish(writer, key("p"), Vec::new()).expect("finish");

    let store = temp.open("store").expect("open");
    let loaded = store
        .load_table("p", 5, TableRead::Contents(bytes))
        .expect("load")
        .expect("there is a table");
    assert_eq!(
        loaded.rows(),
        vec![
            vec![StorageValueT::Id32(3)],
            vec![StorageValueT::Id32(8)],
            vec![StorageValueT::Int64(-1)],
        ]
    );
    match store.load_table("p", 5, TableRead::Contents(b"not a trie".to_vec())) {
        Err(error) => {
            assert!(matches!(
                error,
                ModelStoreError::MalformedTable {
                    source: TrieStorageError::NotATrie,
                    ..
                }
            ));
            assert_eq!(
                error.message(),
                "subtable store/tables/t000000.bin could not be decoded: input is not an encoded trie"
            );
        }
        Ok(_) => panic!("this is no trie"),
    }
    assert_eq!(
        store.table_path("p", 5).as_deref(),
        Some("store/tables/t000000.bin")
    );
    assert_eq!(store.table_path("p", 6), None);
    assert!(matches!(
        store.load_table("p", 6, TableRead::Missing),
        Ok(None)
    ));
}

#[test]
fn malformed_dictionaries_are_reported() {
    let mut temp = Disk::default();
    let writer = temp.create("store").expect("create");
    temp.finish(writer, key("p"), Vec::new()).expect("finish");
    let store = temp.open("store").expect("open");
    let error = store
        .dictionary(Ok(b"not a dictionary".to_vec()))
        .expect_err("this is no dictionary");
    assert_eq!(
        error.message(),
        "dictionary snapshot could not be decoded: input is not an encoded dictionary snapshot"
    );
    assert!(matches!(
        store.dictionary(Err(failure("dictionary.bin"))),
        Err(ModelStoreError::Io { .. })
    ));
    assert_eq!(
        ModelStoreError::DictionaryRestore("ids differ".to_string()).message(),
        "dictionary snapshot could not be replayed: ids differ"
    );
    assert_eq!(
        ModelStoreError::AlreadyExists {
            path: "store".to_string()
        }
        .message(),
        "cannot create a model store at store: it already exists"
    );
    assert_eq!(
        ModelStoreError::MissingTableFile {
            file: "t000001.bin".to_string()
        }
        .message(),
        "manifest refers to missing subtable file t000001.bin"
    );
}

#[test]
fn fingerprints_record_what_is_known_of_a_file() {
    let fingerprint = ImportFingerprint::of_file(
        "data.nt".to_string(),
        Some(FileMetadata {
            length: 1024,
            modified: Some((3, 500)),
        }),
    );
    assert_eq!(fingerprint.bytes, Some(1024));
    assert_eq!(fingerprint.modified_unix_nanos, Some(3_000_000_500));
    let unknown = ImportFingerprint::of_file("data.nt".to_string(), None);
    assert_eq!(
        unknown,
        ImportFingerprint {
            resource: "data.nt".to_string(),
            bytes: None,
            modified_unix_nanos: None
        }
    );
    assert!(!fingerprint.same(&unknown));
    assert!(unknown.same(&unknown.clone()));
}

#[test]
fn table_paths_are_joined_as_paths() {
    let mut temp = Disk::default();
    let mut writer = temp.create("store").expect("create");
    temp.write(&mut writer, "p", 1, 1, b"x").expect("write");
    temp.finish(writer, key("p"), Vec::new()).expect("finish");
    let manifest = temp.open("store").expect("open").manifest().clone();

    for (path, file, expected) in [
        ("store", "t000000.bin", "store/tables/t000000.bin"),
        ("", "t000000.bin", "tables/t000000.bin"),
        ("store/", "t000000.bin", "store/tables/t000000.bin"),
        ("/", "t000000.bin", "/tables/t000000.bin"),
        ("store", "", "store/tables/"),
        ("store", "/elsewhere", "/elsewhere"),
    ] {
        let mut manifest = manifest.clone();
        manifest.predicates[0].subtables[0].file = file.to_string();
        let store = ModelStore::open(path.to_string(), ManifestRead::Parsed(manifest))
            .expect("the layout version is the same");
        assert_eq!(store.table_path("p", 1).as_deref(), Some(expected));
        assert_eq!(
            std::path::Path::new(path).join("tables").join(file),
            std::path::Path::new(expected)
        );
        assert!(matches!(
            store.load_table("p", 1, TableRead::Contents(Vec::new())),
            Err(ModelStoreError::MalformedTable { path, .. }) if path == expected
        ));
    }
}

#[test]
fn keys_and_manifests_are_compared_by_what_they_say() {
    let first = key("p");
    assert_eq!(first, first.clone());
    assert_ne!(first, key("q"));
    let mut other = first.clone();
    other.parameters.insert("a".to_string(), "1".to_string());
    assert_ne!(first, other);
}
