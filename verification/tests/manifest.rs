use switchhosts::manifest::{
    default_format, default_schema_version, save_step, Manifest, ManifestFile, SaveWrite,
    StateFile, StorageError, TreeState, MANIFEST_FORMAT, MANIFEST_SCHEMA_VERSION,
};
use switchhosts::value::{Number, Value};

fn text(s: &str) -> Value {
    Value::String(s.to_string())
}

fn path() -> String {
    "/data/tree.json".to_string()
}

#[test]
fn the_defaults_are_the_current_ones() {
    assert_eq!(MANIFEST_FORMAT, "switchhosts-data");
    assert_eq!(MANIFEST_SCHEMA_VERSION, 1);
    assert_eq!(default_format(), "switchhosts-data");
    assert_eq!(default_schema_version(), 1);
    let manifest = Manifest::default();
    assert_eq!(manifest.format, "switchhosts-data");
    assert_eq!(manifest.schema_version, 1);
    assert!(manifest.root.is_empty());
}

#[test]
fn a_missing_file_is_an_empty_manifest() {
    let manifest = Manifest::load(path(), ManifestFile::Missing).unwrap();
    assert_eq!(manifest.format, MANIFEST_FORMAT);
    assert_eq!(manifest.schema_version, MANIFEST_SCHEMA_VERSION);
    assert!(manifest.root.is_empty());
}

#[test]
fn an_unreadable_file_is_an_io_error() {
    let loaded = Manifest::load(path(), ManifestFile::Unreadable("denied".to_string()));
    match loaded {
        Err(StorageError::Io { path, cause }) => {
            assert_eq!(path, "/data/tree.json");
            assert_eq!(cause, "denied");
        }
        other => panic!("unexpected: {other:?}"),
    }
}

#[test]
fn an_unparsable_file_is_a_parse_error() {
    let loaded = Manifest::load(path(), ManifestFile::Unparsable("line 1".to_string()));
    match loaded {
        Err(StorageError::Parse { path, cause }) => {
            assert_eq!(path, "/data/tree.json");
            assert_eq!(cause, "line 1");
        }
        other => panic!("unexpected: {other:?}"),
    }
}

#[test]
fn a_parsed_file_keeps_its_format_and_takes_the_tree_in_the_other_shape() {
    let raw = Manifest {
        format: "other".to_string(),
        schema_version: 7,
        root: vec![text("on disk")],
    };
    let file = ManifestFile::Parsed {
        raw,
        root: vec![text("in memory"), Value::Null],
    };
    let manifest = Manifest::load(path(), file).unwrap();
    assert_eq!(manifest.format, "other");
    assert_eq!(manifest.schema_version, 7);
    assert_eq!(manifest.root.len(), 2);
    assert_eq!(manifest.root[0].as_str(), Some("in memory"));
}

#[test]
fn saving_writes_the_state_and_then_the_manifest() {
    let state = StateFile {
        tree: TreeState {
            collapsed_node_ids: vec!["old".to_string()],
        },
        rest: vec![("window".to_string(), Value::Bool(true))],
    };
    let writes = Manifest::save(
        vec![text("node")],
        vec!["f1".to_string(), "f2".to_string()],
        state,
    );
    assert_eq!(writes.len(), 2);
    match &writes[0] {
        SaveWrite::State(state) => {
            assert_eq!(state.tree.collapsed_node_ids, vec!["f1", "f2"]);
            assert_eq!(state.rest.len(), 1);
            assert_eq!(state.rest[0].0, "window");
            assert_eq!(state.rest[0].1.as_bool(), Some(true));
        }
        SaveWrite::Manifest(_) => panic!("the state file comes first"),
    }
    match &writes[1] {
        SaveWrite::Manifest(content) => {
            let format = content.get("format").and_then(Value::as_str);
            assert_eq!(format, Some("switchhosts-data"));
            let version = content.get("schemaVersion");
            assert!(matches!(version, Some(Value::Number(Number::PosInt(1)))));
            let root = content.get("root").and_then(Value::as_array).unwrap();
            assert_eq!(root.len(), 1);
            assert_eq!(root[0].as_str(), Some("node"));
        }
        SaveWrite::State(_) => panic!("the manifest comes last"),
    }
}

#[test]
fn a_copy_of_a_manifest_is_the_same_manifest() {
    let manifest = Manifest {
        format: "x".to_string(),
        schema_version: 3,
        root: vec![text("n")],
    };
    assert_eq!(format!("{:?}", manifest.clone()), format!("{:?}", manifest));
}

#[test]
fn a_file_that_cannot_be_written_out_is_a_serialize_error() {
    match StorageError::serialize(path(), "too deep".to_string()) {
        StorageError::Serialize { path, cause } => {
            assert_eq!(path, "/data/tree.json");
            assert_eq!(cause, "too deep");
        }
        other => panic!("unexpected: {other:?}"),
    }
}

fn two_writes() -> Vec<SaveWrite> {
    let state = StateFile {
        tree: TreeState {
            collapsed_node_ids: vec![],
        },
        rest: vec![],
    };
    Manifest::save(vec![], vec!["f".to_string()], state)
}

#[test]
fn saving_asks_for_one_write_after_the_other() {
    let (write, left) = save_step(Ok(()), two_writes()).unwrap();
    assert!(matches!(write, Some(SaveWrite::State(_))));
    assert_eq!(left.len(), 1);
    let (write, left) = save_step(Ok(()), left).unwrap();
    assert!(matches!(write, Some(SaveWrite::Manifest(_))));
    assert!(left.is_empty());
    let (write, left) = save_step(Ok(()), left).unwrap();
    assert!(write.is_none());
    assert!(left.is_empty());
}

#[test]
fn a_state_file_that_cannot_be_written_ends_the_saving() {
    let (_, left) = save_step(Ok(()), two_writes()).unwrap();
    let failed = StorageError::io("/data/state".to_string(), "full".to_string());
    match save_step(Err(failed), left) {
        Err(StorageError::Io { path, cause }) => {
            assert_eq!(path, "/data/state");
            assert_eq!(cause, "full");
        }
        other => panic!("unexpected: {other:?}"),
    }
}

#[test]
fn a_manifest_that_cannot_be_written_is_the_answer_of_saving() {
    let (_, left) = save_step(Ok(()), two_writes()).unwrap();
    let (_, left) = save_step(Ok(()), left).unwrap();
    let failed = StorageError::serialize(path(), "too deep".to_string());
    assert!(matches!(
        save_step(Err(failed), left),
        Err(StorageError::Serialize { .. })
    ));
}
