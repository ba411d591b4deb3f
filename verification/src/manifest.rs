//! The manifest: the document that holds the tree of nodes.
//!
//! On disk the tree has a shape of its own, and which folders are collapsed is
//! kept in a state file beside it. What is here decides what a manifest file
//! stands for once it has been read, and what has to be written, in which
//! order, to save one.

use vstd::prelude::*;

use crate::json::Json;
use crate::terms::member;
use crate::value::{copy_values, forest, Number, Value};

verus! {

pub const MANIFEST_FORMAT: &'static str = "switchhosts-data";

pub const MANIFEST_SCHEMA_VERSION: u32 = 1;

/// A manifest, its tree in the shape that the tree operations work on.
#[derive(Debug)]
pub struct Manifest {
    pub format: String,
    pub schema_version: u32,
    pub root: Vec<Value>,
}

pub struct ManifestView {
    pub format: Seq<char>,
    pub schema_version: u32,
    pub root: Seq<Json>,
}

impl View for Manifest {
    type V = ManifestView;

    open spec fn view(&self) -> ManifestView {
        ManifestView {
            format: self.format@,
            schema_version: self.schema_version,
            root: forest(self.root@),
        }
    }
}

impl ManifestView {
    /// The manifest of a user who has none yet.
    pub open spec fn empty() -> ManifestView {
        ManifestView {
            format: MANIFEST_FORMAT@,
            schema_version: MANIFEST_SCHEMA_VERSION,
            root: Seq::empty(),
        }
    }
}

/// The format of a manifest that does not name one.
pub fn default_format() -> (format: String)
    ensures
        format@ == MANIFEST_FORMAT@,
{
    MANIFEST_FORMAT.to_owned()
}

/// The schema version of a manifest that does not name one.
pub fn default_schema_version() -> (version: u32)
    ensures
        version == MANIFEST_SCHEMA_VERSION,
{
    MANIFEST_SCHEMA_VERSION
}

impl Default for Manifest {
    fn default() -> (manifest: Self)
        ensures
            manifest@ == ManifestView::empty(),
    {
        let root: Vec<Value> = Vec::new();
        assert(forest(root@) =~= Seq::empty());
        Manifest { format: default_format(), schema_version: default_schema_version(), root }
    }
}

impl Clone for Manifest {
    fn clone(&self) -> (copy: Self)
        ensures
            copy@ == self@,
    {
        Manifest {
            format: self.format.clone(),
            schema_version: self.schema_version,
            root: copy_values(&self.root),
        }
    }
}

/// Why the store could not be read or written: the file, and what was wrong.
#[derive(Debug)]
pub enum StorageError {
    Io { path: String, cause: String },
    Parse { path: String, cause: String },
    Serialize { path: String, cause: String },
}

impl StorageError {
    pub fn io(path: String, cause: String) -> (error: StorageError)
        ensures
            error == (StorageError::Io { path, cause }),
    {
        StorageError::Io { path, cause }
    }

    pub fn parse(path: String, cause: String) -> (error: StorageError)
        ensures
            error == (StorageError::Parse { path, cause }),
    {
        StorageError::Parse { path, cause }
    }

    pub fn serialize(path: String, cause: String) -> (error: StorageError)
        ensures
            error == (StorageError::Serialize { path, cause }),
    {
        StorageError::Serialize { path, cause }
    }
}

/// What came of reading the manifest file.
#[derive(Debug)]
pub enum ManifestFile {
    /// There is no such file.
    Missing,
    /// The file is there and cannot be read, for this reason.
    Unreadable(String),
    /// The file was read and is no manifest, for this reason.
    Unparsable(String),
    /// The file's own content, and its tree brought into the shape that the
    /// tree operations work on, with the collapsed folders marked.
    Parsed { raw: Manifest, root: Vec<Value> },
}

/// The collapsed folders, as the state file lists them.
#[derive(Debug)]
pub struct TreeState {
    pub collapsed_node_ids: Vec<String>,
}

/// The state file: what it says of the tree, and its other members.
#[derive(Debug)]
pub struct StateFile {
    pub tree: TreeState,
    pub rest: Vec<(String, Value)>,
}

/// One file to write.
#[derive(Debug)]
pub enum SaveWrite {
    State(StateFile),
    Manifest(Value),
}

/// What is to be done once the outcome of the last write is known: an error
/// ends the saving with that error, and otherwise the first of the writes that
/// are left is next. Where none is left, the manifest is saved.
pub open spec fn save_advance(
    outcome: Result<(), StorageError>,
    left: Seq<SaveWrite>,
) -> Result<(Option<SaveWrite>, Seq<SaveWrite>), StorageError> {
    match outcome {
        Err(error) => Err(error),
        Ok(_) => if left.len() == 0 {
            Ok((None, left))
        } else {
            Ok((Some(left[0]), left.drop_first()))
        },
    }
}

/// The content of a manifest file with this tree. It always carries the current
/// format and schema version.
pub open spec fn envelope(root: Seq<Json>) -> Json {
    Json::Object(
        map![
            "format"@ => Json::String(MANIFEST_FORMAT@),
            "schemaVersion"@ => Json::Number(Number::PosInt(MANIFEST_SCHEMA_VERSION as u64)),
            "root"@ => Json::Array(root),
        ],
    )
}

/// Builds the content of a manifest file with this tree.
fn envelope_of(root: Vec<Value>) -> (content: Value)
    ensures
        content@ == envelope(forest(root@)),
{
    broadcast use crate::value::lemma_array_view;

    let ghost items = forest(root@);
    let mut content = Value::object();
    content.insert("format", Value::String(default_format()));
    let version: u64 = MANIFEST_SCHEMA_VERSION as u64;
    content.insert("schemaVersion", Value::Number(Number::PosInt(version)));
    content.insert("root", Value::Array(root));
    assert(content@->Object_0 =~= envelope(items)->Object_0);
    content
}

impl Manifest {
    /// The manifest that a file stands for.
    ///
    /// - Missing file: the empty manifest.
    /// - Unreadable file: `StorageError::Io`.
    /// - Unparsable file: `StorageError::Parse`.
    /// - Otherwise the format and the schema version are the file's own, and
    ///   the tree is the file's tree in the shape of the tree operations.
    pub fn load(path: String, file: ManifestFile) -> (loaded: Result<Manifest, StorageError>)
        ensures
            match file {
                ManifestFile::Missing => loaded is Ok && loaded->Ok_0@ == ManifestView::empty(),
                ManifestFile::Unreadable(cause) => loaded == Err::<Manifest, StorageError>(
                    StorageError::Io { path, cause },
                ),
                ManifestFile::Unparsable(cause) => loaded == Err::<Manifest, StorageError>(
                    StorageError::Parse { path, cause },
                ),
                ManifestFile::Parsed { raw, root } => loaded is Ok && loaded->Ok_0@ == (
                ManifestView { root: forest(root@), ..raw@ }),
            },
    {
        match file {
            ManifestFile::Missing => Ok(Manifest::default()),
            ManifestFile::Unreadable(cause) => Err(StorageError::io(path, cause)),
            ManifestFile::Unparsable(cause) => Err(StorageError::parse(path, cause)),
            ManifestFile::Parsed { raw, root } => Ok(
                Manifest { format: raw.format, schema_version: raw.schema_version, root },
            ),
        }
    }

    /// The files to write to save a manifest, first to last: the state file
    /// with the collapsed folders, everything else in it kept as it was, and
    /// then the manifest file. The manifest comes last, so that a crash between
    /// the two leaves a collapse state that is slightly stale and never a tree
    /// that is out of date.
    ///
    /// `root` is the tree in the shape that it has on disk, `collapsed_ids` the
    /// collapsed folders in it, and `state` the state file as it is. The writes
    /// are made one by one, as [`save_step`] says.
    pub fn save(root: Vec<Value>, collapsed_ids: Vec<String>, state: StateFile) -> (writes: Vec<
        SaveWrite,
    >)
        ensures
            writes@.len() == 2,
            writes@[0] == SaveWrite::State(
                StateFile {
                    tree: TreeState { collapsed_node_ids: collapsed_ids },
                    rest: state.rest,
                },
            ),
            writes@[1] is Manifest,
            writes@[1]->Manifest_0@ == envelope(forest(root@)),
    {
        let mut state = state;
        state.tree.collapsed_node_ids = collapsed_ids;
        let mut writes: Vec<SaveWrite> = Vec::new();
        writes.push(SaveWrite::State(state));
        writes.push(SaveWrite::Manifest(envelope_of(root)));
        writes
    }
}

/// The next step of saving a manifest. `outcome` is what came of the last
/// write, and that all is well before the first one; `left` are the writes that
/// have not been asked for. A write that fails ends the saving: its error is
/// the answer, and no other write is asked for.
pub fn save_step(outcome: Result<(), StorageError>, left: Vec<SaveWrite>) -> (next: Result<
    (Option<SaveWrite>, Vec<SaveWrite>),
    StorageError,
>)
    ensures
        match (next, save_advance(outcome, left@)) {
            (Ok((write, rest)), Ok((expected, expected_rest))) => {
                &&& write == expected
                &&& rest@ == expected_rest
            },
            (Err(error), Err(expected)) => error == expected,
            _ => false,
        },
        match (outcome, next) {
            (Err(error), Err(answer)) => answer == error,
            (Ok(_), Ok((Some(write), rest))) => left@ == seq![write] + rest@,
            (Ok(_), Ok((None, rest))) => left@.len() == 0 && rest@.len() == 0,
            _ => false,
        },
{
    match outcome {
        Err(error) => Err(error),
        Ok(_) => {
            let mut left = left;
            if left.len() == 0 {
                return Ok((None, left));
            }
            let ghost before = left@;
            let write = left.remove(0);
            assert(left@ =~= before.drop_first());
            assert(before =~= seq![write] + left@);
            Ok((Some(write), left))
        },
    }
}

/// A saving from its first step on: the writes that are asked for while the
/// outcomes come in, and the answer once there is one.
pub open spec fn save_run(
    outcome: Result<(), StorageError>,
    left: Seq<SaveWrite>,
    outcomes: Seq<Result<(), StorageError>>,
) -> (Seq<SaveWrite>, Option<Result<(), StorageError>>)
    decreases outcomes.len(),
{
    match save_advance(outcome, left) {
        Err(error) => (Seq::empty(), Some(Err(error))),
        Ok((None, _)) => (Seq::empty(), Some(Ok(()))),
        Ok((Some(write), rest)) => if outcomes.len() == 0 {
            (seq![write], None)
        } else {
            let (more, answer) = save_run(outcomes[0], rest, outcomes.drop_first());
            (seq![write] + more, answer)
        },
    }
}

/// What becomes of saving a state file and a manifest file. Where the state
/// file cannot be written, its error is the answer and the manifest file is not
/// touched. Where the manifest file cannot be written, its error is the answer,
/// and the state file has been written before. Otherwise both have been
/// written, the state file first.
pub proof fn law_first_failure_ends_the_saving(
    state: SaveWrite,
    manifest: SaveWrite,
    state_outcome: Result<(), StorageError>,
    manifest_outcome: Result<(), StorageError>,
)
    ensures
        ({
            let (asked, answer) = save_run(
                Ok(()),
                seq![state, manifest],
                seq![state_outcome, manifest_outcome],
            );
            match (state_outcome, manifest_outcome) {
                (Err(error), _) => asked =~= seq![state] && answer == Some(
                    Err::<(), StorageError>(error),
                ),
                (Ok(_), Err(error)) => asked =~= seq![state, manifest] && answer == Some(
                    Err::<(), StorageError>(error),
                ),
                (Ok(_), Ok(_)) => asked =~= seq![state, manifest] && answer == Some(
                    Ok::<(), StorageError>(()),
                ),
            }
        }),
{
    let left = seq![state, manifest];
    let outcomes = seq![state_outcome, manifest_outcome];
    reveal_with_fuel(save_run, 3);
    assert(left.drop_first() =~= seq![manifest]);
    assert(left.drop_first().drop_first() =~= Seq::empty());
    assert(outcomes.drop_first() =~= seq![manifest_outcome]);
    assert(outcomes.drop_first().drop_first() =~= Seq::empty());
}

/// Whatever format and schema version a manifest was loaded with, what is
/// saved names the current ones, which are those of a manifest that names
/// none, and holds the tree that was to be saved.
pub proof fn law_saved_under_current_format(root: Seq<Json>)
    ensures
        envelope(root).text("format"@) == Some(ManifestView::empty().format),
        envelope(root).get("schemaVersion"@) == Some(
            Json::Number(Number::PosInt(ManifestView::empty().schema_version as u64)),
        ),
        envelope(root).get("root"@) == Some(Json::Array(root)),
{
    reveal_strlit("format");
    reveal_strlit("schemaVersion");
    reveal_strlit("root");
    assert("format"@.len() == 6);
    assert("schemaVersion"@.len() == 13);
    assert("root"@.len() == 4);
}

/// A saved file has no members but these three.
pub proof fn law_saved_file_has_three_members(root: Seq<Json>, key: Seq<char>)
    ensures
        envelope(root) is Object,
        member(envelope(root), key) is Some <==> key == "format"@ || key == "schemaVersion"@
            || key == "root"@,
{
    reveal_strlit("format");
    reveal_strlit("schemaVersion");
    reveal_strlit("root");
}

/// A manifest stands for its own fields.
pub proof fn law_manifest_is_its_fields(manifest: Manifest)
    ensures
        manifest@.format == manifest.format@,
        manifest@.schema_version == manifest.schema_version,
        manifest@.root.len() == manifest.root@.len(),
        forall|i: int|
            0 <= i < manifest.root@.len() ==> #[trigger] manifest@.root[i] == manifest.root@[i]@,
{
}

/// A manifest is what a file with this content holds, member by member.
pub open spec fn reads_as(content: Json, raw: ManifestView) -> bool {
    &&& content.text("format"@) == Some(raw.format)
    &&& content.get("schemaVersion"@) == Some(
        Json::Number(Number::PosInt(raw.schema_version as u64)),
    )
    &&& content.get("root"@) == Some(Json::Array(raw.root))
}

/// What is read back of a saved file is the tree that was saved, under the
/// current format and schema version, and nothing else.
pub proof fn law_saved_tree_reads_back(root: Seq<Json>, raw: ManifestView)
    ensures
        reads_as(envelope(root), raw) <==> raw == (ManifestView { root, ..ManifestView::empty() }),
{
    law_saved_under_current_format(root);
    assert(MANIFEST_SCHEMA_VERSION as u64 == 1u64);
}

} // verus!
