//! The `/api/toggle` route, step by step.
//!
//! With a main window alive the route hands the toggle to the window and is
//! done. Without one nobody would receive it, so the route applies the toggle
//! itself. Both are step functions: they take the outcome of what was asked for
//! last and say what to do next. Whoever calls them does the loading, applying
//! and saving.

use vstd::prelude::*;

use crate::json::Json;
use crate::manifest::{Manifest, ManifestView};
use crate::selection::{is_on, selected, set_on_state_of_item};
use crate::terms::{carries, first_place, lit, switches, there, unnamed};
use crate::toggle_promises::{law_request_asks_for_the_other_state, law_toggle_is_handed_on};
use crate::tree::{find_node, first_with_id, flatten};
use crate::value::{forest, lemma_array_view, Value};

verus! {

// ---- errors -----------------------------------------------------------------

/// Why the system hosts file was not written, with the words for it.
#[derive(Debug)]
pub enum HostsApplyError {
    /// The user dismissed the authentication prompt.
    Cancelled(String),
    Failed(String),
}

/// Why a backend toggle failed. Kept distinct so the endpoint can say
/// which, instead of collapsing a user-cancelled prompt, a policy denial
/// and a full disk into one opaque string.
#[derive(Debug)]
pub enum ToggleError {
    WriteModeUnset,
    Apply(HostsApplyError),
    /// The write succeeded but the tree could not be persisted: the
    /// system file and the manifest now disagree.
    Persist(String),
    Storage(String),
}

pub enum HostsApplyErrorView {
    Cancelled(Seq<char>),
    Failed(Seq<char>),
}

impl View for HostsApplyError {
    type V = HostsApplyErrorView;

    open spec fn view(&self) -> HostsApplyErrorView {
        match self {
            HostsApplyError::Cancelled(s) => HostsApplyErrorView::Cancelled(s@),
            HostsApplyError::Failed(s) => HostsApplyErrorView::Failed(s@),
        }
    }
}

pub enum ToggleErrorView {
    WriteModeUnset,
    Apply(HostsApplyErrorView),
    Persist(Seq<char>),
    Storage(Seq<char>),
}

impl View for ToggleError {
    type V = ToggleErrorView;

    open spec fn view(&self) -> ToggleErrorView {
        match self {
            ToggleError::WriteModeUnset => ToggleErrorView::WriteModeUnset,
            ToggleError::Apply(e) => ToggleErrorView::Apply(e@),
            ToggleError::Persist(s) => ToggleErrorView::Persist(s@),
            ToggleError::Storage(s) => ToggleErrorView::Storage(s@),
        }
    }
}

impl ToggleErrorView {
    pub open spec fn body(self) -> Seq<char> {
        match self {
            ToggleErrorView::WriteModeUnset => "write mode not set."@,
            ToggleErrorView::Apply(HostsApplyErrorView::Cancelled(_)) => "cancelled."@,
            ToggleErrorView::Apply(HostsApplyErrorView::Failed(_)) => "apply failed."@,
            ToggleErrorView::Persist(_) => "applied but not persisted."@,
            ToggleErrorView::Storage(_) => "apply failed."@,
        }
    }

    pub open spec fn message(self) -> Seq<char> {
        match self {
            ToggleErrorView::WriteModeUnset => "write mode is not set"@,
            ToggleErrorView::Apply(HostsApplyErrorView::Cancelled(s)) => s,
            ToggleErrorView::Apply(HostsApplyErrorView::Failed(s)) => s,
            ToggleErrorView::Persist(s) => "applied but failed to persist the tree: "@ + s,
            ToggleErrorView::Storage(s) => s,
        }
    }
}

impl ToggleError {
    /// Response body. Terse and stable, like the `bad id.` / `not found.`
    /// replies.
    pub fn as_body(&self) -> (body: &'static str)
        ensures
            body@ == self@.body(),
    {
        match self {
            ToggleError::WriteModeUnset => "write mode not set.",
            ToggleError::Apply(HostsApplyError::Cancelled(_)) => "cancelled.",
            ToggleError::Apply(HostsApplyError::Failed(_)) => "apply failed.",
            ToggleError::Persist(_) => "applied but not persisted.",
            ToggleError::Storage(_) => "apply failed.",
        }
    }

    /// The error in words, for the log.
    pub fn message(&self) -> (text: String)
        ensures
            text@ == self@.message(),
    {
        match self {
            ToggleError::WriteModeUnset => "write mode is not set".to_owned(),
            ToggleError::Apply(HostsApplyError::Cancelled(s)) => s.clone(),
            ToggleError::Apply(HostsApplyError::Failed(s)) => s.clone(),
            ToggleError::Persist(s) => {
                let mut text = "applied but failed to persist the tree: ".to_owned();
                text.append(s.as_str());
                text
            },
            ToggleError::Storage(s) => s.clone(),
        }
    }

    /// A cancelled prompt is a deliberate user action, not a fault.
    pub fn is_cancelled(&self) -> (cancelled: bool)
        ensures
            cancelled == (self@ is Apply && self@->Apply_0 is Cancelled),
    {
        match self {
            ToggleError::Apply(HostsApplyError::Cancelled(_)) => true,
            _ => false,
        }
    }
}

/// The words of an outcome that has none where all went well.
pub open spec fn failure<T>(outcome: Result<T, String>) -> Option<Seq<char>> {
    match outcome {
        Ok(_) => None,
        Err(s) => Some(s@),
    }
}

/// An outcome of a backend toggle.
pub open spec fn toggle_failure(outcome: Result<(), ToggleError>) -> Option<ToggleErrorView> {
    match outcome {
        Ok(_) => None,
        Err(e) => Some(e@),
    }
}

// ---- events for the windows -------------------------------------------------

/// The payload that tells the main window to switch `id` to `on`.
pub open spec fn toggle_payload(id: Seq<char>, on: bool) -> Json {
    Json::Object(map!["_args"@ => Json::Array(seq![Json::String(id), Json::Bool(on)])])
}

/// The payload of an event without arguments.
pub open spec fn empty_payload() -> Json {
    Json::Object(map!["_args"@ => Json::Array(Seq::empty())])
}

fn args_payload(args: Vec<Value>) -> (payload: Value)
    ensures
        payload@ == Json::Object(map!["_args"@ => Json::Array(forest(args@))]),
{
    broadcast use lemma_array_view;

    let ghost items = Json::Array(forest(args@));
    let mut payload = Value::object();
    payload.insert("_args", Value::Array(args));
    assert(payload@->Object_0 =~= map!["_args"@ => items]);
    payload
}

fn toggle_item_payload(id: &str, on: bool) -> (payload: Value)
    ensures
        payload@ == toggle_payload(id@, on),
{
    let mut args: Vec<Value> = Vec::new();
    args.push(Value::String(id.to_owned()));
    args.push(Value::Bool(on));
    assert(forest(args@) =~= seq![Json::String(id@), Json::Bool(on)]);
    args_payload(args)
}

fn tray_list_payload() -> (payload: Value)
    ensures
        payload@ == empty_payload(),
{
    let args: Vec<Value> = Vec::new();
    assert(forest(args@) =~= Seq::empty());
    args_payload(args)
}

// ---- the backend toggle -----------------------------------------------------

/// What of the configuration a toggle depends on.
#[derive(Debug)]
pub struct ToggleConfig {
    pub choice_mode: u64,
    pub multi_chose_folder_switch_all: bool,
    pub remove_duplicate_records: bool,
    pub write_mode: String,
}

pub struct ToggleConfigView {
    pub choice_mode: u64,
    pub multi_chose_folder_switch_all: bool,
    pub remove_duplicate_records: bool,
    pub write_mode: Seq<char>,
}

impl View for ToggleConfig {
    type V = ToggleConfigView;

    open spec fn view(&self) -> ToggleConfigView {
        ToggleConfigView {
            choice_mode: self.choice_mode,
            multi_chose_folder_switch_all: self.multi_chose_folder_switch_all,
            remove_duplicate_records: self.remove_duplicate_records,
            write_mode: self.write_mode@,
        }
    }
}

/// What a backend toggle waits for.
#[derive(Debug)]
pub enum BackendState {
    /// The turn to apply: one backend toggle at a time.
    Locking { manifest: Manifest, id: String, on: bool },
    /// Word that the data directory can be used.
    CheckingDataDir { manifest: Manifest, id: String, on: bool },
    /// The configuration.
    ReadingConfig { manifest: Manifest, id: String, on: bool },
    /// The content of the selected nodes.
    Aggregating { id: String, on: bool, config: ToggleConfig },
    /// The outcome of writing the system hosts file.
    Applying { id: String, on: bool, config: ToggleConfig },
    /// The manifest as it is now.
    Reloading { id: String, on: bool, config: ToggleConfig },
    /// The outcome of saving the manifest.
    Saving,
    /// The tray title.
    Refreshing,
    /// The tray window.
    Announcing,
    Done,
}

/// What came of what a backend toggle asked for.
#[derive(Debug)]
pub enum BackendEvent {
    Locked,
    DataDir(Result<(), String>),
    Config(ToggleConfig),
    Aggregated(Result<String, String>),
    Applied(Result<(), HostsApplyError>),
    Loaded(Result<Manifest, String>),
    Saved(Result<(), String>),
    Refreshed,
    Announced,
}

/// What a backend toggle asks for.
#[derive(Debug)]
pub enum BackendAction {
    /// Wait until no other backend toggle is under way.
    Lock,
    /// Find out whether the data directory can be used.
    CheckDataDir,
    ReadConfig,
    /// Put together the content of the nodes that are on in this tree.
    Aggregate { root: Vec<Value>, remove_duplicate: bool },
    /// Write the system hosts file.
    Apply { content: String },
    /// Take hold of the store and load the manifest anew: while the system
    /// hosts file was written, others may have changed it.
    Reload,
    /// Save the manifest, and let go of the store.
    Save { manifest: Manifest },
    /// Write the tray title anew. A failure is of no consequence.
    RefreshTray,
    /// Send `tray_list_updated` with this payload. A failure is of no
    /// consequence.
    Announce { payload: Value },
    /// Nothing: the event was not what the toggle waits for.
    Wait,
    /// The toggle is over.
    Finish(Result<(), ToggleError>),
}

pub enum BackendStateView {
    Locking { root: Seq<Json>, id: Seq<char>, on: bool },
    CheckingDataDir { root: Seq<Json>, id: Seq<char>, on: bool },
    ReadingConfig { root: Seq<Json>, id: Seq<char>, on: bool },
    Aggregating { id: Seq<char>, on: bool, config: ToggleConfigView },
    Applying { id: Seq<char>, on: bool, config: ToggleConfigView },
    Reloading { id: Seq<char>, on: bool, config: ToggleConfigView },
    Saving,
    Refreshing,
    Announcing,
    Done,
}

pub enum BackendEventView {
    Locked,
    DataDir(Option<Seq<char>>),
    Config(ToggleConfigView),
    Aggregated(Result<Seq<char>, Seq<char>>),
    Applied(Option<HostsApplyErrorView>),
    Loaded(Result<ManifestView, Seq<char>>),
    Saved(Option<Seq<char>>),
    Refreshed,
    Announced,
}

pub enum BackendActionView {
    Lock,
    CheckDataDir,
    ReadConfig,
    Aggregate { root: Seq<Json>, remove_duplicate: bool },
    Apply { content: Seq<char> },
    Reload,
    Save { manifest: ManifestView },
    RefreshTray,
    Announce { payload: Json },
    Wait,
    Finish(Option<ToggleErrorView>),
}

impl View for BackendState {
    type V = BackendStateView;

    open spec fn view(&self) -> BackendStateView {
        match self {
            BackendState::Locking { manifest, id, on } => BackendStateView::Locking {
                root: manifest@.root,
                id: id@,
                on: *on,
            },
            BackendState::CheckingDataDir { manifest, id, on } => {
                BackendStateView::CheckingDataDir { root: manifest@.root, id: id@, on: *on }
            },
            BackendState::ReadingConfig { manifest, id, on } => BackendStateView::ReadingConfig {
                root: manifest@.root,
                id: id@,
                on: *on,
            },
            BackendState::Aggregating { id, on, config } => BackendStateView::Aggregating {
                id: id@,
                on: *on,
                config: config@,
            },
            BackendState::Applying { id, on, config } => BackendStateView::Applying {
                id: id@,
                on: *on,
                config: config@,
            },
            BackendState::Reloading { id, on, config } => BackendStateView::Reloading {
                id: id@,
                on: *on,
                config: config@,
            },
            BackendState::Saving => BackendStateView::Saving,
            BackendState::Refreshing => BackendStateView::Refreshing,
            BackendState::Announcing => BackendStateView::Announcing,
            BackendState::Done => BackendStateView::Done,
        }
    }
}

impl View for BackendEvent {
    type V = BackendEventView;

    open spec fn view(&self) -> BackendEventView {
        match self {
            BackendEvent::Locked => BackendEventView::Locked,
            BackendEvent::DataDir(outcome) => BackendEventView::DataDir(failure(*outcome)),
            BackendEvent::Config(config) => BackendEventView::Config(config@),
            BackendEvent::Aggregated(Ok(content)) => BackendEventView::Aggregated(Ok(content@)),
            BackendEvent::Aggregated(Err(s)) => BackendEventView::Aggregated(Err(s@)),
            BackendEvent::Applied(Ok(_)) => BackendEventView::Applied(None),
            BackendEvent::Applied(Err(e)) => BackendEventView::Applied(Some(e@)),
            BackendEvent::Loaded(Ok(manifest)) => BackendEventView::Loaded(Ok(manifest@)),
            BackendEvent::Loaded(Err(s)) => BackendEventView::Loaded(Err(s@)),
            BackendEvent::Saved(outcome) => BackendEventView::Saved(failure(*outcome)),
            BackendEvent::Refreshed => BackendEventView::Refreshed,
            BackendEvent::Announced => BackendEventView::Announced,
        }
    }
}

impl View for BackendAction {
    type V = BackendActionView;

    open spec fn view(&self) -> BackendActionView {
        match self {
            BackendAction::Lock => BackendActionView::Lock,
            BackendAction::CheckDataDir => BackendActionView::CheckDataDir,
            BackendAction::ReadConfig => BackendActionView::ReadConfig,
            BackendAction::Aggregate { root, remove_duplicate } => BackendActionView::Aggregate {
                root: forest(root@),
                remove_duplicate: *remove_duplicate,
            },
            BackendAction::Apply { content } => BackendActionView::Apply { content: content@ },
            BackendAction::Reload => BackendActionView::Reload,
            BackendAction::Save { manifest } => BackendActionView::Save { manifest: manifest@ },
            BackendAction::RefreshTray => BackendActionView::RefreshTray,
            BackendAction::Announce { payload } => BackendActionView::Announce {
                payload: payload@,
            },
            BackendAction::Wait => BackendActionView::Wait,
            BackendAction::Finish(outcome) => BackendActionView::Finish(toggle_failure(*outcome)),
        }
    }
}

/// Whether an event is of the kind that a state waits for.
pub open spec fn backend_expects(state: BackendStateView, event: BackendEventView) -> bool {
    match state {
        BackendStateView::Locking { .. } => event is Locked,
        BackendStateView::CheckingDataDir { .. } => event is DataDir,
        BackendStateView::ReadingConfig { .. } => event is Config,
        BackendStateView::Aggregating { .. } => event is Aggregated,
        BackendStateView::Applying { .. } => event is Applied,
        BackendStateView::Reloading { .. } => event is Loaded,
        BackendStateView::Saving => event is Saved,
        BackendStateView::Refreshing => event is Refreshed,
        BackendStateView::Announcing => event is Announced,
        BackendStateView::Done => false,
    }
}

/// The tree after `id` has been switched to `on` as the configuration says.
pub open spec fn toggled(
    root: Seq<Json>,
    id: Seq<char>,
    on: bool,
    config: ToggleConfigView,
) -> Seq<Json> {
    selected(root, id, on, config.choice_mode, config.multi_chose_folder_switch_all)
}

pub open spec fn backend_finished(error: Option<ToggleErrorView>) -> (
    BackendStateView,
    BackendActionView,
) {
    (BackendStateView::Done, BackendActionView::Finish(error))
}

/// The next state of a backend toggle, and what it asks for. An event that the
/// state does not wait for changes nothing.
pub open spec fn backend_advance(state: BackendStateView, event: BackendEventView) -> (
    BackendStateView,
    BackendActionView,
) {
    match (state, event) {
        (BackendStateView::Locking { root, id, on }, BackendEventView::Locked) => (
            BackendStateView::CheckingDataDir { root, id, on },
            BackendActionView::CheckDataDir,
        ),
        (
            BackendStateView::CheckingDataDir { root, id, on },
            BackendEventView::DataDir(failed),
        ) => match failed {
            None => (
                BackendStateView::ReadingConfig { root, id, on },
                BackendActionView::ReadConfig,
            ),
            Some(s) => backend_finished(Some(ToggleErrorView::Storage(s))),
        },
        (
            BackendStateView::ReadingConfig { root, id, on },
            BackendEventView::Config(config),
        ) => if config.write_mode.len() == 0 {
            backend_finished(Some(ToggleErrorView::WriteModeUnset))
        } else {
            (
                BackendStateView::Aggregating { id, on, config },
                BackendActionView::Aggregate {
                    root: toggled(root, id, on, config),
                    remove_duplicate: config.remove_duplicate_records,
                },
            )
        },
        (
            BackendStateView::Aggregating { id, on, config },
            BackendEventView::Aggregated(outcome),
        ) => match outcome {
            Ok(content) => (
                BackendStateView::Applying { id, on, config },
                BackendActionView::Apply { content },
            ),
            Err(s) => backend_finished(Some(ToggleErrorView::Storage(s))),
        },
        (
            BackendStateView::Applying { id, on, config },
            BackendEventView::Applied(failed),
        ) => match failed {
            None => (
                BackendStateView::Reloading { id, on, config },
                BackendActionView::Reload,
            ),
            Some(error) => backend_finished(Some(ToggleErrorView::Apply(error))),
        },
        (
            BackendStateView::Reloading { id, on, config },
            BackendEventView::Loaded(outcome),
        ) => match outcome {
            Ok(fresh) => (
                BackendStateView::Saving,
                BackendActionView::Save {
                    manifest: ManifestView { root: toggled(fresh.root, id, on, config), ..fresh },
                },
            ),
            Err(s) => backend_finished(Some(ToggleErrorView::Persist(s))),
        },
        (BackendStateView::Saving, BackendEventView::Saved(failed)) => match failed {
            None => (BackendStateView::Refreshing, BackendActionView::RefreshTray),
            Some(s) => backend_finished(Some(ToggleErrorView::Persist(s))),
        },
        (BackendStateView::Refreshing, BackendEventView::Refreshed) => (
            BackendStateView::Announcing,
            BackendActionView::Announce { payload: empty_payload() },
        ),
        (BackendStateView::Announcing, BackendEventView::Announced) => backend_finished(None),
        _ => (state, BackendActionView::Wait),
    }
}

/// Applies a toggle without a window: flip the node, write the system hosts
/// file as a window would, then persist the tree. This is how it begins; it
/// goes on with [`apply_toggle_step`].
pub fn apply_toggle_in_backend(manifest: Manifest, id: String, on: bool) -> (begun: (
    BackendState,
    BackendAction,
))
    ensures
        begun.0@ == (BackendStateView::Locking { root: manifest@.root, id: id@, on }),
        begun.1@ is Lock,
        begun == (BackendState::Locking { manifest, id, on }, BackendAction::Lock),
{
    (BackendState::Locking { manifest, id, on }, BackendAction::Lock)
}

fn fail(error: ToggleError) -> (finished: (BackendState, BackendAction))
    ensures
        (finished.0@, finished.1@) == backend_finished(Some(error@)),
{
    (BackendState::Done, BackendAction::Finish(Err(error)))
}

/// The next step of a backend toggle, given what came of the last one.
///
/// An empty write mode is refused: the default would overwrite what the user
/// wrote into the system hosts file by hand. The tree that is saved is the one
/// that was loaded after the system hosts file had been written, with the same
/// flip applied to it, so that what others changed meanwhile is kept.
pub fn apply_toggle_step(state: BackendState, event: BackendEvent) -> (next: (
    BackendState,
    BackendAction,
))
    ensures
        (next.0@, next.1@) == backend_advance(state@, event@),
        match (state, event) {
            (BackendState::ReadingConfig { manifest, id, on }, BackendEvent::Config(config)) => {
                &&& config.write_mode@.len() == 0 ==> next.1 == BackendAction::Finish(
                    Err(ToggleError::WriteModeUnset),
                )
                &&& config.write_mode@.len() > 0 ==> {
                    &&& next.1 is Aggregate
                    &&& next.1->remove_duplicate == config.remove_duplicate_records
                    &&& switches(
                        forest(manifest.root@),
                        id@,
                        on,
                        config.choice_mode,
                        config.multi_chose_folder_switch_all,
                        forest(next.1->root@),
                    )
                }
            },
            (BackendState::Aggregating { .. }, BackendEvent::Aggregated(Ok(content))) => next.1
                == (BackendAction::Apply { content }),
            (BackendState::Reloading { id, on, config }, BackendEvent::Loaded(Ok(fresh))) => {
                &&& next.1 is Save
                &&& next.1->manifest.format == fresh.format
                &&& next.1->manifest.schema_version == fresh.schema_version
                &&& switches(
                    forest(fresh.root@),
                    id@,
                    on,
                    config.choice_mode,
                    config.multi_chose_folder_switch_all,
                    forest(next.1->manifest.root@),
                )
            },
            _ => true,
        },
{
    match (state, event) {
        (BackendState::Locking { manifest, id, on }, BackendEvent::Locked) => (
            BackendState::CheckingDataDir { manifest, id, on },
            BackendAction::CheckDataDir,
        ),
        (BackendState::CheckingDataDir { manifest, id, on }, BackendEvent::DataDir(outcome)) => {
            match outcome {
                Ok(_) => (
                    BackendState::ReadingConfig { manifest, id, on },
                    BackendAction::ReadConfig,
                ),
                Err(s) => fail(ToggleError::Storage(s)),
            }
        },
        (BackendState::ReadingConfig { manifest, id, on }, BackendEvent::Config(config)) => {
            if config.write_mode.as_str().is_empty() {
                return fail(ToggleError::WriteModeUnset);
            }
            let mut proposed = manifest;
            set_on_state_of_item(
                &mut proposed.root,
                id.as_str(),
                on,
                config.choice_mode,
                config.multi_chose_folder_switch_all,
            );
            let remove_duplicate: bool = config.remove_duplicate_records;
            (
                BackendState::Aggregating { id, on, config },
                BackendAction::Aggregate { root: proposed.root, remove_duplicate },
            )
        },
        (BackendState::Aggregating { id, on, config }, BackendEvent::Aggregated(outcome)) => {
            match outcome {
                Ok(content) => (
                    BackendState::Applying { id, on, config },
                    BackendAction::Apply { content },
                ),
                Err(s) => fail(ToggleError::Storage(s)),
            }
        },
        (BackendState::Applying { id, on, config }, BackendEvent::Applied(outcome)) => {
            match outcome {
                Ok(_) => (BackendState::Reloading { id, on, config }, BackendAction::Reload),
                Err(e) => fail(ToggleError::Apply(e)),
            }
        },
        (BackendState::Reloading { id, on, config }, BackendEvent::Loaded(outcome)) => {
            match outcome {
                Ok(loaded) => {
                    let mut fresh = loaded;
                    set_on_state_of_item(
                        &mut fresh.root,
                        id.as_str(),
                        on,
                        config.choice_mode,
                        config.multi_chose_folder_switch_all,
                    );
                    (BackendState::Saving, BackendAction::Save { manifest: fresh })
                },
                Err(s) => fail(ToggleError::Persist(s)),
            }
        },
        (BackendState::Saving, BackendEvent::Saved(outcome)) => {
            match outcome {
                Ok(_) => (BackendState::Refreshing, BackendAction::RefreshTray),
                Err(s) => fail(ToggleError::Persist(s)),
            }
        },
        (BackendState::Refreshing, BackendEvent::Refreshed) => (
            BackendState::Announcing,
            BackendAction::Announce { payload: tray_list_payload() },
        ),
        (BackendState::Announcing, BackendEvent::Announced) => (
            BackendState::Done,
            BackendAction::Finish(Ok(())),
        ),
        (state, _) => (state, BackendAction::Wait),
    }
}

// ---- the route --------------------------------------------------------------

/// What a toggle request waits for.
#[derive(Debug)]
pub enum RouteState {
    /// The manifest.
    Loading { id: String },
    /// Word whether there is a main window.
    Choosing { manifest: Manifest, id: String, on: bool },
    /// The event for the main window to be sent.
    Emitting,
    /// The outcome of the backend toggle.
    Applying,
    Done,
}

/// What came of what a toggle request asked for.
#[derive(Debug)]
pub enum RouteEvent {
    Loaded(Result<Manifest, String>),
    MainWindow(bool),
    Emitted,
    Applied(Result<(), ToggleError>),
}

/// What a toggle request asks for.
#[derive(Debug)]
pub enum RouteAction {
    Load,
    /// Find out whether there is a main window.
    LookForMainWindow,
    /// Send `toggle_item` with this payload. A failure is of no consequence.
    Emit { payload: Value },
    /// Run [`apply_toggle_in_backend`] to its end.
    Apply { manifest: Manifest, id: String, on: bool },
    /// Nothing: the event was not what the request waits for.
    Wait,
    /// The request is answered. `error` says what the backend toggle met with.
    Reply { body: &'static str, error: Option<ToggleError> },
}

pub enum RouteStateView {
    Loading { id: Seq<char> },
    Choosing { manifest: ManifestView, id: Seq<char>, on: bool },
    Emitting,
    Applying,
    Done,
}

pub enum RouteEventView {
    Loaded(Result<ManifestView, Seq<char>>),
    MainWindow(bool),
    Emitted,
    Applied(Option<ToggleErrorView>),
}

pub enum RouteActionView {
    Load,
    LookForMainWindow,
    Emit { payload: Json },
    Apply { manifest: ManifestView, id: Seq<char>, on: bool },
    Wait,
    Reply { body: Seq<char>, error: Option<ToggleErrorView> },
}

impl View for RouteState {
    type V = RouteStateView;

    open spec fn view(&self) -> RouteStateView {
        match self {
            RouteState::Loading { id } => RouteStateView::Loading { id: id@ },
            RouteState::Choosing { manifest, id, on } => RouteStateView::Choosing {
                manifest: manifest@,
                id: id@,
                on: *on,
            },
            RouteState::Emitting => RouteStateView::Emitting,
            RouteState::Applying => RouteStateView::Applying,
            RouteState::Done => RouteStateView::Done,
        }
    }
}

impl View for RouteEvent {
    type V = RouteEventView;

    open spec fn view(&self) -> RouteEventView {
        match self {
            RouteEvent::Loaded(Ok(manifest)) => RouteEventView::Loaded(Ok(manifest@)),
            RouteEvent::Loaded(Err(s)) => RouteEventView::Loaded(Err(s@)),
            RouteEvent::MainWindow(alive) => RouteEventView::MainWindow(*alive),
            RouteEvent::Emitted => RouteEventView::Emitted,
            RouteEvent::Applied(outcome) => RouteEventView::Applied(toggle_failure(*outcome)),
        }
    }
}

impl View for RouteAction {
    type V = RouteActionView;

    open spec fn view(&self) -> RouteActionView {
        match self {
            RouteAction::Load => RouteActionView::Load,
            RouteAction::LookForMainWindow => RouteActionView::LookForMainWindow,
            RouteAction::Emit { payload } => RouteActionView::Emit { payload: payload@ },
            RouteAction::Apply { manifest, id, on } => RouteActionView::Apply {
                manifest: manifest@,
                id: id@,
                on: *on,
            },
            RouteAction::Wait => RouteActionView::Wait,
            RouteAction::Reply { body, error } => RouteActionView::Reply {
                body: body@,
                error: match error {
                    Some(e) => Some(e@),
                    None => None,
                },
            },
        }
    }
}

/// A request that is answered.
pub open spec fn replied(body: Seq<char>, error: Option<ToggleErrorView>) -> (
    RouteStateView,
    RouteActionView,
) {
    (RouteStateView::Done, RouteActionView::Reply { body, error })
}

/// How a toggle request begins. An id that is missing or empty is refused.
pub open spec fn route_begins(id: Option<Seq<char>>) -> (RouteStateView, RouteActionView) {
    if id is Some && id->0.len() > 0 {
        (RouteStateView::Loading { id: id->0 }, RouteActionView::Load)
    } else {
        replied("bad id."@, None)
    }
}

/// Whether an event is of the kind that a state waits for.
pub open spec fn route_expects(state: RouteStateView, event: RouteEventView) -> bool {
    match state {
        RouteStateView::Loading { .. } => event is Loaded,
        RouteStateView::Choosing { .. } => event is MainWindow,
        RouteStateView::Emitting => event is Emitted,
        RouteStateView::Applying => event is Applied,
        RouteStateView::Done => false,
    }
}

/// The next state of a toggle request, and what it asks for. An event that the
/// state does not wait for changes nothing.
pub open spec fn route_advance(state: RouteStateView, event: RouteEventView) -> (
    RouteStateView,
    RouteActionView,
) {
    match (state, event) {
        (RouteStateView::Loading { id }, RouteEventView::Loaded(outcome)) => match outcome {
            Ok(manifest) => match first_with_id(flatten(manifest.root), id) {
                Some(node) => (
                    RouteStateView::Choosing { manifest, id, on: !node.is_on() },
                    RouteActionView::LookForMainWindow,
                ),
                None => replied("not found."@, None),
            },
            Err(_) => replied("not found."@, None),
        },
        (
            RouteStateView::Choosing { manifest, id, on },
            RouteEventView::MainWindow(alive),
        ) => if alive {
            (RouteStateView::Emitting, RouteActionView::Emit { payload: toggle_payload(id, on) })
        } else {
            (RouteStateView::Applying, RouteActionView::Apply { manifest, id, on })
        },
        (RouteStateView::Emitting, RouteEventView::Emitted) => replied("ok"@, None),
        (RouteStateView::Applying, RouteEventView::Applied(failed)) => match failed {
            None => replied("ok"@, None),
            Some(error) => replied(error.body(), Some(error)),
        },
        _ => (state, RouteActionView::Wait),
    }
}

fn reply(body: &'static str) -> (replied_with: (RouteState, RouteAction))
    ensures
        (replied_with.0@, replied_with.1@) == replied(body@, None),
{
    (RouteState::Done, RouteAction::Reply { body, error: None })
}

/// Takes a toggle request in. It goes on with [`api_toggle_step`].
pub fn api_toggle(id: Option<String>) -> (begun: (RouteState, RouteAction))
    ensures
        (begun.0@, begun.1@) == route_begins(
            match id {
                Some(id) => Some(id@),
                None => None,
            },
        ),
        match id {
            Some(id) if id@.len() > 0 => begun == (RouteState::Loading { id }, RouteAction::Load),
            _ => begun.1 is Reply && begun.1->body@ == "bad id."@,
        },
{
    match id {
        Some(id) => {
            if id.as_str().is_empty() {
                return reply("bad id.");
            }
            (RouteState::Loading { id }, RouteAction::Load)
        },
        None => reply("bad id."),
    }
}

/// The next step of a toggle request, given what came of the last one.
pub fn api_toggle_step(state: RouteState, event: RouteEvent) -> (next: (RouteState, RouteAction))
    ensures
        (next.0@, next.1@) == route_advance(state@, event@),
        match (state, event) {
            (RouteState::Loading { id }, RouteEvent::Loaded(Ok(manifest))) => {
                &&& unnamed(forest(manifest.root@), id@) ==> next.1 is Reply && next.1->body@
                    == "not found."@
                &&& forall|place: Seq<int>| #[trigger]
                    first_place(forest(manifest.root@), place, id@) ==> {
                        &&& next.1 is LookForMainWindow
                        &&& next.0 == (RouteState::Choosing {
                            manifest,
                            id,
                            on: !lit(there(forest(manifest.root@), place)->0),
                        })
                    }
            },
            (RouteState::Choosing { manifest, id, on }, RouteEvent::MainWindow(alive)) => {
                &&& alive ==> next.1 is Emit && carries(
                    next.1->payload@,
                    seq![Json::String(id@), Json::Bool(on)],
                )
                &&& !alive ==> next.1 == (RouteAction::Apply { manifest, id, on })
            },
            (RouteState::Applying, RouteEvent::Applied(Err(error))) => next.1 is Reply
                && next.1->error == Some(error),
            _ => true,
        },
{
    match (state, event) {
        (RouteState::Loading { id }, RouteEvent::Loaded(outcome)) => {
            match outcome {
                Ok(manifest) => {
                    proof {
                        law_request_asks_for_the_other_state(manifest@, id@, Seq::empty());
                    }
                    match find_node(manifest.root.as_slice(), id.as_str()) {
                        Some(node) => {
                            let on: bool = !is_on(&node);
                            (
                                RouteState::Choosing { manifest, id, on },
                                RouteAction::LookForMainWindow,
                            )
                        },
                        None => reply("not found."),
                    }
                },
                Err(_) => reply("not found."),
            }
        },
        (RouteState::Choosing { manifest, id, on }, RouteEvent::MainWindow(alive)) => {
            proof {
                law_toggle_is_handed_on(manifest@, id@, on);
            }
            if alive {
                let payload = toggle_item_payload(id.as_str(), on);
                (RouteState::Emitting, RouteAction::Emit { payload })
            } else {
                (RouteState::Applying, RouteAction::Apply { manifest, id, on })
            }
        },
        (RouteState::Emitting, RouteEvent::Emitted) => reply("ok"),
        (RouteState::Applying, RouteEvent::Applied(outcome)) => {
            match outcome {
                Ok(_) => reply("ok"),
                Err(error) => {
                    let body = error.as_body();
                    (RouteState::Done, RouteAction::Reply { body, error: Some(error) })
                },
            }
        },
        (state, _) => (state, RouteAction::Wait),
    }
}

} // verus!
