use switchhosts::manifest::Manifest;
use switchhosts::selection::is_on;
use switchhosts::toggle::{
    api_toggle, api_toggle_step, apply_toggle_in_backend, apply_toggle_step, BackendAction,
    BackendEvent, BackendState, HostsApplyError, RouteAction, RouteEvent, RouteState, ToggleConfig,
    ToggleError,
};
use switchhosts::tree::find_node;
use switchhosts::value::Value;

fn text(s: &str) -> Value {
    Value::String(s.to_string())
}

fn leaf(id: &str, on: bool) -> Value {
    let mut v = Value::object();
    v.insert("id", text(id));
    v.insert("type", text("local"));
    v.insert("on", Value::Bool(on));
    v
}

fn manifest(root: Vec<Value>) -> Manifest {
    Manifest {
        root,
        ..Manifest::default()
    }
}

fn config(write_mode: &str) -> ToggleConfig {
    ToggleConfig {
        choice_mode: 2,
        multi_chose_folder_switch_all: false,
        remove_duplicate_records: true,
        write_mode: write_mode.to_string(),
    }
}

fn shown_state(state: &BackendState) -> String {
    format!("{:?}", state)
}

/// The body of the answer, and the words of the error that came with it.
fn answer(action: RouteAction) -> (&'static str, Option<String>) {
    match action {
        RouteAction::Reply { body, error } => (body, error.map(|e| e.message())),
        other => panic!("no answer: {other:?}"),
    }
}

// ---- the route --------------------------------------------------------------

#[test]
fn a_missing_or_empty_id_is_bad() {
    let (state, action) = api_toggle(None);
    assert!(matches!(state, RouteState::Done));
    assert_eq!(answer(action), ("bad id.", None));

    let (state, action) = api_toggle(Some(String::new()));
    assert!(matches!(state, RouteState::Done));
    assert_eq!(answer(action), ("bad id.", None));
}

#[test]
fn a_manifest_that_cannot_be_loaded_has_no_nodes() {
    let (state, action) = api_toggle(Some("a".to_string()));
    assert!(matches!(action, RouteAction::Load));
    let (state, action) = api_toggle_step(state, RouteEvent::Loaded(Err("broken".to_string())));
    assert!(matches!(state, RouteState::Done));
    assert_eq!(answer(action), ("not found.", None));
}

#[test]
fn an_unknown_node_is_not_found() {
    let (state, _) = api_toggle(Some("nope".to_string()));
    let (state, action) =
        api_toggle_step(state, RouteEvent::Loaded(Ok(manifest(vec![leaf("a", true)]))));
    assert!(matches!(state, RouteState::Done));
    assert_eq!(answer(action), ("not found.", None));
}

#[test]
fn with_a_main_window_the_flip_is_sent_to_it() {
    for on in [true, false] {
        let (state, _) = api_toggle(Some("a".to_string()));
        let loaded = RouteEvent::Loaded(Ok(manifest(vec![leaf("a", on)])));
        let (state, action) = api_toggle_step(state, loaded);
        assert!(matches!(action, RouteAction::LookForMainWindow));
        let (state, action) = api_toggle_step(state, RouteEvent::MainWindow(true));
        match action {
            RouteAction::Emit { payload } => {
                let args = payload.get("_args").and_then(Value::as_array).unwrap();
                assert_eq!(args.len(), 2);
                assert_eq!(args[0].as_str(), Some("a"));
                assert_eq!(args[1].as_bool(), Some(!on));
            }
            other => panic!("unexpected: {other:?}"),
        }
        let (state, action) = api_toggle_step(state, RouteEvent::Emitted);
        assert!(matches!(state, RouteState::Done));
        assert_eq!(answer(action), ("ok", None));
    }
}

fn applying(on: bool) -> RouteState {
    let (state, _) = api_toggle(Some("a".to_string()));
    let loaded = RouteEvent::Loaded(Ok(manifest(vec![leaf("a", on)])));
    let (state, _) = api_toggle_step(state, loaded);
    let (state, action) = api_toggle_step(state, RouteEvent::MainWindow(false));
    match action {
        RouteAction::Apply {
            manifest,
            id,
            on: wanted,
        } => {
            assert_eq!(manifest.root.len(), 1);
            assert_eq!(id, "a");
            assert_eq!(wanted, !on);
        }
        other => panic!("unexpected: {other:?}"),
    }
    state
}

#[test]
fn without_a_main_window_the_toggle_is_applied() {
    let (state, action) = api_toggle_step(applying(false), RouteEvent::Applied(Ok(())));
    assert!(matches!(state, RouteState::Done));
    assert_eq!(answer(action), ("ok", None));
}

#[test]
fn the_answer_says_what_the_backend_met_with() {
    let cases = vec![
        (
            ToggleError::WriteModeUnset,
            "write mode not set.",
            "write mode is not set",
        ),
        (
            ToggleError::Apply(HostsApplyError::Cancelled("dismissed".to_string())),
            "cancelled.",
            "dismissed",
        ),
        (
            ToggleError::Apply(HostsApplyError::Failed("denied".to_string())),
            "apply failed.",
            "denied",
        ),
        (
            ToggleError::Persist("disk full".to_string()),
            "applied but not persisted.",
            "applied but failed to persist the tree: disk full",
        ),
        (
            ToggleError::Storage("no data".to_string()),
            "apply failed.",
            "no data",
        ),
    ];
    for (error, body, message) in cases {
        assert_eq!(error.as_body(), body);
        assert_eq!(error.message(), message);
        let (_, action) = api_toggle_step(applying(true), RouteEvent::Applied(Err(error)));
        assert_eq!(answer(action), (body, Some(message.to_string())));
    }
}

#[test]
fn only_a_dismissed_prompt_is_a_cancellation() {
    assert!(ToggleError::Apply(HostsApplyError::Cancelled(String::new())).is_cancelled());
    assert!(!ToggleError::Apply(HostsApplyError::Failed(String::new())).is_cancelled());
    assert!(!ToggleError::WriteModeUnset.is_cancelled());
    assert!(!ToggleError::Persist(String::new()).is_cancelled());
    assert!(!ToggleError::Storage(String::new()).is_cancelled());
}

#[test]
fn an_event_out_of_turn_does_not_move_a_request() {
    let (state, _) = api_toggle(Some("a".to_string()));
    let before = format!("{:?}", state);
    let (state, action) = api_toggle_step(state, RouteEvent::Emitted);
    assert!(matches!(action, RouteAction::Wait));
    assert_eq!(format!("{:?}", state), before);
    let (state, action) = api_toggle_step(RouteState::Done, RouteEvent::MainWindow(true));
    assert!(matches!(action, RouteAction::Wait));
    assert!(matches!(state, RouteState::Done));
}

// ---- the backend ------------------------------------------------------------

fn begin(root: Vec<Value>, id: &str, on: bool) -> BackendState {
    let (state, action) = apply_toggle_in_backend(manifest(root), id.to_string(), on);
    assert!(matches!(action, BackendAction::Lock));
    state
}

fn at_config() -> BackendState {
    let state = begin(vec![leaf("a", false), leaf("b", true)], "a", true);
    let (state, action) = apply_toggle_step(state, BackendEvent::Locked);
    assert!(matches!(action, BackendAction::CheckDataDir));
    let (state, action) = apply_toggle_step(state, BackendEvent::DataDir(Ok(())));
    assert!(matches!(action, BackendAction::ReadConfig));
    state
}

fn at_apply() -> BackendState {
    let (state, action) = apply_toggle_step(at_config(), BackendEvent::Config(config("append")));
    match action {
        BackendAction::Aggregate {
            root,
            remove_duplicate,
        } => {
            assert!(remove_duplicate);
            assert!(is_on(&find_node(&root, "a").unwrap()));
            assert!(is_on(&find_node(&root, "b").unwrap()));
        }
        other => panic!("unexpected: {other:?}"),
    }
    let content = "127.0.0.1 localhost".to_string();
    let (state, action) = apply_toggle_step(state, BackendEvent::Aggregated(Ok(content)));
    match action {
        BackendAction::Apply { content } => assert_eq!(content, "127.0.0.1 localhost"),
        other => panic!("unexpected: {other:?}"),
    }
    state
}

fn at_reload() -> BackendState {
    let (state, action) = apply_toggle_step(at_apply(), BackendEvent::Applied(Ok(())));
    assert!(matches!(action, BackendAction::Reload));
    state
}

fn at_save() -> BackendState {
    // Meanwhile another node has appeared.
    let fresh = manifest(vec![leaf("a", false), leaf("b", false), leaf("new", true)]);
    let (state, action) = apply_toggle_step(at_reload(), BackendEvent::Loaded(Ok(fresh)));
    match action {
        BackendAction::Save { manifest } => {
            assert_eq!(manifest.root.len(), 3);
            assert!(is_on(&find_node(&manifest.root, "a").unwrap()));
            assert!(!is_on(&find_node(&manifest.root, "b").unwrap()));
            assert!(is_on(&find_node(&manifest.root, "new").unwrap()));
        }
        other => panic!("unexpected: {other:?}"),
    }
    state
}

/// The error that a toggle ended with.
fn failure(next: (BackendState, BackendAction)) -> ToggleError {
    assert!(matches!(next.0, BackendState::Done));
    match next.1 {
        BackendAction::Finish(Err(error)) => error,
        other => panic!("no failure: {other:?}"),
    }
}

#[test]
fn an_undisturbed_toggle_writes_saves_and_refreshes() {
    let (state, action) = apply_toggle_step(at_save(), BackendEvent::Saved(Ok(())));
    assert!(matches!(action, BackendAction::RefreshTray));
    let (state, action) = apply_toggle_step(state, BackendEvent::Refreshed);
    match action {
        BackendAction::Announce { payload } => {
            assert_eq!(payload.get("_args").and_then(Value::as_array).unwrap().len(), 0);
        }
        other => panic!("unexpected: {other:?}"),
    }
    let (state, action) = apply_toggle_step(state, BackendEvent::Announced);
    assert!(matches!(state, BackendState::Done));
    assert!(matches!(action, BackendAction::Finish(Ok(()))));
}

#[test]
fn an_unusable_data_directory_is_a_storage_error() {
    let state = begin(vec![leaf("a", false)], "a", true);
    let (state, _) = apply_toggle_step(state, BackendEvent::Locked);
    let next = apply_toggle_step(state, BackendEvent::DataDir(Err("read only".to_string())));
    assert!(matches!(failure(next), ToggleError::Storage(s) if s == "read only"));
}

#[test]
fn without_a_write_mode_nothing_is_applied() {
    let next = apply_toggle_step(at_config(), BackendEvent::Config(config("")));
    assert!(matches!(failure(next), ToggleError::WriteModeUnset));
}

#[test]
fn a_failure_to_aggregate_is_a_storage_error() {
    let (state, _) = apply_toggle_step(at_config(), BackendEvent::Config(config("append")));
    let next = apply_toggle_step(state, BackendEvent::Aggregated(Err("gone".to_string())));
    assert!(matches!(failure(next), ToggleError::Storage(s) if s == "gone"));
}

#[test]
fn a_failure_to_apply_keeps_its_reason() {
    let denied = HostsApplyError::Failed("denied".to_string());
    let next = apply_toggle_step(at_apply(), BackendEvent::Applied(Err(denied)));
    assert!(matches!(
        failure(next),
        ToggleError::Apply(HostsApplyError::Failed(s)) if s == "denied"
    ));
    let dismissed = HostsApplyError::Cancelled("dismissed".to_string());
    let next = apply_toggle_step(at_apply(), BackendEvent::Applied(Err(dismissed)));
    assert!(failure(next).is_cancelled());
}

#[test]
fn what_fails_after_the_write_is_a_persist_error() {
    let next = apply_toggle_step(at_reload(), BackendEvent::Loaded(Err("broken".to_string())));
    assert!(matches!(failure(next), ToggleError::Persist(s) if s == "broken"));
    let next = apply_toggle_step(at_save(), BackendEvent::Saved(Err("disk full".to_string())));
    assert!(matches!(failure(next), ToggleError::Persist(s) if s == "disk full"));
}

#[test]
fn an_event_out_of_turn_does_not_move_a_toggle() {
    let state = at_apply();
    let before = shown_state(&state);
    let (state, action) = apply_toggle_step(state, BackendEvent::Saved(Ok(())));
    assert!(matches!(action, BackendAction::Wait));
    assert_eq!(shown_state(&state), before);
    let (state, action) = apply_toggle_step(BackendState::Done, BackendEvent::Locked);
    assert!(matches!(action, BackendAction::Wait));
    assert!(matches!(state, BackendState::Done));
}

#[test]
fn two_toggles_bring_the_first_state_back() {
    let mut root = vec![leaf("a", false)];
    for wanted in [true, false] {
        let (state, _) = api_toggle(Some("a".to_string()));
        let loaded = RouteEvent::Loaded(Ok(manifest(root.clone())));
        let (state, _) = api_toggle_step(state, loaded);
        let (_, action) = api_toggle_step(state, RouteEvent::MainWindow(false));
        let RouteAction::Apply { manifest: m, id, on } = action else {
            panic!("the toggle is to be applied");
        };
        assert_eq!(on, wanted);
        let (state, _) = apply_toggle_in_backend(m, id, on);
        let (state, _) = apply_toggle_step(state, BackendEvent::Locked);
        let (state, _) = apply_toggle_step(state, BackendEvent::DataDir(Ok(())));
        let (_, action) = apply_toggle_step(state, BackendEvent::Config(config("overwrite")));
        let BackendAction::Aggregate { root: next, .. } = action else {
            panic!("the tree is to be put together");
        };
        assert_eq!(is_on(&next[0]), wanted);
        root = next;
    }
    assert!(!is_on(&root[0]));
}
