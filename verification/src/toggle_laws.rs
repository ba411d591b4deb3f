//! What holds of a toggle from its beginning to its end, whatever events come.

use vstd::prelude::*;

use crate::json::Json;
use crate::manifest::ManifestView;
use crate::selection_laws::law_found_in_new_state;
use crate::toggle::{
    backend_advance, backend_expects, empty_payload, route_advance, route_begins, route_expects,
    toggled, BackendActionView, BackendEventView, BackendStateView, RouteActionView,
    RouteEventView, RouteStateView, ToggleConfigView, ToggleErrorView,
};
use crate::tree::{first_with_id, flatten};

verus! {

// ---- the backend toggle -----------------------------------------------------

/// The state after a list of events, and what was asked for at each of them.
pub open spec fn backend_run(start: BackendStateView, events: Seq<BackendEventView>) -> (
    BackendStateView,
    Seq<BackendActionView>,
)
    decreases events.len(),
{
    if events.len() == 0 {
        (start, Seq::empty())
    } else {
        let (state, actions) = backend_run(start, events.drop_last());
        let (next, action) = backend_advance(state, events.last());
        (next, actions.push(action))
    }
}

/// How far a backend toggle has come.
pub open spec fn backend_stage(state: BackendStateView) -> int {
    match state {
        BackendStateView::Locking { .. } => 0,
        BackendStateView::CheckingDataDir { .. } => 1,
        BackendStateView::ReadingConfig { .. } => 2,
        BackendStateView::Aggregating { .. } => 3,
        BackendStateView::Applying { .. } => 4,
        BackendStateView::Reloading { .. } => 5,
        BackendStateView::Saving => 6,
        BackendStateView::Refreshing => 7,
        BackendStateView::Announcing => 8,
        BackendStateView::Done => 9,
    }
}

/// Every event that a backend toggle waits for brings it forward, so it is over
/// after at most nine of them; it says so exactly when it is.
pub proof fn law_backend_toggle_ends(state: BackendStateView, event: BackendEventView)
    requires
        backend_expects(state, event),
    ensures
        backend_stage(state) < backend_stage(backend_advance(state, event).0) <= 9,
        backend_advance(state, event).0 is Done <==> backend_advance(state, event).1 is Finish,
        !(backend_advance(state, event).1 is Wait),
{
}

/// An event that a backend toggle does not wait for changes nothing.
pub proof fn law_backend_toggle_ignores_strays(state: BackendStateView, event: BackendEventView)
    requires
        !backend_expects(state, event),
    ensures
        backend_advance(state, event) == (state, BackendActionView::Wait),
{
}

/// Where every step goes well, the toggle asks for exactly this, in this order:
/// the proposed tree is put together and written, and the tree as loaded
/// afterwards is switched in the same way and saved.
pub proof fn law_undisturbed_toggle(
    root: Seq<Json>,
    id: Seq<char>,
    on: bool,
    config: ToggleConfigView,
    content: Seq<char>,
    fresh: ManifestView,
)
    requires
        config.write_mode.len() > 0,
    ensures
        ({
            let (state, actions) = backend_run(
                BackendStateView::Locking { root, id, on },
                seq![
                    BackendEventView::Locked,
                    BackendEventView::DataDir(None),
                    BackendEventView::Config(config),
                    BackendEventView::Aggregated(Ok(content)),
                    BackendEventView::Applied(None),
                    BackendEventView::Loaded(Ok(fresh)),
                    BackendEventView::Saved(None),
                    BackendEventView::Refreshed,
                    BackendEventView::Announced,
                ],
            );
            &&& state is Done
            &&& actions =~= seq![
                BackendActionView::CheckDataDir,
                BackendActionView::ReadConfig,
                BackendActionView::Aggregate {
                    root: toggled(root, id, on, config),
                    remove_duplicate: config.remove_duplicate_records,
                },
                BackendActionView::Apply { content },
                BackendActionView::Reload,
                BackendActionView::Save {
                    manifest: ManifestView { root: toggled(fresh.root, id, on, config), ..fresh },
                },
                BackendActionView::RefreshTray,
                BackendActionView::Announce { payload: empty_payload() },
                BackendActionView::Finish(None),
            ]
        }),
{
    let start = BackendStateView::Locking { root, id, on };
    let e0 = Seq::<BackendEventView>::empty();
    let e1 = e0.push(BackendEventView::Locked);
    let e2 = e1.push(BackendEventView::DataDir(None));
    let e3 = e2.push(BackendEventView::Config(config));
    let e4 = e3.push(BackendEventView::Aggregated(Ok(content)));
    let e5 = e4.push(BackendEventView::Applied(None));
    let e6 = e5.push(BackendEventView::Loaded(Ok(fresh)));
    let e7 = e6.push(BackendEventView::Saved(None));
    let e8 = e7.push(BackendEventView::Refreshed);
    let e9 = e8.push(BackendEventView::Announced);
    lemma_one_more(start, e0, BackendEventView::Locked);
    lemma_one_more(start, e1, BackendEventView::DataDir(None));
    lemma_one_more(start, e2, BackendEventView::Config(config));
    lemma_one_more(start, e3, BackendEventView::Aggregated(Ok(content)));
    lemma_one_more(start, e4, BackendEventView::Applied(None));
    lemma_one_more(start, e5, BackendEventView::Loaded(Ok(fresh)));
    lemma_one_more(start, e6, BackendEventView::Saved(None));
    lemma_one_more(start, e7, BackendEventView::Refreshed);
    lemma_one_more(start, e8, BackendEventView::Announced);
    assert(backend_run(start, e0) == (start, Seq::<BackendActionView>::empty()));
    assert(backend_run(start, e9).0 is Done);
    assert(e9 =~= seq![
        BackendEventView::Locked,
        BackendEventView::DataDir(None),
        BackendEventView::Config(config),
        BackendEventView::Aggregated(Ok(content)),
        BackendEventView::Applied(None),
        BackendEventView::Loaded(Ok(fresh)),
        BackendEventView::Saved(None),
        BackendEventView::Refreshed,
        BackendEventView::Announced,
    ]);
}

proof fn lemma_one_more(
    start: BackendStateView,
    events: Seq<BackendEventView>,
    event: BackendEventView,
)
    ensures
        ({
            let (state, actions) = backend_run(start, events);
            let (next, action) = backend_advance(state, event);
            backend_run(start, events.push(event)) == (next, actions.push(action))
        }),
{
    assert(events.push(event).drop_last() =~= events);
}

/// Nothing is put together, written or saved as long as no write mode is set.
pub proof fn law_nothing_applied_without_write_mode(
    root: Seq<Json>,
    id: Seq<char>,
    on: bool,
    events: Seq<BackendEventView>,
    i: int,
)
    requires
        forall|c: int|
            0 <= c < events.len() && (#[trigger] events[c]) is Config
                ==> events[c]->Config_0.write_mode.len() == 0,
        0 <= i < events.len(),
    ensures
        ({
            let actions = backend_run(BackendStateView::Locking { root, id, on }, events).1;
            &&& actions.len() == events.len()
            &&& !(actions[i] is Aggregate)
            &&& !(actions[i] is Apply)
            &&& !(actions[i] is Save)
        }),
{
    lemma_no_write_mode(root, id, on, events);
}

proof fn lemma_no_write_mode(
    root: Seq<Json>,
    id: Seq<char>,
    on: bool,
    events: Seq<BackendEventView>,
)
    requires
        forall|c: int|
            0 <= c < events.len() && (#[trigger] events[c]) is Config
                ==> events[c]->Config_0.write_mode.len() == 0,
    ensures
        ({
            let (state, actions) = backend_run(BackendStateView::Locking { root, id, on }, events);
            &&& actions.len() == events.len()
            &&& state is Locking || state is CheckingDataDir || state is ReadingConfig
                || state is Done
            &&& forall|j: int|
                0 <= j < actions.len() ==> !((#[trigger] actions[j]) is Aggregate) && !(
                actions[j] is Apply) && !(actions[j] is Save)
        }),
    decreases events.len(),
{
    if events.len() > 0 {
        let before = events.drop_last();
        assert forall|c: int| 0 <= c < before.len() && (#[trigger] before[c]) is Config implies
            before[c]->Config_0.write_mode.len() == 0 by {
            assert(before[c] == events[c]);
        }
        lemma_no_write_mode(root, id, on, before);
        assert(events.last() == events[events.len() - 1]);
    }
}

/// The system hosts file was written: it was asked for, and the word came back
/// that it had been done.
pub open spec fn was_applied(
    events: Seq<BackendEventView>,
    actions: Seq<BackendActionView>,
) -> bool {
    exists|i: int, j: int|
        0 <= i < j < events.len() && i < actions.len() && #[trigger] actions[i] is Apply
            && #[trigger] events[j] == BackendEventView::Applied(None)
}

/// The tree was saved: it was asked for, and the word came back that it had
/// been done.
pub open spec fn was_saved(events: Seq<BackendEventView>, actions: Seq<BackendActionView>) -> bool {
    exists|i: int, j: int|
        0 <= i < j < events.len() && i < actions.len() && #[trigger] actions[i] is Save
            && #[trigger] events[j] == BackendEventView::Saved(None)
}

/// The configuration came with one of the events.
spec fn config_came(events: Seq<BackendEventView>, config: ToggleConfigView) -> bool {
    exists|c: int|
        0 <= c < events.len() && #[trigger] events[c] == BackendEventView::Config(config)
}

/// A tree that is to be saved is one that has just been loaded, with `id`
/// switched to `on` by a configuration that came earlier.
pub open spec fn saves_fresh_tree(
    id: Seq<char>,
    on: bool,
    events: Seq<BackendEventView>,
    actions: Seq<BackendActionView>,
    i: int,
) -> bool {
    exists|fresh: ManifestView, c: int|
        {
            &&& 0 <= c < i
            &&& (#[trigger] events[c]) is Config
            &&& events[i] == BackendEventView::Loaded(Ok(fresh))
            &&& #[trigger] toggled(fresh.root, id, on, events[c]->Config_0)
                == actions[i]->Save_manifest.root
            &&& actions[i]->Save_manifest == ManifestView {
                root: toggled(fresh.root, id, on, events[c]->Config_0),
                ..fresh
            }
        }
}

/// What each state of a run says of what came before it.
spec fn backend_history(
    id: Seq<char>,
    on: bool,
    events: Seq<BackendEventView>,
    state: BackendStateView,
    actions: Seq<BackendActionView>,
) -> bool {
    let target = match state {
        BackendStateView::Locking { id: i, on: o, .. } => i == id && o == on,
        BackendStateView::CheckingDataDir { id: i, on: o, .. } => i == id && o == on,
        BackendStateView::ReadingConfig { id: i, on: o, .. } => i == id && o == on,
        BackendStateView::Aggregating { id: i, on: o, config } => i == id && o == on
            && config_came(events, config),
        BackendStateView::Applying { id: i, on: o, config } => i == id && o == on
            && config_came(events, config),
        BackendStateView::Reloading { id: i, on: o, config } => i == id && o == on
            && config_came(events, config),
        _ => true,
    };
    let stage = backend_stage(state);
    &&& target
    &&& actions.len() == events.len()
    &&& stage == 4 ==> exists|i: int| 0 <= i < actions.len() && #[trigger] actions[i] is Apply
    &&& 5 <= stage <= 8 ==> was_applied(events, actions)
    &&& stage <= 5 ==> forall|i: int|
        0 <= i < actions.len() ==> !((#[trigger] actions[i]) is Save)
    &&& stage == 6 ==> exists|i: int| 0 <= i < actions.len() && #[trigger] actions[i] is Save
    &&& 7 <= stage <= 8 ==> was_saved(events, actions)
    &&& actions.len() > 0 && actions.last() is Finish ==> match actions.last()->Finish_0 {
        None => was_applied(events, actions) && was_saved(events, actions),
        Some(ToggleErrorView::Persist(_)) => was_applied(events, actions),
        Some(_) => forall|i: int| 0 <= i < actions.len() ==> !((#[trigger] actions[i]) is Save),
    }
    &&& forall|i: int|
        0 <= i < actions.len() && (#[trigger] actions[i]) is Save ==> saves_fresh_tree(
            id,
            on,
            events,
            actions,
            i,
        )
}

proof fn lemma_history_grows(
    events: Seq<BackendEventView>,
    actions: Seq<BackendActionView>,
    event: BackendEventView,
    action: BackendActionView,
)
    requires
        events.len() == actions.len(),
    ensures
        was_applied(events, actions) ==> was_applied(events.push(event), actions.push(action)),
        was_saved(events, actions) ==> was_saved(events.push(event), actions.push(action)),
{
    let more = events.push(event);
    let asked = actions.push(action);
    if was_applied(events, actions) {
        let (i, j) = choose|i: int, j: int|
            0 <= i < j < events.len() && i < actions.len() && #[trigger] actions[i] is Apply
                && #[trigger] events[j] == BackendEventView::Applied(None);
        assert(asked[i] is Apply && more[j] == BackendEventView::Applied(None));
    }
    if was_saved(events, actions) {
        let (i, j) = choose|i: int, j: int|
            0 <= i < j < events.len() && i < actions.len() && #[trigger] actions[i] is Save
                && #[trigger] events[j] == BackendEventView::Saved(None);
        assert(asked[i] is Save && more[j] == BackendEventView::Saved(None));
    }
}

#[verifier::rlimit(40)]
proof fn lemma_backend_history(
    root: Seq<Json>,
    id: Seq<char>,
    on: bool,
    events: Seq<BackendEventView>,
)
    ensures
        ({
            let (state, actions) = backend_run(BackendStateView::Locking { root, id, on }, events);
            backend_history(id, on, events, state, actions)
        }),
    decreases events.len(),
{
    let start = BackendStateView::Locking { root, id, on };
    if events.len() > 0 {
        let before = events.drop_last();
        let event = events.last();
        lemma_backend_history(root, id, on, before);
        let (state, asked) = backend_run(start, before);
        let (next, action) = backend_advance(state, event);
        let actions = asked.push(action);
        let last = before.len() as int;
        assert(events =~= before.push(event));
        assert(events[last] == event);
        assert(actions[last] == action);
        lemma_history_grows(before, asked, event, action);
        // The configuration.
        assert forall|config: ToggleConfigView| config_came(before, config) implies config_came(
            events,
            config,
        ) by {
            let c = choose|c: int|
                0 <= c < before.len() && #[trigger] before[c] == BackendEventView::Config(config);
            assert(events[c] == BackendEventView::Config(config));
        }
        // The words that answer what was asked for earlier.
        if state is Applying && event == BackendEventView::Applied(None) {
            let i = choose|i: int| 0 <= i < asked.len() && #[trigger] asked[i] is Apply;
            assert(actions[i] is Apply && events[last] == BackendEventView::Applied(None));
            assert(was_applied(events, actions));
        }
        if state is Applying {
            let i = choose|i: int| 0 <= i < asked.len() && #[trigger] asked[i] is Apply;
            assert(actions[i] is Apply);
        }
        if state is Saving {
            let i = choose|i: int| 0 <= i < asked.len() && #[trigger] asked[i] is Save;
            assert(actions[i] is Save);
            if event == BackendEventView::Saved(None) {
                assert(actions[i] is Save && events[last] == BackendEventView::Saved(None));
                assert(was_saved(events, actions));
            }
        }
        // The trees that were to be saved.
        assert forall|i: int| 0 <= i < actions.len() && (#[trigger] actions[i]) is Save implies
            saves_fresh_tree(id, on, events, actions, i) by {
            if i < last {
                assert(asked[i] is Save);
                assert(saves_fresh_tree(id, on, before, asked, i));
                let (fresh, c) = choose|fresh: ManifestView, c: int|
                    {
                        &&& 0 <= c < i
                        &&& (#[trigger] before[c]) is Config
                        &&& before[i] == BackendEventView::Loaded(Ok(fresh))
                        &&& #[trigger] toggled(fresh.root, id, on, before[c]->Config_0)
                            == asked[i]->Save_manifest.root
                        &&& asked[i]->Save_manifest == ManifestView {
                            root: toggled(fresh.root, id, on, before[c]->Config_0),
                            ..fresh
                        }
                    };
                assert(events[c] == before[c]);
                assert(events[i] == before[i]);
                assert(toggled(fresh.root, id, on, events[c]->Config_0)
                    == actions[i]->Save_manifest.root);
            } else {
                let config = state->Reloading_config;
                let c = choose|c: int|
                    0 <= c < before.len() && #[trigger] before[c] == BackendEventView::Config(
                        config,
                    );
                assert(events[c] == BackendEventView::Config(config));
                let fresh = event->Loaded_0->Ok_0;
                assert(toggled(fresh.root, id, on, events[c]->Config_0)
                    == actions[i]->Save_manifest.root);
            }
        }
        if backend_stage(next) <= 5 || (action is Finish && backend_stage(state) <= 4) {
            assert forall|i: int| 0 <= i < actions.len() implies !((
            #[trigger] actions[i]) is Save) by {
                if i < last {
                    assert(actions[i] == asked[i]);
                }
            }
        }
    }
}

/// A backend toggle that ends without an error has written the system hosts
/// file and saved the tree.
pub proof fn law_success_means_applied_and_saved(
    root: Seq<Json>,
    id: Seq<char>,
    on: bool,
    events: Seq<BackendEventView>,
)
    requires
        events.len() > 0,
        backend_run(BackendStateView::Locking { root, id, on }, events).1.last()
            == BackendActionView::Finish(None),
    ensures
        was_applied(events, backend_run(BackendStateView::Locking { root, id, on }, events).1),
        was_saved(events, backend_run(BackendStateView::Locking { root, id, on }, events).1),
{
    lemma_backend_history(root, id, on, events);
}

/// A backend toggle that ends with the word that the tree was not persisted has
/// written the system hosts file; one that ends with any other error has not
/// even asked for the tree to be saved.
pub proof fn law_errors_tell_how_far_it_came(
    root: Seq<Json>,
    id: Seq<char>,
    on: bool,
    events: Seq<BackendEventView>,
    error: ToggleErrorView,
)
    requires
        events.len() > 0,
        backend_run(BackendStateView::Locking { root, id, on }, events).1.last()
            == BackendActionView::Finish(Some(error)),
    ensures
        error is Persist ==> was_applied(
            events,
            backend_run(BackendStateView::Locking { root, id, on }, events).1,
        ),
        !(error is Persist) ==> forall|i: int|
            0 <= i < events.len() ==> !((#[trigger] backend_run(
                BackendStateView::Locking { root, id, on },
                events,
            ).1[i]) is Save),
{
    lemma_backend_history(root, id, on, events);
}

/// Whatever tree is saved is the tree as it was loaded last, with the toggle
/// applied to it; the tree that the toggle began with is never saved over it.
pub proof fn law_saved_tree_is_fresh(
    root: Seq<Json>,
    id: Seq<char>,
    on: bool,
    events: Seq<BackendEventView>,
    i: int,
)
    requires
        0 <= i < events.len(),
        backend_run(BackendStateView::Locking { root, id, on }, events).1[i] is Save,
    ensures
        saves_fresh_tree(
            id,
            on,
            events,
            backend_run(BackendStateView::Locking { root, id, on }, events).1,
            i,
        ),
{
    lemma_backend_history(root, id, on, events);
}

// ---- the route --------------------------------------------------------------

/// The state after a list of events, and what was asked for: first on taking
/// the request in, then at each of the events.
pub open spec fn route_run(id: Option<Seq<char>>, events: Seq<RouteEventView>) -> (
    RouteStateView,
    Seq<RouteActionView>,
)
    decreases events.len(),
{
    if events.len() == 0 {
        (route_begins(id).0, seq![route_begins(id).1])
    } else {
        let (state, actions) = route_run(id, events.drop_last());
        let (next, action) = route_advance(state, events.last());
        (next, actions.push(action))
    }
}

/// How far a toggle request has come.
pub open spec fn route_stage(state: RouteStateView) -> int {
    match state {
        RouteStateView::Loading { .. } => 0,
        RouteStateView::Choosing { .. } => 1,
        RouteStateView::Emitting => 2,
        RouteStateView::Applying => 2,
        RouteStateView::Done => 3,
    }
}

/// Every event that a request waits for brings it forward, so it is answered
/// after at most three of them; it is over exactly when it is answered.
pub proof fn law_request_is_answered(state: RouteStateView, event: RouteEventView)
    requires
        route_expects(state, event),
    ensures
        route_stage(state) < route_stage(route_advance(state, event).0) <= 3,
        route_advance(state, event).0 is Done <==> route_advance(state, event).1 is Reply,
        !(route_advance(state, event).1 is Wait),
{
}

/// An event that a request does not wait for changes nothing.
pub proof fn law_request_ignores_strays(state: RouteStateView, event: RouteEventView)
    requires
        !route_expects(state, event),
    ensures
        route_advance(state, event) == (state, RouteActionView::Wait),
{
}

/// The bodies that a toggle request can be answered with.
pub open spec fn is_toggle_body(body: Seq<char>) -> bool {
    ||| body == "ok"@
    ||| body == "bad id."@
    ||| body == "not found."@
    ||| body == "cancelled."@
    ||| body == "write mode not set."@
    ||| body == "applied but not persisted."@
    ||| body == "apply failed."@
}

/// Whatever happens, the answer is one of the few bodies that there are.
pub proof fn law_answers_are_terse(id: Option<Seq<char>>, events: Seq<RouteEventView>, i: int)
    requires
        0 <= i < route_run(id, events).1.len(),
        route_run(id, events).1[i] is Reply,
    ensures
        is_toggle_body(route_run(id, events).1[i]->body),
    decreases events.len(),
{
    if events.len() > 0 && i < route_run(id, events).1.len() - 1 {
        law_answers_are_terse(id, events.drop_last(), i);
    }
}

/// What each state of a request says of what came before it.
spec fn route_history(
    id: Option<Seq<char>>,
    state: RouteStateView,
    actions: Seq<RouteActionView>,
) -> bool {
    let refused = actions.last() is Reply && (actions.last()->body == "bad id."@
        || actions.last()->body == "not found."@);
    &&& actions.len() > 0
    &&& state is Loading || state is Choosing || refused ==> forall|i: int|
        0 <= i < actions.len() ==> !((#[trigger] actions[i]) is Emit) && !(actions[i] is Apply)
    &&& state is Emitting ==> exists|i: int|
        0 <= i < actions.len() && (#[trigger] actions[i]) is Emit
    &&& state is Applying ==> exists|i: int|
        0 <= i < actions.len() && (#[trigger] actions[i]) is Apply
    &&& actions.last() is Reply && !refused ==> exists|i: int|
        0 <= i < actions.len() && ((#[trigger] actions[i]) is Emit || actions[i] is Apply)
}

proof fn lemma_refusals_differ(error: ToggleErrorView)
    ensures
        "ok"@ != "bad id."@,
        "ok"@ != "not found."@,
        error.body() != "bad id."@,
        error.body() != "not found."@,
{
    reveal_strlit("ok");
    reveal_strlit("bad id.");
    reveal_strlit("not found.");
    reveal_strlit("write mode not set.");
    reveal_strlit("cancelled.");
    reveal_strlit("apply failed.");
    reveal_strlit("applied but not persisted.");
    assert("ok"@[0] == 'o');
    assert("bad id."@[0] == 'b');
    assert("not found."@[0] == 'n');
    assert("write mode not set."@[0] == 'w');
    assert("cancelled."@[0] == 'c');
    assert("apply failed."@[0] == 'a');
    assert("applied but not persisted."@[0] == 'a');
}

proof fn lemma_route_history(id: Option<Seq<char>>, events: Seq<RouteEventView>)
    ensures
        route_history(id, route_run(id, events).0, route_run(id, events).1),
        route_run(id, events).1.len() == events.len() + 1,
    decreases events.len(),
{
    if events.len() > 0 {
        lemma_route_history(id, events.drop_last());
        let (state, asked) = route_run(id, events.drop_last());
        let (next, action) = route_advance(state, events.last());
        let actions = asked.push(action);
        assert(actions.last() == action);
        assert forall|i: int| 0 <= i < asked.len() implies #[trigger] actions[i] == asked[i] by {}
        assert(actions[asked.len() as int] == action);
        match (state, events.last()) {
            (RouteStateView::Applying, RouteEventView::Applied(Some(error))) => {
                lemma_refusals_differ(error);
            },
            _ => {
                lemma_refusals_differ(ToggleErrorView::WriteModeUnset);
            },
        }
        if state is Emitting {
            let i = choose|i: int| 0 <= i < asked.len() && (#[trigger] asked[i]) is Emit;
            assert(actions[i] is Emit);
        }
        if state is Applying {
            let i = choose|i: int| 0 <= i < asked.len() && (#[trigger] asked[i]) is Apply;
            assert(actions[i] is Apply);
        }
    }
}

/// A request that is refused, with `bad id.` or `not found.`, has had no effect:
/// nothing was sent to a window and nothing was applied. A request that is
/// answered otherwise was handed to the window or to the backend.
pub proof fn law_refused_request_has_no_effect(
    id: Option<Seq<char>>,
    events: Seq<RouteEventView>,
    body: Seq<char>,
    error: Option<ToggleErrorView>,
)
    requires
        route_run(id, events).1.last() == (RouteActionView::Reply { body, error }),
    ensures
        ({
            let actions = route_run(id, events).1;
            if body == "bad id."@ || body == "not found."@ {
                forall|i: int|
                    0 <= i < actions.len() ==> !((#[trigger] actions[i]) is Emit) && !(
                    actions[i] is Apply)
            } else {
                exists|i: int|
                    0 <= i < actions.len() && ((#[trigger] actions[i]) is Emit || actions[
                        i
                    ] is Apply)
            }
        }),
{
    lemma_route_history(id, events);
}

/// The toggle goes to the main window only on word that there is one, and to
/// the backend only on word that there is none.
pub proof fn law_window_decides(id: Option<Seq<char>>, events: Seq<RouteEventView>, i: int)
    requires
        0 <= i <= events.len(),
    ensures
        ({
            let action = route_run(id, events).1[i];
            &&& action is Emit ==> i > 0 && events[i - 1] == RouteEventView::MainWindow(true)
            &&& action is Apply ==> i > 0 && events[i - 1] == RouteEventView::MainWindow(false)
        }),
    decreases events.len(),
{
    lemma_route_history(id, events);
    if events.len() > 0 {
        let before = events.drop_last();
        lemma_route_history(id, before);
        if i < events.len() {
            law_window_decides(id, before, i);
            assert(route_run(id, events).1[i] == route_run(id, before).1[i]);
            if i > 0 {
                assert(before[i - 1] == events[i - 1]);
            }
        }
    }
}

/// The toggle was sent to the main window, or the backend was asked for it and
/// reported that it had been done.
pub open spec fn was_carried_out(
    events: Seq<RouteEventView>,
    actions: Seq<RouteActionView>,
) -> bool {
    ||| exists|i: int| 0 <= i < actions.len() && (#[trigger] actions[i]) is Emit
    ||| exists|i: int, j: int|
        0 <= i <= j < events.len() && i < actions.len() && (#[trigger] actions[i]) is Apply && (
        #[trigger] events[j]) == RouteEventView::Applied(None)
}

/// A request is answered `ok` only where the toggle was sent to the main window,
/// or carried out without one.
pub proof fn law_ok_is_earned(id: Option<Seq<char>>, events: Seq<RouteEventView>)
    requires
        route_run(id, events).1.last() == (RouteActionView::Reply { body: "ok"@, error: None }),
    ensures
        was_carried_out(events, route_run(id, events).1),
{
    let actions = route_run(id, events).1;
    lemma_refusals_differ(ToggleErrorView::WriteModeUnset);
    if events.len() > 0 {
        lemma_route_history(id, events.drop_last());
        let (state, asked) = route_run(id, events.drop_last());
        let last = asked.len() as int;
        assert(actions[last] == actions.last());
        if state is Emitting {
            let i = choose|i: int| 0 <= i < asked.len() && (#[trigger] asked[i]) is Emit;
            assert(actions[i] is Emit);
        } else {
            assert(state is Applying);
            let i = choose|i: int| 0 <= i < asked.len() && (#[trigger] asked[i]) is Apply;
            assert(actions[i] is Apply);
            let error = events.last()->Applied_0;
            if error is Some {
                assert(route_advance(state, events.last()).1->error is Some);
            }
            assert(events[last - 1] == RouteEventView::Applied(None));
        }
    }
}

/// A toggle flips: what it asks for is the state that the node does not have,
/// the tree that it applies has the node in that state, so does the tree that
/// it saves if the node is still there, and the next toggle asks for the state
/// that the node had.
pub proof fn law_toggle_flips(
    manifest: ManifestView,
    id: Seq<char>,
    config: ToggleConfigView,
    fresh: ManifestView,
)
    requires
        first_with_id(flatten(manifest.root), id) is Some,
    ensures
        ({
            let was_on = first_with_id(flatten(manifest.root), id)->0.is_on();
            let applied = toggled(manifest.root, id, !was_on, config);
            let saved = toggled(fresh.root, id, !was_on, config);
            let asked = RouteEventView::Loaded(Ok(manifest));
            let next = ManifestView { root: applied, ..manifest };
            let again = RouteEventView::Loaded(Ok(next));
            let loading = RouteStateView::Loading { id };
            &&& route_advance(loading, asked).0 == (RouteStateView::Choosing {
                manifest,
                id,
                on: !was_on,
            })
            &&& first_with_id(flatten(applied), id) is Some
            &&& first_with_id(flatten(applied), id)->0.is_on() == !was_on
            &&& first_with_id(flatten(fresh.root), id) is Some ==> {
                &&& first_with_id(flatten(saved), id) is Some
                &&& first_with_id(flatten(saved), id)->0.is_on() == !was_on
            }
            &&& route_advance(loading, again).0 == (RouteStateView::Choosing {
                manifest: next,
                id,
                on: was_on,
            })
        }),
{
    let was_on = first_with_id(flatten(manifest.root), id)->0.is_on();
    let mode = config.choice_mode;
    let switch_all = config.multi_chose_folder_switch_all;
    law_found_in_new_state(manifest.root, id, !was_on, mode, switch_all);
    if first_with_id(flatten(fresh.root), id) is Some {
        law_found_in_new_state(fresh.root, id, !was_on, mode, switch_all);
    }
}

} // verus!
