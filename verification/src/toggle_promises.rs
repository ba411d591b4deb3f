//! What a toggle is for, stated on the configuration, the trees, and the members
//! of the nodes.

use vstd::prelude::*;

use crate::json::Json;
use crate::manifest::ManifestView;
use crate::selection_promises::{
    law_default_mode_decides_at_the_top_level, law_every_node_is_given_its_due,
};
use crate::terms::{carries, first_place, lit, named_there, switches, there, unnamed};
use crate::toggle::{
    backend_advance, empty_payload, route_advance, route_begins, toggle_payload, toggled,
    BackendAction, BackendActionView, BackendEvent, BackendEventView, BackendState,
    BackendStateView, HostsApplyError, HostsApplyErrorView, RouteAction, RouteActionView,
    RouteEvent, RouteEventView, RouteState, RouteStateView, ToggleConfig, ToggleConfigView,
    ToggleError, ToggleErrorView,
};
use crate::toggle_laws::{backend_run, law_saved_tree_is_fresh, saves_fresh_tree};
use crate::tree::{first_with_id, flatten};
use crate::tree_promises::{
    law_nodes_are_their_members, law_search_finds_the_first_place, lemma_first_place_is_one,
};
use crate::value::forest;

verus! {

// ---- the backend toggle -----------------------------------------------------

/// Without a write mode the toggle ends there. With one, the tree that is put
/// together is the tree of the toggle, switched by exactly the configured choice
/// mode and cascade, and duplicates are treated as configured.
pub proof fn law_configuration_decides_what_is_applied(
    root: Seq<Json>,
    id: Seq<char>,
    on: bool,
    config: ToggleConfigView,
)
    ensures
        ({
            let (next, action) = backend_advance(
                BackendStateView::ReadingConfig { root, id, on },
                BackendEventView::Config(config),
            );
            if config.write_mode.len() == 0 {
                &&& next is Done
                &&& action == BackendActionView::Finish(Some(ToggleErrorView::WriteModeUnset))
            } else {
                &&& next == (BackendStateView::Aggregating { id, on, config })
                &&& action is Aggregate
                &&& action->remove_duplicate == config.remove_duplicate_records
                &&& switches(
                    root,
                    id,
                    on,
                    config.choice_mode,
                    config.multi_chose_folder_switch_all,
                    action->root,
                )
            }
        }),
{
    law_every_node_is_given_its_due(
        root,
        id,
        on,
        config.choice_mode,
        config.multi_chose_folder_switch_all,
    );
}

/// The manifest that is saved is the one that was loaded after the write, its
/// tree switched by exactly the configured choice mode and cascade, and nothing
/// else of it changed.
pub proof fn law_configuration_decides_what_is_saved(
    fresh: ManifestView,
    id: Seq<char>,
    on: bool,
    config: ToggleConfigView,
)
    ensures
        ({
            let (next, action) = backend_advance(
                BackendStateView::Reloading { id, on, config },
                BackendEventView::Loaded(Ok(fresh)),
            );
            &&& next is Saving
            &&& action is Save
            &&& action->manifest.format == fresh.format
            &&& action->manifest.schema_version == fresh.schema_version
            &&& switches(
                fresh.root,
                id,
                on,
                config.choice_mode,
                config.multi_chose_folder_switch_all,
                action->manifest.root,
            )
        }),
{
    law_every_node_is_given_its_due(
        fresh.root,
        id,
        on,
        config.choice_mode,
        config.multi_chose_folder_switch_all,
    );
}

/// Where the configured choice mode is `1`, a node of the top level that is
/// toggled on is on in the tree that is put together and in the tree that is
/// saved, and every other node of the top level is off. Where it is another,
/// the others stay as they are.
pub proof fn law_toggle_obeys_the_choice_mode(
    tree: Seq<Json>,
    fresh: ManifestView,
    id: Seq<char>,
    config: ToggleConfigView,
    i: int,
    j: int,
)
    requires
        config.write_mode.len() > 0,
        fresh.root == tree,
        first_place(tree, seq![i], id),
        0 <= j < tree.len(),
        j != i,
    ensures
        ({
            let applied = backend_advance(
                BackendStateView::ReadingConfig { root: tree, id, on: true },
                BackendEventView::Config(config),
            ).1->root;
            let saved = backend_advance(
                BackendStateView::Reloading { id, on: true, config },
                BackendEventView::Loaded(Ok(fresh)),
            ).1->manifest.root;
            &&& applied.len() == tree.len()
            &&& saved.len() == tree.len()
            &&& lit(applied[i]) && lit(saved[i])
            &&& config.choice_mode == 1 ==> !lit(applied[j]) && !lit(saved[j])
            &&& config.choice_mode != 1 ==> applied[j] == tree[j] && saved[j] == tree[j]
        }),
{
    law_default_mode_decides_at_the_top_level(
        tree,
        id,
        true,
        config.choice_mode,
        config.multi_chose_folder_switch_all,
        i,
        j,
    );
}

proof fn lemma_begun_with(
    root: Seq<Json>,
    id: Seq<char>,
    on: bool,
    events: Seq<BackendEventView>,
)
    ensures
        match backend_run(BackendStateView::Locking { root, id, on }, events).0 {
            BackendStateView::Locking { root: r, id: i, on: o } => r == root && i == id && o == on,
            BackendStateView::CheckingDataDir { root: r, id: i, on: o } => r == root && i == id && o
                == on,
            BackendStateView::ReadingConfig { root: r, id: i, on: o } => r == root && i == id && o
                == on,
            _ => true,
        },
        backend_run(BackendStateView::Locking { root, id, on }, events).1.len() == events.len(),
    decreases events.len(),
{
    if events.len() > 0 {
        lemma_begun_with(root, id, on, events.drop_last());
    }
}

/// Whatever happens on the way, the tree that is put together is the tree that
/// the toggle began with, switched as the configuration that just came says.
pub proof fn law_applied_tree_follows_the_configuration(
    root: Seq<Json>,
    id: Seq<char>,
    on: bool,
    events: Seq<BackendEventView>,
    i: int,
)
    requires
        0 <= i < events.len(),
        backend_run(BackendStateView::Locking { root, id, on }, events).1[i] is Aggregate,
    ensures
        ({
            let action = backend_run(BackendStateView::Locking { root, id, on }, events).1[i];
            let config = events[i]->Config_0;
            &&& events[i] is Config
            &&& config.write_mode.len() > 0
            &&& action->remove_duplicate == config.remove_duplicate_records
            &&& switches(
                root,
                id,
                on,
                config.choice_mode,
                config.multi_chose_folder_switch_all,
                action->root,
            )
        }),
    decreases events.len(),
{
    let start = BackendStateView::Locking { root, id, on };
    let before = events.drop_last();
    lemma_begun_with(root, id, on, before);
    let (state, asked) = backend_run(start, before);
    if i < before.len() {
        assert(backend_run(start, events).1[i] == asked[i]);
        law_applied_tree_follows_the_configuration(root, id, on, before, i);
        assert(before[i] == events[i]);
    } else {
        law_configuration_decides_what_is_applied(root, id, on, events.last()->Config_0);
    }
}

/// Whatever happens on the way, the tree that is saved is the tree that was just
/// loaded, switched as a configuration that came earlier says.
pub proof fn law_saved_tree_follows_the_configuration(
    root: Seq<Json>,
    id: Seq<char>,
    on: bool,
    events: Seq<BackendEventView>,
    i: int,
)
    requires
        0 <= i < events.len(),
        backend_run(BackendStateView::Locking { root, id, on }, events).1[i] is Save,
    ensures
        ({
            let action = backend_run(BackendStateView::Locking { root, id, on }, events).1[i];
            let fresh = events[i]->Loaded_0->Ok_0;
            &&& events[i] is Loaded
            &&& events[i]->Loaded_0 is Ok
            &&& action->manifest.format == fresh.format
            &&& action->manifest.schema_version == fresh.schema_version
            &&& exists|c: int|
                {
                    &&& 0 <= c < i
                    &&& (#[trigger] events[c]) is Config
                    &&& switches(
                        fresh.root,
                        id,
                        on,
                        events[c]->Config_0.choice_mode,
                        events[c]->Config_0.multi_chose_folder_switch_all,
                        action->manifest.root,
                    )
                }
        }),
{
    let actions = backend_run(BackendStateView::Locking { root, id, on }, events).1;
    law_saved_tree_is_fresh(root, id, on, events, i);
    assert(saves_fresh_tree(id, on, events, actions, i));
    let (fresh, c) = choose|fresh: ManifestView, c: int|
        {
            &&& 0 <= c < i
            &&& (#[trigger] events[c]) is Config
            &&& events[i] == BackendEventView::Loaded(Ok(fresh))
            &&& #[trigger] toggled(fresh.root, id, on, events[c]->Config_0)
                == actions[i]->Save_manifest.root
            &&& actions[i]->Save_manifest == ManifestView {
                root: toggled(fresh.root, id, on, events[c]->Config_0),
                ..fresh
            }
        };
    law_every_node_is_given_its_due(
        fresh.root,
        id,
        on,
        events[c]->Config_0.choice_mode,
        events[c]->Config_0.multi_chose_folder_switch_all,
    );
    assert(events[c] is Config);
}

/// What fails is reported as what it is, with its own words: what fails before
/// the write as a matter of storage, the write itself as a matter of applying,
/// and what fails after it as a matter of persisting.
pub proof fn law_failures_keep_their_words(
    root: Seq<Json>,
    id: Seq<char>,
    on: bool,
    config: ToggleConfigView,
    words: Seq<char>,
    error: HostsApplyErrorView,
)
    ensures
        backend_advance(
            BackendStateView::CheckingDataDir { root, id, on },
            BackendEventView::DataDir(Some(words)),
        ).1 == BackendActionView::Finish(Some(ToggleErrorView::Storage(words))),
        backend_advance(
            BackendStateView::Aggregating { id, on, config },
            BackendEventView::Aggregated(Err(words)),
        ).1 == BackendActionView::Finish(Some(ToggleErrorView::Storage(words))),
        backend_advance(
            BackendStateView::Applying { id, on, config },
            BackendEventView::Applied(Some(error)),
        ).1 == BackendActionView::Finish(Some(ToggleErrorView::Apply(error))),
        backend_advance(
            BackendStateView::Reloading { id, on, config },
            BackendEventView::Loaded(Err(words)),
        ).1 == BackendActionView::Finish(Some(ToggleErrorView::Persist(words))),
        backend_advance(BackendStateView::Saving, BackendEventView::Saved(Some(words))).1
            == BackendActionView::Finish(Some(ToggleErrorView::Persist(words))),
{
}

/// What is written is what was put together, letter for letter.
pub proof fn law_content_is_written_as_it_is(
    id: Seq<char>,
    on: bool,
    config: ToggleConfigView,
    content: Seq<char>,
)
    ensures
        backend_advance(
            BackendStateView::Aggregating { id, on, config },
            BackendEventView::Aggregated(Ok(content)),
        ) == (
            BackendStateView::Applying { id, on, config },
            BackendActionView::Apply { content },
        ),
{
}

/// Each error has its answer, whatever words it comes with, and its words are
/// kept for the log.
pub proof fn law_each_error_has_its_answer(words: Seq<char>)
    ensures
        ToggleErrorView::WriteModeUnset.body() == "write mode not set."@,
        ToggleErrorView::Apply(HostsApplyErrorView::Cancelled(words)).body() == "cancelled."@,
        ToggleErrorView::Apply(HostsApplyErrorView::Failed(words)).body() == "apply failed."@,
        ToggleErrorView::Persist(words).body() == "applied but not persisted."@,
        ToggleErrorView::Storage(words).body() == "apply failed."@,
        ToggleErrorView::WriteModeUnset.message() == "write mode is not set"@,
        ToggleErrorView::Apply(HostsApplyErrorView::Cancelled(words)).message() == words,
        ToggleErrorView::Apply(HostsApplyErrorView::Failed(words)).message() == words,
        ToggleErrorView::Persist(words).message() == "applied but failed to persist the tree: "@
            + words,
        ToggleErrorView::Storage(words).message() == words,
{
}

/// Errors stand for what they hold.
pub proof fn law_errors_are_what_they_hold(error: ToggleError)
    ensures
        match error {
            ToggleError::WriteModeUnset => error@ is WriteModeUnset,
            ToggleError::Apply(HostsApplyError::Cancelled(s)) => error@ == ToggleErrorView::Apply(
                HostsApplyErrorView::Cancelled(s@),
            ),
            ToggleError::Apply(HostsApplyError::Failed(s)) => error@ == ToggleErrorView::Apply(
                HostsApplyErrorView::Failed(s@),
            ),
            ToggleError::Persist(s) => error@ == ToggleErrorView::Persist(s@),
            ToggleError::Storage(s) => error@ == ToggleErrorView::Storage(s@),
        },
{
}

/// A configuration stands for its own fields.
pub proof fn law_configuration_is_its_fields(config: ToggleConfig)
    ensures
        config@.choice_mode == config.choice_mode,
        config@.multi_chose_folder_switch_all == config.multi_chose_folder_switch_all,
        config@.remove_duplicate_records == config.remove_duplicate_records,
        config@.write_mode == config.write_mode@,
{
}

/// What a backend toggle is told stands for what it holds.
pub proof fn law_backend_events_are_what_they_hold(event: BackendEvent)
    ensures
        match event {
            BackendEvent::Locked => event@ is Locked,
            BackendEvent::DataDir(Ok(_)) => event@ == BackendEventView::DataDir(None),
            BackendEvent::DataDir(Err(s)) => event@ == BackendEventView::DataDir(Some(s@)),
            BackendEvent::Config(config) => event@ == BackendEventView::Config(config@),
            BackendEvent::Aggregated(Ok(s)) => event@ == BackendEventView::Aggregated(Ok(s@)),
            BackendEvent::Aggregated(Err(s)) => event@ == BackendEventView::Aggregated(Err(s@)),
            BackendEvent::Applied(Ok(_)) => event@ == BackendEventView::Applied(None),
            BackendEvent::Applied(Err(e)) => event@ == BackendEventView::Applied(Some(e@)),
            BackendEvent::Loaded(Ok(m)) => event@ == BackendEventView::Loaded(Ok(m@)),
            BackendEvent::Loaded(Err(s)) => event@ == BackendEventView::Loaded(Err(s@)),
            BackendEvent::Saved(Ok(_)) => event@ == BackendEventView::Saved(None),
            BackendEvent::Saved(Err(s)) => event@ == BackendEventView::Saved(Some(s@)),
            BackendEvent::Refreshed => event@ is Refreshed,
            BackendEvent::Announced => event@ is Announced,
        },
{
}

/// What a backend toggle asks for stands for what it holds.
pub proof fn law_backend_actions_are_what_they_hold(action: BackendAction)
    ensures
        match action {
            BackendAction::Lock => action@ is Lock,
            BackendAction::CheckDataDir => action@ is CheckDataDir,
            BackendAction::ReadConfig => action@ is ReadConfig,
            BackendAction::Aggregate { root, remove_duplicate } => action@ == (
            BackendActionView::Aggregate { root: forest(root@), remove_duplicate }),
            BackendAction::Apply { content } => action@ == (BackendActionView::Apply {
                content: content@,
            }),
            BackendAction::Reload => action@ is Reload,
            BackendAction::Save { manifest } => action@ == (BackendActionView::Save {
                manifest: manifest@,
            }),
            BackendAction::RefreshTray => action@ is RefreshTray,
            BackendAction::Announce { payload } => action@ == (BackendActionView::Announce {
                payload: payload@,
            }),
            BackendAction::Wait => action@ is Wait,
            BackendAction::Finish(Ok(_)) => action@ == BackendActionView::Finish(None),
            BackendAction::Finish(Err(e)) => action@ == BackendActionView::Finish(Some(e@)),
        },
{
}

/// The state of a backend toggle stands for what it goes on with.
pub proof fn law_backend_states_are_what_they_hold(state: BackendState)
    ensures
        match state {
            BackendState::Locking { manifest, id, on } => state@ == (BackendStateView::Locking {
                root: forest(manifest.root@),
                id: id@,
                on,
            }),
            BackendState::CheckingDataDir { manifest, id, on } => state@ == (
            BackendStateView::CheckingDataDir { root: forest(manifest.root@), id: id@, on }),
            BackendState::ReadingConfig { manifest, id, on } => state@ == (
            BackendStateView::ReadingConfig { root: forest(manifest.root@), id: id@, on }),
            BackendState::Aggregating { id, on, config } => state@ == (
            BackendStateView::Aggregating { id: id@, on, config: config@ }),
            BackendState::Applying { id, on, config } => state@ == (BackendStateView::Applying {
                id: id@,
                on,
                config: config@,
            }),
            BackendState::Reloading { id, on, config } => state@ == (BackendStateView::Reloading {
                id: id@,
                on,
                config: config@,
            }),
            BackendState::Saving => state@ is Saving,
            BackendState::Refreshing => state@ is Refreshing,
            BackendState::Announcing => state@ is Announcing,
            BackendState::Done => state@ is Done,
        },
{
}

// ---- the route --------------------------------------------------------------

/// Only a request without an id, or with an empty one, is refused as `bad id.`;
/// every other goes on to the manifest with the id that it came with.
pub proof fn law_only_an_empty_id_is_bad(id: Seq<char>)
    ensures
        route_begins(None).1 == (RouteActionView::Reply { body: "bad id."@, error: None }),
        id.len() == 0 ==> route_begins(Some(id)).1 == (RouteActionView::Reply {
            body: "bad id."@,
            error: None,
        }),
        id.len() > 0 ==> route_begins(Some(id)) == (
            RouteStateView::Loading { id },
            RouteActionView::Load,
        ),
{
}

/// A request whose id no node carries is answered `not found.`, and so is one
/// for which the manifest cannot be loaded. Otherwise the toggle asks for the
/// state that the node with the id does not have, the first such node depth
/// first.
pub proof fn law_request_asks_for_the_other_state(
    manifest: ManifestView,
    id: Seq<char>,
    words: Seq<char>,
)
    ensures
        ({
            let not_found = RouteActionView::Reply { body: "not found."@, error: None };
            let loading = RouteStateView::Loading { id };
            let (next, action) = route_advance(loading, RouteEventView::Loaded(Ok(manifest)));
            &&& route_advance(loading, RouteEventView::Loaded(Err(words))).1 == not_found
            &&& unnamed(manifest.root, id) ==> action == not_found
            &&& forall|place: Seq<int>| #[trigger]
                first_place(manifest.root, place, id) ==> {
                    &&& action is LookForMainWindow
                    &&& next == (RouteStateView::Choosing {
                        manifest,
                        id,
                        on: !lit(there(manifest.root, place)->0),
                    })
                }
        }),
{
    law_search_finds_the_first_place(manifest.root, id);
    let found = first_with_id(flatten(manifest.root), id);
    assert forall|place: Seq<int>| #[trigger] first_place(manifest.root, place, id) implies found
        is Some && lit(there(manifest.root, place)->0) == found->0.is_on() by {
        assert(named_there(manifest.root, place, id));
        assert(found is Some);
        let first = choose|first: Seq<int>| #[trigger]
            first_place(manifest.root, first, id) && there(manifest.root, first) == Some(found->0);
        lemma_first_place_is_one(manifest.root, id, first, place);
        law_nodes_are_their_members(found->0);
    }
    if unnamed(manifest.root, id) && found is Some {
        let first = choose|first: Seq<int>| #[trigger]
            first_place(manifest.root, first, id) && there(manifest.root, first) == Some(found->0);
        assert(named_there(manifest.root, first, id));
    }
}

/// The main window is sent the id and the state that is asked for; without one
/// the backend is handed the manifest, the id and that state.
pub proof fn law_toggle_is_handed_on(manifest: ManifestView, id: Seq<char>, on: bool)
    ensures
        ({
            let choosing = RouteStateView::Choosing { manifest, id, on };
            let sent = route_advance(choosing, RouteEventView::MainWindow(true)).1;
            let handed = route_advance(choosing, RouteEventView::MainWindow(false)).1;
            &&& sent is Emit
            &&& carries(sent->payload, seq![Json::String(id), Json::Bool(on)])
            &&& handed == (RouteActionView::Apply { manifest, id, on })
        }),
        carries(toggle_payload(id, on), seq![Json::String(id), Json::Bool(on)]),
        carries(empty_payload(), Seq::empty()),
{
}

/// A request is answered `ok` once the toggle was sent or done, and otherwise
/// with the answer of the error that the backend met with.
pub proof fn law_request_is_told_the_outcome(error: ToggleErrorView)
    ensures
        route_advance(RouteStateView::Emitting, RouteEventView::Emitted).1 == (
        RouteActionView::Reply { body: "ok"@, error: None }),
        route_advance(RouteStateView::Applying, RouteEventView::Applied(None)).1 == (
        RouteActionView::Reply { body: "ok"@, error: None }),
        route_advance(RouteStateView::Applying, RouteEventView::Applied(Some(error))).1 == (
        RouteActionView::Reply { body: error.body(), error: Some(error) }),
{
}

/// What a request is told, asks for and goes on with stands for what it holds.
pub proof fn law_requests_are_what_they_hold(
    event: RouteEvent,
    action: RouteAction,
    state: RouteState,
)
    ensures
        match event {
            RouteEvent::Loaded(Ok(m)) => event@ == RouteEventView::Loaded(Ok(m@)),
            RouteEvent::Loaded(Err(s)) => event@ == RouteEventView::Loaded(Err(s@)),
            RouteEvent::MainWindow(alive) => event@ == RouteEventView::MainWindow(alive),
            RouteEvent::Emitted => event@ is Emitted,
            RouteEvent::Applied(Ok(_)) => event@ == RouteEventView::Applied(None),
            RouteEvent::Applied(Err(e)) => event@ == RouteEventView::Applied(Some(e@)),
        },
        match action {
            RouteAction::Load => action@ is Load,
            RouteAction::LookForMainWindow => action@ is LookForMainWindow,
            RouteAction::Emit { payload } => action@ == (RouteActionView::Emit {
                payload: payload@,
            }),
            RouteAction::Apply { manifest, id, on } => action@ == (RouteActionView::Apply {
                manifest: manifest@,
                id: id@,
                on,
            }),
            RouteAction::Wait => action@ is Wait,
            RouteAction::Reply { body, error: None } => action@ == (RouteActionView::Reply {
                body: body@,
                error: None,
            }),
            RouteAction::Reply { body, error: Some(e) } => action@ == (RouteActionView::Reply {
                body: body@,
                error: Some(e@),
            }),
        },
        match state {
            RouteState::Loading { id } => state@ == (RouteStateView::Loading { id: id@ }),
            RouteState::Choosing { manifest, id, on } => state@ == (RouteStateView::Choosing {
                manifest: manifest@,
                id: id@,
                on,
            }),
            RouteState::Emitting => state@ is Emitting,
            RouteState::Applying => state@ is Applying,
            RouteState::Done => state@ is Done,
        },
{
}

} // verus!
