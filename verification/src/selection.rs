//! Switching nodes on and off.

use vstd::prelude::*;
use vstd::slice::slice_subrange;

use crate::json::{lemma_children_smaller, Json};
use crate::selection_promises::law_every_node_is_given_its_due;
use crate::terms::switches;
use crate::tree::{
    lemma_path_to_locates, lemma_replace_same, locate, node_at, node_at_mut, node_children,
    node_children_mut, node_type, path_of, path_to, replace, steps,
};
use crate::value::{forest, lemma_forest_update, Value};

verus! {

// ---- the rules --------------------------------------------------------------

/// A node after the state `on` has cascaded to everything below it. Only
/// folders pass a state on, and single-choice folders keep it to themselves.
pub open spec fn cascaded(node: Json, on: bool) -> Json
    decreases node,
{
    proof {
        lemma_children_smaller(node);
    }
    if node.is_folder() && !node.is_single_choice() && node.children() is Some {
        let children = node.children()->0;
        node.set_children(
            Seq::new(
                children.len(),
                |i: int| if 0 <= i < children.len() {
                    cascaded(children[i], on).set_on(on)
                } else {
                    Json::Null
                },
            ),
        )
    } else {
        node
    }
}

/// A node switched to `on`, with the state cascaded below it if `cascade`.
pub open spec fn switched(node: Json, on: bool, cascade: bool) -> Json {
    if cascade {
        cascaded(node, on).set_on(on)
    } else {
        node.set_on(on)
    }
}

pub open spec fn all_on(nodes: Seq<Json>) -> bool {
    forall|i: int| 0 <= i < nodes.len() ==> (#[trigger] nodes[i]).is_on()
}

/// The state that a parent takes on when one of its children has been
/// switched to `on`: off with the child, on only once every child is on.
pub open spec fn followed(parent: Json, on: bool) -> bool {
    on && parent.children() is Some && all_on(parent.children()->0)
}

/// The forest after the ancestors of `path`, from the parent up, have followed
/// a change of the node there. The walk ends at a single-choice folder.
pub open spec fn reconciled(nodes: Seq<Json>, path: Seq<int>, on: bool) -> Seq<Json>
    decreases path.len(),
{
    if path.len() < 2 {
        nodes
    } else {
        let up = path.drop_last();
        match locate(nodes, up) {
            Some(parent) => if parent.is_single_choice() {
                nodes
            } else {
                reconciled(replace(nodes, up, parent.set_on(followed(parent, on))), up, on)
            },
            None => nodes,
        }
    }
}

/// Every node but the chosen one switched off.
pub open spec fn others_off(nodes: Seq<Json>, chosen: int, cascade: bool) -> Seq<Json> {
    Seq::new(
        nodes.len(),
        |i: int| if i == chosen { nodes[i] } else { switched(nodes[i], false, cascade) },
    )
}

/// The choice mode that holds among the siblings of the node at `path`: that
/// of the parent if it has one of its own, the default otherwise.
pub open spec fn choice_mode(nodes: Seq<Json>, path: Seq<int>, default_choice_mode: u64) -> u64 {
    if path.len() < 2 {
        default_choice_mode
    } else {
        match locate(nodes, path.drop_last()) {
            Some(parent) => match parent.folder_mode() {
                Some(mode) => mode,
                None => default_choice_mode,
            },
            None => default_choice_mode,
        }
    }
}

/// The forest after the siblings of the node at `path` have been switched off.
pub open spec fn siblings_off(nodes: Seq<Json>, path: Seq<int>, cascade: bool) -> Seq<Json> {
    if path.len() < 2 {
        others_off(nodes, path[0], cascade)
    } else {
        match locate(nodes, path.drop_last()) {
            Some(parent) => match parent.children() {
                Some(children) => replace(
                    nodes,
                    path.drop_last(),
                    parent.set_children(others_off(children, path.last(), cascade)),
                ),
                None => nodes,
            },
            None => nodes,
        }
    }
}

/// The forest after the node at `path` has been switched to `on`: the node
/// itself, with `switch_all` its descendants and its ancestors, and, if it was
/// switched on under single choice, its siblings.
pub open spec fn selected_at(
    nodes: Seq<Json>,
    path: Seq<int>,
    on: bool,
    default_choice_mode: u64,
    switch_all: bool,
) -> Seq<Json> {
    let target = switched(locate(nodes, path)->0, on, switch_all);
    let marked = replace(nodes, path, target);
    let settled = if switch_all {
        reconciled(marked, path, on)
    } else {
        marked
    };
    if on && choice_mode(settled, path, default_choice_mode) == 1 {
        siblings_off(settled, path, switch_all)
    } else {
        settled
    }
}

/// The forest after `id` has been switched to `on`. An unknown id changes
/// nothing.
pub open spec fn selected(
    nodes: Seq<Json>,
    id: Seq<char>,
    on: bool,
    default_choice_mode: u64,
    switch_all: bool,
) -> Seq<Json> {
    match path_to(nodes, id) {
        Some(path) => selected_at(nodes, path, on, default_choice_mode, switch_all),
        None => nodes,
    }
}

// ---- one node ---------------------------------------------------------------

pub fn set_node_on(node: &mut Value, on: bool)
    ensures
        final(node)@ == old(node)@.set_on(on),
{
    node.insert("on", Value::Bool(on));
}

pub fn is_on(node: &Value) -> (on: bool)
    ensures
        on == node@.is_on(),
{
    match node.get("on") {
        Some(v) => match v.as_bool() {
            Some(b) => b,
            None => false,
        },
        None => false,
    }
}

/// A folder's own choice mode. `0`/absent means "inherit the global
/// `choice_mode`".
pub fn folder_mode(node: &Value) -> (mode: Option<u64>)
    ensures
        mode == node@.folder_mode(),
{
    match node.get("folder_mode") {
        Some(v) => match v.as_u64() {
            Some(mode) => if mode != 0 {
                Some(mode)
            } else {
                None
            },
            None => None,
        },
        None => None,
    }
}

pub fn is_folder(node: &Value) -> (folder: bool)
    ensures
        folder == node@.is_folder(),
{
    match node_type(node) {
        Some(kind) => *kind == *"folder",
        None => false,
    }
}

fn is_single_choice(node: &Value) -> (single: bool)
    ensures
        single == node@.is_single_choice(),
{
    match folder_mode(node) {
        Some(mode) => mode == 1,
        None => false,
    }
}

/// Cascade `on` to every descendant of a folder. Single-choice folders
/// are left alone: their children are mutually exclusive by definition.
pub fn switch_folder_child(node: &mut Value, on: bool)
    ensures
        final(node)@ == cascaded(old(node)@, on),
    decreases old(node)@,
{
    broadcast use lemma_forest_update;

    if !is_folder(node) || is_single_choice(node) {
        return;
    }
    let ghost before = node@;
    match node_children_mut(node) {
        Some(children) => {
            let ghost all = forest(children@);
            proof {
                lemma_children_smaller(before);
            }
            let mut i: usize = 0;
            while i < children.len()
                invariant
                    before.children() == Some(all),
                    decreases_to!(before => all),
                    before == old(node)@,
                    i <= children@.len(),
                    children@.len() == all.len(),
                    forall|j: int|
                        0 <= j < i ==> #[trigger] forest(children@)[j] == cascaded(
                            all[j],
                            on,
                        ).set_on(on),
                    forall|j: int|
                        i <= j < all.len() ==> #[trigger] forest(children@)[j] == all[j],
                decreases children@.len() - i,
            {
                assert(forest(children@)[i as int] == all[i as int]);
                assert(decreases_to!(all => all[i as int]));
                let ghost prior = children@;
                let child = &mut children[i];
                switch_folder_child(child, on);
                set_node_on(child, on);
                assert(forest(children@) =~= forest(prior).update(
                    i as int,
                    cascaded(all[i as int], on).set_on(on),
                ));
                i += 1;
            }
            proof {
                assert(cascaded(before, on) == before.set_children(forest(children@))) by {
                    assert(cascaded(before, on).children()->0 =~= forest(children@));
                }
            }
        },
        None => {},
    }
}

/// Switches a node, and with `cascade` everything below it.
fn switch_node(node: &mut Value, on: bool, cascade: bool)
    ensures
        final(node)@ == switched(old(node)@, on, cascade),
{
    if cascade {
        switch_folder_child(node, on);
    }
    set_node_on(node, on);
}

/// Whether every node is on.
fn every_on(nodes: &Vec<Value>) -> (every: bool)
    ensures
        every == all_on(forest(nodes@)),
{
    let mut i: usize = 0;
    while i < nodes.len()
        invariant
            i <= nodes@.len(),
            forall|j: int| 0 <= j < i ==> (#[trigger] forest(nodes@)[j]).is_on(),
        decreases nodes@.len() - i,
    {
        assert(forest(nodes@)[i as int] == nodes@[i as int]@);
        if !is_on(&nodes[i]) {
            return false;
        }
        i += 1;
    }
    true
}

// ---- around the node --------------------------------------------------------

/// Walk up from `path`, keeping each ancestor folder's `on` in sync:
/// turning a child off turns the parent off; turning one on marks the
/// parent on only once every sibling is on.
pub fn switch_item_parent_is_on(root: &mut Vec<Value>, path: &[usize], on: bool)
    ensures
        forest(final(root)@) == reconciled(forest(old(root)@), steps(path@), on),
    decreases path@.len(),
{
    if path.len() < 2 {
        return;
    }
    let up = slice_subrange(path, 0, path.len() - 1);
    assert(steps(up@) =~= steps(path@).drop_last());
    match node_at_mut(root, up) {
        Some(parent) => {
            if is_single_choice(parent) {
                proof {
                    lemma_replace_same(forest(old(root)@), steps(up@));
                }
                return;
            }
            let state: bool = on && match node_children(parent) {
                Some(children) => every_on(children),
                None => false,
            };
            set_node_on(parent, state);
        },
        None => {
            return;
        },
    }
    switch_item_parent_is_on(root, up, on);
}

/// Switches every node but the chosen one off.
fn switch_others_off(nodes: &mut Vec<Value>, chosen: usize, cascade: bool)
    ensures
        forest(final(nodes)@) == others_off(forest(old(nodes)@), chosen as int, cascade),
{
    let ghost all = forest(nodes@);
    let mut i: usize = 0;
    while i < nodes.len()
        invariant
            i <= nodes@.len(),
            nodes@.len() == all.len(),
            forall|j: int|
                0 <= j < i ==> #[trigger] forest(nodes@)[j] == others_off(
                    all,
                    chosen as int,
                    cascade,
                )[j],
            forall|j: int| i <= j < all.len() ==> #[trigger] forest(nodes@)[j] == all[j],
        decreases nodes@.len() - i,
    {
        assert(forest(nodes@)[i as int] == all[i as int]);
        if i != chosen {
            let ghost prior = nodes@;
            switch_node(&mut nodes[i], false, cascade);
            assert(forest(nodes@) =~= forest(prior).update(
                i as int,
                switched(all[i as int], false, cascade),
            ));
        }
        i += 1;
    }
    assert(forest(nodes@) =~= others_off(all, chosen as int, cascade));
}

/// Set `id`'s on-state and apply the folder and choice-mode rules, in place
/// on the root forest.
///
/// `default_choice_mode` is the global `choice_mode` config value (`1` =
/// single choice). `multi_chose_folder_switch_all` mirrors the config flag
/// of the same name: when set, toggling a folder cascades to its children
/// and reconciles its ancestors.
pub fn set_on_state_of_item(
    root: &mut Vec<Value>,
    id: &str,
    on: bool,
    default_choice_mode: u64,
    multi_chose_folder_switch_all: bool,
)
    ensures
        forest(final(root)@) == selected(
            forest(old(root)@),
            id@,
            on,
            default_choice_mode,
            multi_chose_folder_switch_all,
        ),
        switches(
            forest(old(root)@),
            id@,
            on,
            default_choice_mode,
            multi_chose_folder_switch_all,
            forest(final(root)@),
        ),
{
    proof {
        law_every_node_is_given_its_due(
            forest(root@),
            id@,
            on,
            default_choice_mode,
            multi_chose_folder_switch_all,
        );
    }
    let path = match path_of(root.as_slice(), id) {
        Some(path) => path,
        None => {
            return;
        },
    };
    let ghost place = steps(path@);
    proof {
        lemma_path_to_locates(forest(root@), id@);
    }
    if let Some(node) = node_at_mut(root, path.as_slice()) {
        switch_node(node, on, multi_chose_folder_switch_all);
    }
    if multi_chose_folder_switch_all {
        switch_item_parent_is_on(root, path.as_slice(), on);
    }
    // Turning something off never forces anything else on.
    if !on {
        return;
    }
    if path.len() == 1 {
        if default_choice_mode == 1 {
            switch_others_off(root, path[0], multi_chose_folder_switch_all);
        }
        return;
    }
    let up = slice_subrange(path.as_slice(), 0, path.len() - 1);
    assert(steps(up@) =~= place.drop_last());
    let mode: u64 = match node_at(root.as_slice(), up) {
        Some(parent) => match folder_mode(parent) {
            Some(mode) => mode,
            None => default_choice_mode,
        },
        None => default_choice_mode,
    };
    if mode != 1 {
        return;
    }
    let chosen: usize = path[path.len() - 1];
    let ghost settled = forest(root@);
    if let Some(parent) = node_at_mut(root, up) {
        if let Some(children) = node_children_mut(parent) {
            switch_others_off(children, chosen, multi_chose_folder_switch_all);
        } else {
            proof {
                lemma_replace_same(settled, steps(up@));
            }
        }
    }
}

} // verus!
