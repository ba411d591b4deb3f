//! What holds of switching nodes on and off.

use vstd::prelude::*;

use crate::json::{lemma_children_smaller, lemma_keys, Json};
use crate::selection::{
    all_on, cascaded, choice_mode, followed, others_off, reconciled, selected, siblings_off,
    switched,
};
use crate::tree::{
    first_with_id, flatten, lemma_path_to_locates, lemma_replace_same, locate, path_from, path_in,
    path_to, replace,
};
use crate::tree_laws::{law_path_leads_to_found, lemma_set_children};

verus! {

// ---- one node ---------------------------------------------------------------

/// `after` is `before` with another state, and with other nodes below it.
pub open spec fn kin(before: Json, after: Json) -> bool {
    &&& before is Object <==> after is Object
    &&& !(before is Object) ==> after == before
    &&& forall|key: Seq<char>|
        key != "on"@ && key != "children"@ ==> #[trigger] after.get(key) == before.get(key)
    &&& after.children() is Some <==> before.children() is Some
    &&& before.children() is None ==> after.get("children"@) == before.get("children"@)
}

/// Switching a node leaves all else of it; what is no object has no state.
pub proof fn lemma_set_on(node: Json, on: bool)
    ensures
        kin(node, node.set_on(on)),
        node is Object ==> node.set_on(on).get("on"@) == Some(Json::Bool(on)),
        node.set_on(on).children() == node.children(),
        node.set_on(on).id() == node.id(),
        node.set_on(on).kind() == node.kind(),
        node.set_on(on).folder_mode() == node.folder_mode(),
        node is Object ==> node.set_on(on).is_on() == on,
        !(node is Object) ==> !node.set_on(on).is_on(),
        forall|other: bool| node.set_on(other).set_on(on) == #[trigger] node.set_on(on),
{
    lemma_keys();
    if node is Object {
        let members = node->Object_0;
        assert forall|other: bool| node.set_on(other).set_on(on) == #[trigger] node.set_on(on) by {
            assert(members.insert("on"@, Json::Bool(other)).insert("on"@, Json::Bool(on))
                =~= members.insert("on"@, Json::Bool(on)));
        }
    }
}

/// Setting the children of a node that has some leaves all else of it.
pub proof fn lemma_set_children_kin(node: Json, children: Seq<Json>)
    requires
        node.children() is Some,
    ensures
        kin(node, node.set_children(children)),
        node.set_children(children).get("on"@) == node.get("on"@),
{
    lemma_keys();
    lemma_set_children(node, children);
}

/// A cascade changes nothing of a node but its children.
pub proof fn lemma_cascaded(node: Json, on: bool)
    ensures
        kin(node, cascaded(node, on)),
        cascaded(node, on).get("on"@) == node.get("on"@),
        cascaded(node, on).id() == node.id(),
        cascaded(node, on).kind() == node.kind(),
        cascaded(node, on).folder_mode() == node.folder_mode(),
        cascaded(node, on).is_on() == node.is_on(),
        cascaded(node, on) is Object <==> node is Object,
{
    if node.is_folder() && !node.is_single_choice() && node.children() is Some {
        lemma_set_children(node, cascaded(node, on).children()->0);
        lemma_set_children_kin(node, cascaded(node, on).children()->0);
    }
}

// ---- places -----------------------------------------------------------------

pub proof fn lemma_locate_prefix(nodes: Seq<Json>, path: Seq<int>, k: int)
    requires
        locate(nodes, path) is Some,
        0 < k < path.len(),
    ensures
        locate(nodes, path.take(k)) is Some,
        locate(nodes, path.take(k))->0.children() is Some,
        locate(locate(nodes, path.take(k))->0.children()->0, path.skip(k)) == locate(nodes, path),
    decreases k,
{
    let children = nodes[path[0]].children()->0;
    let rest = path.drop_first();
    if k == 1 {
        assert(path.skip(1) =~= rest);
    } else {
        lemma_locate_prefix(children, rest, k - 1);
        assert(rest.take(k - 1) =~= path.take(k).drop_first());
        assert(rest.skip(k - 1) =~= path.skip(k));
    }
}

/// A path that goes on below a node.
pub proof fn lemma_locate_below(nodes: Seq<Json>, path: Seq<int>, rest: Seq<int>)
    requires
        locate(nodes, path) is Some,
        rest.len() > 0,
    ensures
        locate(nodes, path + rest) == (match locate(nodes, path)->0.children() {
            Some(children) => locate(children, rest),
            None => None,
        }),
    decreases path.len(),
{
    let whole = path + rest;
    if path.len() == 1 {
        assert(whole.drop_first() =~= rest);
    } else {
        lemma_locate_below(nodes[path[0]].children()->0, path.drop_first(), rest);
        assert(whole.drop_first() =~= path.drop_first() + rest);
    }
}

proof fn lemma_locate_replaced(nodes: Seq<Json>, path: Seq<int>, node: Json)
    requires
        locate(nodes, path) is Some,
    ensures
        locate(replace(nodes, path, node), path) == Some(node),
    decreases path.len(),
{
    if path.len() > 1 {
        let top = nodes[path[0]];
        let children = top.children()->0;
        lemma_locate_replaced(children, path.drop_first(), node);
        lemma_set_children(top, replace(children, path.drop_first(), node));
    }
}

/// Replacing a node changes nothing of the nodes above it but their children.
proof fn lemma_locate_above_replaced(nodes: Seq<Json>, path: Seq<int>, node: Json, k: int)
    requires
        locate(nodes, path) is Some,
        0 < k < path.len(),
    ensures
        locate(nodes, path.take(k)) is Some,
        locate(nodes, path.take(k))->0.children() is Some,
        locate(replace(nodes, path, node), path.take(k)) == Some(
            locate(nodes, path.take(k))->0.set_children(
                replace(locate(nodes, path.take(k))->0.children()->0, path.skip(k), node),
            ),
        ),
    decreases k,
{
    let top = nodes[path[0]];
    let children = top.children()->0;
    let rest = path.drop_first();
    lemma_set_children(top, replace(children, rest, node));
    if k == 1 {
        assert(path.skip(1) =~= rest);
    } else {
        lemma_locate_above_replaced(children, rest, node, k - 1);
        assert(rest.take(k - 1) =~= path.take(k).drop_first());
        assert(rest.skip(k - 1) =~= path.skip(k));
    }
}

/// Two paths that part ways at step `d`.
pub open spec fn diverge(path: Seq<int>, other: Seq<int>, d: int) -> bool {
    &&& 0 <= d < path.len()
    &&& d < other.len()
    &&& other.take(d) == path.take(d)
    &&& other[d] != path[d]
}

proof fn lemma_locate_beside_replaced(
    nodes: Seq<Json>,
    path: Seq<int>,
    node: Json,
    other: Seq<int>,
    d: int,
)
    requires
        diverge(path, other, d),
    ensures
        locate(replace(nodes, path, node), other) == locate(nodes, other),
    decreases path.len(),
{
    if 0 <= path[0] < nodes.len() && d > 0 {
        assert(other.take(d)[0] == path.take(d)[0]);
        let top = nodes[path[0]];
        if top.children() is Some {
            let children = top.children()->0;
            lemma_set_children(top, replace(children, path.drop_first(), node));
            assert(other.drop_first().take(d - 1) =~= other.take(d).drop_first());
            assert(path.drop_first().take(d - 1) =~= path.take(d).drop_first());
            lemma_locate_beside_replaced(
                children,
                path.drop_first(),
                node,
                other.drop_first(),
                d - 1,
            );
        }
    }
}

/// Replacing a node by one with the same children changes nothing below it.
proof fn lemma_locate_below_replaced(
    nodes: Seq<Json>,
    path: Seq<int>,
    node: Json,
    rest: Seq<int>,
)
    requires
        locate(nodes, path) is Some,
        locate(nodes, path)->0.children() == node.children(),
        rest.len() > 0,
    ensures
        locate(replace(nodes, path, node), path + rest) == locate(nodes, path + rest),
{
    lemma_locate_replaced(nodes, path, node);
    lemma_locate_below(nodes, path, rest);
    lemma_locate_below(replace(nodes, path, node), path, rest);
}

// ---- the ancestors ----------------------------------------------------------

/// Whether no single-choice folder stands on the way from the parent of the
/// node at `path` up to its ancestor at `path.take(k)`, that ancestor included.
pub open spec fn reached(nodes: Seq<Json>, path: Seq<int>, k: int) -> bool {
    forall|m: int|
        k <= m < path.len() ==> !locate(nodes, #[trigger] path.take(m))->0.is_single_choice()
}

/// What the ancestors look like once they have followed the node at `path`.
pub open spec fn ancestor_follows(
    nodes: Seq<Json>,
    result: Seq<Json>,
    path: Seq<int>,
    on: bool,
    k: int,
) -> bool {
    let before = locate(nodes, path.take(k))->0;
    let after = locate(result, path.take(k))->0;
    &&& locate(result, path.take(k)) is Some
    &&& kin(before, after)
    &&& after.id() == before.id()
    &&& after.kind() == before.kind()
    &&& after.folder_mode() == before.folder_mode()
    &&& after.children() is Some
    &&& if reached(nodes, path, k) {
        after.get("on"@) == Some(Json::Bool(on && all_on(after.children()->0)))
    } else {
        after.get("on"@) == before.get("on"@)
    }
}

pub proof fn lemma_reconciled(nodes: Seq<Json>, path: Seq<int>, on: bool)
    requires
        locate(nodes, path) is Some,
    ensures
        locate(reconciled(nodes, path, on), path) == locate(nodes, path),
        forall|rest: Seq<int>|
            rest.len() > 0 ==> #[trigger] locate(reconciled(nodes, path, on), path + rest)
                == locate(nodes, path + rest),
        forall|other: Seq<int>, d: int| #[trigger]
            diverge(path, other, d) ==> locate(reconciled(nodes, path, on), other) == locate(
                nodes,
                other,
            ),
        forall|k: int|
            0 < k < path.len() ==> #[trigger] ancestor_follows(
                nodes,
                reconciled(nodes, path, on),
                path,
                on,
                k,
            ),
    decreases path.len(),
{
    let result = reconciled(nodes, path, on);
    if path.len() >= 2 {
        let last = path.len() - 1;
        let up = path.drop_last();
        assert(up =~= path.take(last));
        lemma_locate_prefix(nodes, path, last);
        let parent = locate(nodes, up)->0;
        if parent.is_single_choice() {
            assert forall|k: int| 0 < k < path.len() implies #[trigger] ancestor_follows(
                nodes,
                result,
                path,
                on,
                k,
            ) by {
                lemma_locate_prefix(nodes, path, k);
                assert(path.take(last) == up);
                assert(!reached(nodes, path, k));
            }
        } else {
            let marked = parent.set_on(followed(parent, on));
            let next = replace(nodes, up, marked);
            lemma_set_on(parent, followed(parent, on));
            lemma_locate_replaced(nodes, up, marked);
            lemma_reconciled(next, up, on);
            assert forall|rest: Seq<int>| rest.len() > 0 implies #[trigger] locate(
                result,
                path + rest,
            ) == locate(nodes, path + rest) by {
                let longer = seq![path.last()] + rest;
                assert(path + rest =~= up + longer);
                lemma_locate_below_replaced(nodes, up, marked, longer);
                assert(locate(result, up + longer) == locate(next, up + longer));
            }
            assert(locate(result, path) == locate(nodes, path)) by {
                let one = seq![path.last()];
                assert(path =~= up + one);
                lemma_locate_below_replaced(nodes, up, marked, one);
                assert(locate(result, up + one) == locate(next, up + one));
            }
            assert forall|other: Seq<int>, d: int| #[trigger]
                diverge(path, other, d) implies locate(result, other) == locate(nodes, other) by {
                if d < last {
                    assert(up.take(d) =~= path.take(d));
                    assert(diverge(up, other, d));
                    lemma_locate_beside_replaced(nodes, up, marked, other, d);
                } else {
                    let tail = other.skip(d);
                    assert(other =~= other.take(d) + tail);
                    assert(other =~= up + tail);
                    lemma_locate_below_replaced(nodes, up, marked, tail);
                    assert(locate(result, up + tail) == locate(next, up + tail));
                }
            }
            assert forall|k: int| 0 < k < path.len() implies #[trigger] ancestor_follows(
                nodes,
                result,
                path,
                on,
                k,
            ) by {
                if k == last {
                    assert(path.take(k) == up);
                    assert(reached(nodes, path, k));
                    assert(locate(result, up) == Some(marked));
                } else {
                    assert(up.take(k) =~= path.take(k));
                    assert(ancestor_follows(next, result, up, on, k));
                    lemma_above_keeps_modes(nodes, up, marked, k);
                    assert(reached(nodes, path, k) == reached(next, up, k)) by {
                        lemma_reached_replaced(nodes, path, marked, k);
                    }
                }
            }
        }
    }
}

proof fn lemma_above_keeps_modes(nodes: Seq<Json>, path: Seq<int>, node: Json, k: int)
    requires
        locate(nodes, path) is Some,
        0 < k < path.len(),
    ensures
        locate(nodes, path.take(k)) is Some,
        ({
            let before = locate(nodes, path.take(k))->0;
            let after = locate(replace(nodes, path, node), path.take(k))->0;
            &&& locate(replace(nodes, path, node), path.take(k)) is Some
            &&& kin(before, after)
            &&& after.id() == before.id()
            &&& after.kind() == before.kind()
            &&& after.folder_mode() == before.folder_mode()
            &&& after.get("on"@) == before.get("on"@)
        }),
{
    lemma_locate_above_replaced(nodes, path, node, k);
    let before = locate(nodes, path.take(k))->0;
    lemma_set_children(before, replace(before.children()->0, path.skip(k), node));
    lemma_set_children_kin(before, replace(before.children()->0, path.skip(k), node));
}

proof fn lemma_reached_replaced(nodes: Seq<Json>, path: Seq<int>, marked: Json, k: int)
    requires
        path.len() >= 2,
        locate(nodes, path.drop_last()) is Some,
        !locate(nodes, path.drop_last())->0.is_single_choice(),
        0 < k < path.len() - 1,
    ensures
        reached(nodes, path, k) == reached(
            replace(nodes, path.drop_last(), marked),
            path.drop_last(),
            k,
        ),
{
    let up = path.drop_last();
    let next = replace(nodes, up, marked);
    assert forall|m: int| k <= m < up.len() implies locate(nodes, #[trigger] path.take(
        m,
    ))->0.is_single_choice() == locate(next, up.take(m))->0.is_single_choice() by {
        assert(up.take(m) =~= path.take(m));
        lemma_above_keeps_modes(nodes, up, marked, m);
    }
    if reached(nodes, path, k) {
        assert forall|m: int| k <= m < up.len() implies !locate(
            next,
            #[trigger] up.take(m),
        )->0.is_single_choice() by {
            assert(up.take(m) =~= path.take(m));
            assert(!locate(nodes, path.take(m))->0.is_single_choice());
        }
    }
    if reached(next, up, k) {
        assert forall|m: int| k <= m < path.len() implies !locate(
            nodes,
            #[trigger] path.take(m),
        )->0.is_single_choice() by {
            if m < up.len() {
                assert(!locate(next, up.take(m))->0.is_single_choice());
            } else {
                assert(path.take(m) =~= up);
            }
        }
    }
}

// ---- the whole rule ---------------------------------------------------------

/// The forest after the node, what is below it and what is above it have been
/// switched, before its siblings are.
pub open spec fn settled(nodes: Seq<Json>, path: Seq<int>, on: bool, switch_all: bool) -> Seq<Json> {
    let marked = replace(nodes, path, switched(locate(nodes, path)->0, on, switch_all));
    if switch_all {
        reconciled(marked, path, on)
    } else {
        marked
    }
}

/// Whether switching the node at `path` to `on` switches its siblings off.
pub open spec fn excludes_siblings(
    nodes: Seq<Json>,
    path: Seq<int>,
    on: bool,
    default_choice_mode: u64,
) -> bool {
    on && choice_mode(nodes, path, default_choice_mode) == 1
}

/// What the ancestor at `path.take(k)` looks like in the result.
pub open spec fn ancestor_settles(
    nodes: Seq<Json>,
    result: Seq<Json>,
    path: Seq<int>,
    on: bool,
    switch_all: bool,
    k: int,
) -> bool {
    let before = locate(nodes, path.take(k))->0;
    let after = locate(result, path.take(k))->0;
    &&& locate(nodes, path.take(k)) is Some
    &&& locate(result, path.take(k)) is Some
    &&& kin(before, after)
    &&& after.folder_mode() == before.folder_mode()
    &&& after.children() is Some
    &&& if switch_all && reached(nodes, path, k) {
        after.get("on"@) == Some(Json::Bool(on && all_on(after.children()->0)))
    } else {
        after.get("on"@) == before.get("on"@)
    }
}

pub proof fn lemma_settled(nodes: Seq<Json>, path: Seq<int>, on: bool, switch_all: bool)
    requires
        locate(nodes, path) is Some,
    ensures
        locate(settled(nodes, path, on, switch_all), path) == Some(
            switched(locate(nodes, path)->0, on, switch_all),
        ),
        forall|other: Seq<int>, d: int| #[trigger]
            diverge(path, other, d) ==> locate(settled(nodes, path, on, switch_all), other)
                == locate(nodes, other),
        forall|k: int|
            0 < k < path.len() ==> #[trigger] ancestor_settles(
                nodes,
                settled(nodes, path, on, switch_all),
                path,
                on,
                switch_all,
                k,
            ),
{
    let target = switched(locate(nodes, path)->0, on, switch_all);
    let marked = replace(nodes, path, target);
    let result = settled(nodes, path, on, switch_all);
    lemma_locate_replaced(nodes, path, target);
    if switch_all {
        lemma_reconciled(marked, path, on);
    }
    assert forall|other: Seq<int>, d: int| #[trigger] diverge(path, other, d) implies locate(
        result,
        other,
    ) == locate(nodes, other) by {
        lemma_locate_beside_replaced(nodes, path, target, other, d);
    }
    assert forall|k: int| 0 < k < path.len() implies #[trigger] ancestor_settles(
        nodes,
        result,
        path,
        on,
        switch_all,
        k,
    ) by {
        lemma_above_keeps_modes(nodes, path, target, k);
        if switch_all {
            assert(ancestor_follows(marked, result, path, on, k));
            assert(reached(nodes, path, k) == reached(marked, path, k)) by {
                assert forall|m: int| k <= m < path.len() implies locate(
                    nodes,
                    #[trigger] path.take(m),
                )->0.is_single_choice() == locate(marked, path.take(m))->0.is_single_choice() by {
                    lemma_above_keeps_modes(nodes, path, target, m);
                }
            }
        } else {
            lemma_locate_prefix(result, path, k);
        }
    }
}

pub proof fn lemma_same_choice_mode(
    nodes: Seq<Json>,
    path: Seq<int>,
    on: bool,
    switch_all: bool,
    default_choice_mode: u64,
)
    requires
        locate(nodes, path) is Some,
    ensures
        choice_mode(settled(nodes, path, on, switch_all), path, default_choice_mode)
            == choice_mode(nodes, path, default_choice_mode),
{
    if path.len() >= 2 {
        lemma_settled(nodes, path, on, switch_all);
        let last = path.len() - 1;
        assert(path.drop_last() =~= path.take(last));
        assert(ancestor_settles(
            nodes,
            settled(nodes, path, on, switch_all),
            path,
            on,
            switch_all,
            last,
        ));
    }
}

/// The place of the `j`-th sibling of the node at `path`.
pub open spec fn sibling(path: Seq<int>, j: int) -> Seq<int> {
    path.drop_last().push(j)
}

pub proof fn lemma_siblings_off(nodes: Seq<Json>, path: Seq<int>, cascade: bool)
    requires
        locate(nodes, path) is Some,
    ensures
        locate(siblings_off(nodes, path, cascade), path) == locate(nodes, path),
        forall|other: Seq<int>, d: int| #[trigger]
            diverge(path, other, d) && d < path.len() - 1 ==> locate(
                siblings_off(nodes, path, cascade),
                other,
            ) == locate(nodes, other),
        forall|j: int|
            j != path.last() ==> #[trigger] locate(
                siblings_off(nodes, path, cascade),
                sibling(path, j),
            ) == (match locate(nodes, sibling(path, j)) {
                Some(node) => Some(switched(node, false, cascade)),
                None => None,
            }),
        forall|k: int|
            0 < k < path.len() ==> {
                let before = locate(nodes, #[trigger] path.take(k));
                let after = locate(siblings_off(nodes, path, cascade), path.take(k));
                &&& before is Some
                &&& after is Some
                &&& after->0.children() is Some
                &&& before->0.children() is Some
                &&& kin(before->0, after->0)
                &&& after->0.folder_mode() == before->0.folder_mode()
                &&& after->0.get("on"@) == before->0.get("on"@)
                &&& k < path.len() - 1 ==> all_on(after->0.children()->0) == all_on(
                    before->0.children()->0,
                )
            },
{
    let result = siblings_off(nodes, path, cascade);
    if path.len() == 1 {
        assert forall|j: int| j != path.last() implies #[trigger] locate(result, sibling(path, j))
            == (match locate(nodes, sibling(path, j)) {
            Some(node) => Some(switched(node, false, cascade)),
            None => None,
        }) by {
            assert(sibling(path, j) =~= seq![j]);
        }
    } else {
        let last = path.len() - 1;
        let up = path.drop_last();
        assert(up =~= path.take(last));
        lemma_locate_prefix(nodes, path, last);
        let parent = locate(nodes, up)->0;
        let children = parent.children()->0;
        let fewer = others_off(children, path.last(), cascade);
        let changed = parent.set_children(fewer);
        lemma_set_children(parent, fewer);
        lemma_set_children_kin(parent, fewer);
        lemma_locate_replaced(nodes, up, changed);
        assert(path =~= up + seq![path.last()]);
        lemma_locate_below(nodes, up, seq![path.last()]);
        lemma_locate_below(result, up, seq![path.last()]);
        assert forall|other: Seq<int>, d: int| #[trigger] diverge(path, other, d) && d < path.len()
            - 1 implies locate(result, other) == locate(nodes, other) by {
            assert(up.take(d) =~= path.take(d));
            assert(diverge(up, other, d));
            lemma_locate_beside_replaced(nodes, up, changed, other, d);
        }
        assert forall|j: int| j != path.last() implies #[trigger] locate(result, sibling(path, j))
            == (match locate(nodes, sibling(path, j)) {
            Some(node) => Some(switched(node, false, cascade)),
            None => None,
        }) by {
            assert(sibling(path, j) =~= up + seq![j]);
            lemma_locate_below(nodes, up, seq![j]);
            lemma_locate_below(result, up, seq![j]);
        }
        assert forall|k: int| 0 < k < path.len() implies {
            let before = locate(nodes, #[trigger] path.take(k));
            let after = locate(result, path.take(k));
            &&& before is Some
            &&& after is Some
            &&& after->0.children() is Some
            &&& before->0.children() is Some
            &&& kin(before->0, after->0)
            &&& after->0.folder_mode() == before->0.folder_mode()
            &&& after->0.get("on"@) == before->0.get("on"@)
            &&& k < path.len() - 1 ==> all_on(after->0.children()->0) == all_on(
                before->0.children()->0,
            )
        } by {
            lemma_locate_prefix(nodes, path, k);
            if k < last {
                assert(up.take(k) =~= path.take(k));
                lemma_locate_above_replaced(nodes, up, changed, k);
                let before = locate(nodes, path.take(k))->0;
                let inner = before.children()->0;
                let grown = replace(inner, up.skip(k), changed);
                lemma_set_children(before, grown);
                lemma_set_children_kin(before, grown);
                lemma_locate_prefix(nodes, up, k);
                lemma_all_on_replaced(inner, up.skip(k), changed);
            } else {
                assert(path.take(k) == up);
            }
        }
    }
}

/// Whether all nodes of a level are on does not depend on what is below them,
/// nor on replacing one of them by a node in the same state.
proof fn lemma_all_on_replaced(nodes: Seq<Json>, path: Seq<int>, node: Json)
    requires
        locate(nodes, path) is Some,
        locate(nodes, path)->0.is_on() == node.is_on(),
    ensures
        all_on(replace(nodes, path, node)) == all_on(nodes),
{
    let i = path[0];
    let result = replace(nodes, path, node);
    if path.len() > 1 {
        lemma_set_children(
            nodes[i],
            replace(nodes[i].children()->0, path.drop_first(), node),
        );
    }
    assert(result[i].is_on() == nodes[i].is_on());
    assert forall|j: int| 0 <= j < nodes.len() implies #[trigger] result[j].is_on()
        == nodes[j].is_on() by {}
    if all_on(result) {
        assert forall|j: int| 0 <= j < nodes.len() implies (#[trigger] nodes[j]).is_on() by {
            assert(result[j].is_on());
        }
    }
}

/// The selected node is switched, and with `switch_all` so is everything that
/// the cascade reaches below it; whatever else the rule does leaves it so.
pub proof fn law_target_is_switched(
    nodes: Seq<Json>,
    id: Seq<char>,
    on: bool,
    default_choice_mode: u64,
    switch_all: bool,
)
    requires
        path_to(nodes, id) is Some,
    ensures
        locate(nodes, path_to(nodes, id)->0) is Some,
        locate(
            selected(nodes, id, on, default_choice_mode, switch_all),
            path_to(nodes, id)->0,
        ) == Some(switched(locate(nodes, path_to(nodes, id)->0)->0, on, switch_all)),
        switched(locate(nodes, path_to(nodes, id)->0)->0, on, switch_all).is_on() == on,
        switched(locate(nodes, path_to(nodes, id)->0)->0, on, switch_all).id() == Some(id),
{
    lemma_path_to_locates(nodes, id);
    let path = path_to(nodes, id)->0;
    let before = settled(nodes, path, on, switch_all);
    lemma_settled(nodes, path, on, switch_all);
    lemma_siblings_off(before, path, switch_all);
    let node = locate(nodes, path)->0;
    lemma_cascaded(node, on);
    lemma_set_on(node, on);
    lemma_set_on(cascaded(node, on), on);
}

/// What stands neither above nor below the selected node is left alone, but
/// for the siblings, and what is below them, under single choice.
pub proof fn law_elsewhere_unchanged(
    nodes: Seq<Json>,
    id: Seq<char>,
    on: bool,
    default_choice_mode: u64,
    switch_all: bool,
    other: Seq<int>,
    d: int,
)
    requires
        path_to(nodes, id) is Some,
        diverge(path_to(nodes, id)->0, other, d),
        d < path_to(nodes, id)->0.len() - 1 || !excludes_siblings(
            nodes,
            path_to(nodes, id)->0,
            on,
            default_choice_mode,
        ),
    ensures
        locate(selected(nodes, id, on, default_choice_mode, switch_all), other) == locate(
            nodes,
            other,
        ),
{
    lemma_path_to_locates(nodes, id);
    let path = path_to(nodes, id)->0;
    lemma_settled(nodes, path, on, switch_all);
    lemma_same_choice_mode(nodes, path, on, switch_all, default_choice_mode);
    lemma_siblings_off(settled(nodes, path, on, switch_all), path, switch_all);
}

/// Single choice: when a node is switched on where the choice mode is single,
/// each of its siblings is switched off, with `switch_all` down to what the
/// cascade reaches.
pub proof fn law_single_choice_excludes_siblings(
    nodes: Seq<Json>,
    id: Seq<char>,
    default_choice_mode: u64,
    switch_all: bool,
    j: int,
)
    requires
        path_to(nodes, id) is Some,
        excludes_siblings(nodes, path_to(nodes, id)->0, true, default_choice_mode),
        j != path_to(nodes, id)->0.last(),
        locate(nodes, sibling(path_to(nodes, id)->0, j)) is Some,
    ensures
        locate(
            selected(nodes, id, true, default_choice_mode, switch_all),
            sibling(path_to(nodes, id)->0, j),
        ) == Some(
            switched(locate(nodes, sibling(path_to(nodes, id)->0, j))->0, false, switch_all),
        ),
        !switched(
            locate(nodes, sibling(path_to(nodes, id)->0, j))->0,
            false,
            switch_all,
        ).is_on(),
{
    lemma_path_to_locates(nodes, id);
    let path = path_to(nodes, id)->0;
    let place = sibling(path, j);
    lemma_settled(nodes, path, true, switch_all);
    lemma_same_choice_mode(nodes, path, true, switch_all, default_choice_mode);
    lemma_siblings_off(settled(nodes, path, true, switch_all), path, switch_all);
    let d = path.len() - 1;
    assert(place.take(d) =~= path.take(d));
    assert(diverge(path, place, d));
    let node = locate(nodes, place)->0;
    lemma_cascaded(node, false);
    lemma_set_on(node, false);
    lemma_set_on(cascaded(node, false), false);
}

/// With `switch_all`, each ancestor that the walk reaches is on exactly when
/// the node was switched on and all children of that ancestor are on. The one
/// exception is a parent whose other children single choice has just switched
/// off.
pub proof fn law_ancestors_follow(
    nodes: Seq<Json>,
    id: Seq<char>,
    on: bool,
    default_choice_mode: u64,
    k: int,
)
    requires
        path_to(nodes, id) is Some,
        0 < k < path_to(nodes, id)->0.len(),
        reached(nodes, path_to(nodes, id)->0, k),
        k < path_to(nodes, id)->0.len() - 1 || !excludes_siblings(
            nodes,
            path_to(nodes, id)->0,
            on,
            default_choice_mode,
        ),
    ensures
        ({
            let after = locate(
                selected(nodes, id, on, default_choice_mode, true),
                path_to(nodes, id)->0.take(k),
            );
            &&& after is Some
            &&& after->0.children() is Some
            &&& after->0.is_on() == (on && all_on(after->0.children()->0))
        }),
{
    lemma_path_to_locates(nodes, id);
    let path = path_to(nodes, id)->0;
    let before = settled(nodes, path, on, true);
    lemma_settled(nodes, path, on, true);
    lemma_same_choice_mode(nodes, path, on, true, default_choice_mode);
    lemma_siblings_off(before, path, true);
    assert(ancestor_settles(nodes, before, path, on, true, k));
    assert(locate(before, path.take(k)) is Some);
}

/// An ancestor keeps its state where a single-choice folder stands between it
/// and the node, or where it is one itself; without `switch_all` every
/// ancestor does.
pub proof fn law_other_ancestors_keep_their_state(
    nodes: Seq<Json>,
    id: Seq<char>,
    on: bool,
    default_choice_mode: u64,
    switch_all: bool,
    k: int,
)
    requires
        path_to(nodes, id) is Some,
        0 < k < path_to(nodes, id)->0.len(),
        !switch_all || !reached(nodes, path_to(nodes, id)->0, k),
    ensures
        ({
            let before = locate(nodes, path_to(nodes, id)->0.take(k));
            let after = locate(
                selected(nodes, id, on, default_choice_mode, switch_all),
                path_to(nodes, id)->0.take(k),
            );
            &&& before is Some
            &&& after is Some
            &&& after->0.is_on() == before->0.is_on()
        }),
{
    lemma_path_to_locates(nodes, id);
    let path = path_to(nodes, id)->0;
    let before = settled(nodes, path, on, switch_all);
    lemma_settled(nodes, path, on, switch_all);
    lemma_siblings_off(before, path, switch_all);
    assert(ancestor_settles(nodes, before, path, on, switch_all, k));
    assert(locate(before, path.take(k)) is Some);
}

/// An id that no node has changes nothing.
pub proof fn law_unknown_id_changes_nothing(
    nodes: Seq<Json>,
    id: Seq<char>,
    on: bool,
    default_choice_mode: u64,
    switch_all: bool,
)
    requires
        first_with_id(flatten(nodes), id) is None,
    ensures
        selected(nodes, id, on, default_choice_mode, switch_all) == nodes,
{
    law_path_leads_to_found(nodes, id);
}

// ---- the cascade ------------------------------------------------------------

/// Whether a node passes a state on to its children.
pub open spec fn passes_on(node: Json) -> bool {
    node.is_folder() && !node.is_single_choice()
}

/// A state that cascades from a node reaches the node at `path` below it if
/// every node in between passes it on: that node takes on the state, and so
/// does what its own cascade reaches.
pub proof fn law_cascade_reaches(node: Json, on: bool, path: Seq<int>)
    requires
        passes_on(node),
        node.children() is Some,
        locate(node.children()->0, path) is Some,
        forall|m: int|
            0 < m < path.len() ==> passes_on(locate(node.children()->0, #[trigger] path.take(m))->0),
    ensures
        cascaded(node, on).children() is Some,
        locate(cascaded(node, on).children()->0, path) == Some(
            switched(locate(node.children()->0, path)->0, on, true),
        ),
        locate(node.children()->0, path)->0 is Object ==> switched(
            locate(node.children()->0, path)->0,
            on,
            true,
        ).is_on() == on,
    decreases path.len(),
{
    let children = node.children()->0;
    let result = cascaded(node, on).children()->0;
    lemma_set_children(node, result);
    let i = path[0];
    let child = children[i];
    assert(result[i] == cascaded(child, on).set_on(on));
    lemma_set_on(cascaded(child, on), on);
    lemma_cascaded(child, on);
    if path.len() > 1 {
        let rest = path.drop_first();
        assert(path.take(1) =~= seq![i]);
        assert(locate(children, path.take(1)) == Some(child));
        assert forall|m: int| 0 < m < rest.len() implies passes_on(
            locate(child.children()->0, #[trigger] rest.take(m))->0,
        ) by {
            assert(path.take(m + 1).drop_first() =~= rest.take(m));
            assert(passes_on(locate(children, path.take(m + 1))->0));
        }
        law_cascade_reaches(child, on, rest);
    }
    let target = locate(children, path)->0;
    lemma_set_on(cascaded(target, on), on);
    lemma_cascaded(target, on);
}

/// A node that is no folder, and a single-choice folder, pass nothing on.
pub proof fn law_cascade_stops(node: Json, on: bool)
    requires
        !passes_on(node),
    ensures
        cascaded(node, on) == node,
        switched(node, on, true) == node.set_on(on),
{
}

/// Of two cascades the last one decides alone.
pub proof fn law_last_cascade_decides(node: Json, first: bool, last: bool)
    ensures
        cascaded(cascaded(node, first), last) == cascaded(node, last),
    decreases node,
{
    lemma_children_smaller(node);
    lemma_cascaded(node, first);
    if passes_on(node) && node.children() is Some {
        let children = node.children()->0;
        let once = cascaded(node, first);
        let inner = once.children()->0;
        lemma_set_children(node, inner);
        assert(once.children() == Some(inner));
        let twice = cascaded(once, last);
        let expected = cascaded(node, last);
        assert forall|i: int| 0 <= i < children.len() implies #[trigger] twice.children()->0[i]
            == expected.children()->0[i] by {
            let child = children[i];
            assert(decreases_to!(children => children[i]));
            assert(inner[i] == cascaded(child, first).set_on(first));
            law_last_cascade_decides(child, first, last);
            lemma_cascade_and_state(cascaded(child, first), first, last);
            lemma_set_on(cascaded(child, last), last);
        }
        lemma_set_children(once, twice.children()->0);
        lemma_set_children(node, expected.children()->0);
        assert(twice.children()->0 =~= expected.children()->0);
    }
}

/// A node's own state has no part in what cascades from it.
proof fn lemma_cascade_and_state(node: Json, state: bool, on: bool)
    ensures
        cascaded(node.set_on(state), on) == cascaded(node, on).set_on(state),
{
    lemma_set_on(node, state);
    if passes_on(node) && node.children() is Some {
        let result = cascaded(node, on).children()->0;
        lemma_set_children(node, result);
        lemma_set_children(node.set_on(state), result);
        let whole = cascaded(node.set_on(state), on);
        lemma_set_children(node.set_on(state), whole.children()->0);
        assert(whole.children()->0 =~= result);
        lemma_state_and_children(node, state, result);
    }
}

proof fn lemma_state_and_children(node: Json, state: bool, children: Seq<Json>)
    ensures
        node.set_on(state).set_children(children) == node.set_children(children).set_on(state),
{
    lemma_keys();
    if node is Object {
        let members = node->Object_0;
        let on = Json::Bool(state);
        let items = Json::Array(children);
        assert(members.insert("on"@, on).insert("children"@, items) =~= members.insert(
            "children"@,
            items,
        ).insert("on"@, on));
    }
}

/// Of two times that a node is switched the last one decides alone, for the
/// node and for everything that the cascade reaches.
pub proof fn law_last_switch_decides(node: Json, first: bool, last: bool, cascade: bool)
    ensures
        switched(switched(node, first, cascade), last, cascade) == switched(node, last, cascade),
{
    lemma_set_on(node, last);
    law_last_cascade_decides(node, first, last);
    lemma_cascade_and_state(cascaded(node, first), first, last);
    lemma_set_on(cascaded(node, last), last);
}

// ---- what never changes -----------------------------------------------------

/// A node without its state and without the states of the nodes below it.
pub open spec fn stateless(node: Json) -> Json
    decreases node,
{
    proof {
        lemma_children_smaller(node);
    }
    match node {
        Json::Object(members) => {
            let rest = Json::Object(members.remove("on"@));
            match node.children() {
                Some(children) => rest.set_children(
                    Seq::new(
                        children.len(),
                        |i: int| if 0 <= i < children.len() {
                            stateless(children[i])
                        } else {
                            Json::Null
                        },
                    ),
                ),
                None => rest,
            }
        },
        _ => node,
    }
}

/// A forest without the states of its nodes.
pub open spec fn stateless_all(nodes: Seq<Json>) -> Seq<Json> {
    Seq::new(nodes.len(), |i: int| stateless(nodes[i]))
}

proof fn lemma_stateless_children(node: Json)
    requires
        node.children() is Some,
    ensures
        stateless(node) == Json::Object(node->Object_0.remove("on"@)).set_children(
            stateless_all(node.children()->0),
        ),
{
    let children = node.children()->0;
    lemma_keys();
    assert(stateless(node).children()->0 =~= stateless_all(children));
}

proof fn lemma_stateless_set_on(node: Json, on: bool)
    ensures
        stateless(node.set_on(on)) == stateless(node),
{
    lemma_set_on(node, on);
    if node is Object {
        let members = node->Object_0;
        assert(members.insert("on"@, Json::Bool(on)).remove("on"@) =~= members.remove("on"@));
    }
}

proof fn lemma_stateless_set_children(node: Json, children: Seq<Json>)
    requires
        node.children() is Some,
        stateless_all(children) == stateless_all(node.children()->0),
    ensures
        stateless(node.set_children(children)) == stateless(node),
{
    lemma_keys();
    lemma_set_children(node, children);
    lemma_stateless_children(node);
    lemma_stateless_children(node.set_children(children));
    let members = node->Object_0;
    let same = Json::Array(stateless_all(children));
    assert(members.insert("children"@, Json::Array(children)).remove("on"@).insert(
        "children"@,
        same,
    ) =~= members.remove("on"@).insert("children"@, same));
}

proof fn lemma_stateless_cascaded(node: Json, on: bool)
    ensures
        stateless(cascaded(node, on)) == stateless(node),
    decreases node,
{
    lemma_children_smaller(node);
    if node.is_folder() && !node.is_single_choice() && node.children() is Some {
        let children = node.children()->0;
        let result = cascaded(node, on).children()->0;
        lemma_set_children(node, result);
        assert forall|i: int| 0 <= i < children.len() implies #[trigger] stateless_all(result)[i]
            == stateless_all(children)[i] by {
            assert(decreases_to!(children => children[i]));
            lemma_stateless_cascaded(children[i], on);
            lemma_stateless_set_on(cascaded(children[i], on), on);
        }
        assert(stateless_all(result) =~= stateless_all(children));
        lemma_stateless_set_children(node, result);
    }
}

proof fn lemma_stateless_switched(node: Json, on: bool, cascade: bool)
    ensures
        stateless(switched(node, on, cascade)) == stateless(node),
{
    lemma_stateless_cascaded(node, on);
    lemma_stateless_set_on(cascaded(node, on), on);
    lemma_stateless_set_on(node, on);
}

proof fn lemma_stateless_replaced(nodes: Seq<Json>, path: Seq<int>, node: Json)
    requires
        locate(nodes, path) is Some,
        stateless(node) == stateless(locate(nodes, path)->0),
    ensures
        stateless_all(replace(nodes, path, node)) == stateless_all(nodes),
    decreases path.len(),
{
    if path.len() > 1 {
        let top = nodes[path[0]];
        let children = top.children()->0;
        lemma_stateless_replaced(children, path.drop_first(), node);
        lemma_stateless_set_children(top, replace(children, path.drop_first(), node));
    }
    assert(stateless_all(replace(nodes, path, node)) =~= stateless_all(nodes));
}

proof fn lemma_stateless_reconciled(nodes: Seq<Json>, path: Seq<int>, on: bool)
    ensures
        stateless_all(reconciled(nodes, path, on)) == stateless_all(nodes),
    decreases path.len(),
{
    if path.len() >= 2 {
        let up = path.drop_last();
        if locate(nodes, up) is Some && !locate(nodes, up)->0.is_single_choice() {
            let parent = locate(nodes, up)->0;
            let marked = parent.set_on(followed(parent, on));
            lemma_stateless_set_on(parent, followed(parent, on));
            lemma_stateless_replaced(nodes, up, marked);
            lemma_stateless_reconciled(replace(nodes, up, marked), up, on);
        }
    }
}

proof fn lemma_stateless_others_off(nodes: Seq<Json>, chosen: int, cascade: bool)
    ensures
        stateless_all(others_off(nodes, chosen, cascade)) == stateless_all(nodes),
{
    let result = others_off(nodes, chosen, cascade);
    assert forall|i: int| 0 <= i < nodes.len() implies #[trigger] stateless_all(result)[i]
        == stateless_all(nodes)[i] by {
        lemma_stateless_switched(nodes[i], false, cascade);
    }
    assert(stateless_all(result) =~= stateless_all(nodes));
}

/// Switching a node changes nothing but states: apart from the `on` members of
/// its nodes the forest stays what it was.
pub proof fn law_only_states_change(
    nodes: Seq<Json>,
    id: Seq<char>,
    on: bool,
    default_choice_mode: u64,
    switch_all: bool,
)
    ensures
        stateless_all(selected(nodes, id, on, default_choice_mode, switch_all)) == stateless_all(
            nodes,
        ),
{
    if path_to(nodes, id) is Some {
        lemma_path_to_locates(nodes, id);
        let path = path_to(nodes, id)->0;
        let node = locate(nodes, path)->0;
        let marked = replace(nodes, path, switched(node, on, switch_all));
        lemma_stateless_switched(node, on, switch_all);
        lemma_stateless_replaced(nodes, path, switched(node, on, switch_all));
        lemma_stateless_reconciled(marked, path, on);
        let before = settled(nodes, path, on, switch_all);
        if path.len() < 2 {
            lemma_stateless_others_off(before, path[0], switch_all);
        } else if locate(before, path.drop_last()) is Some {
            let parent = locate(before, path.drop_last())->0;
            if parent.children() is Some {
                let children = parent.children()->0;
                let fewer = others_off(children, path.last(), switch_all);
                lemma_stateless_others_off(children, path.last(), switch_all);
                lemma_stateless_set_children(parent, fewer);
                lemma_stateless_replaced(before, path.drop_last(), parent.set_children(fewer));
            }
        }
    }
}

proof fn lemma_stateless_keeps_id(node: Json)
    ensures
        stateless(node).id() == node.id(),
        stateless(node).children() == (match node.children() {
            Some(children) => Some(stateless_all(children)),
            None => None,
        }),
{
    lemma_keys();
    if node.children() is Some {
        lemma_stateless_children(node);
    }
}

proof fn lemma_stateless_path_in(node: Json, id: Seq<char>)
    ensures
        path_in(stateless(node), id) == path_in(node, id),
    decreases node, 0int,
{
    lemma_children_smaller(node);
    lemma_stateless_keeps_id(node);
    if node.children() is Some {
        lemma_stateless_path_from(node.children()->0, 0, id);
    }
}

proof fn lemma_stateless_path_from(nodes: Seq<Json>, i: int, id: Seq<char>)
    requires
        0 <= i,
    ensures
        path_from(stateless_all(nodes), i, id) == path_from(nodes, i, id),
    decreases nodes, nodes.len() - i,
{
    if i < nodes.len() {
        assert(decreases_to!(nodes => nodes[i]));
        lemma_stateless_path_in(nodes[i], id);
        assert(stateless_all(nodes)[i] == stateless(nodes[i]));
        lemma_stateless_path_from(nodes, i + 1, id);
    }
}

/// After an id has been switched, a search for it finds the node in the new
/// state.
pub proof fn law_found_in_new_state(
    nodes: Seq<Json>,
    id: Seq<char>,
    on: bool,
    default_choice_mode: u64,
    switch_all: bool,
)
    requires
        first_with_id(flatten(nodes), id) is Some,
    ensures
        ({
            let result = selected(nodes, id, on, default_choice_mode, switch_all);
            let found = first_with_id(flatten(result), id);
            &&& path_to(result, id) == path_to(nodes, id)
            &&& found == Some(
                switched(first_with_id(flatten(nodes), id)->0, on, switch_all),
            )
            &&& found->0.is_on() == on
        }),
{
    let result = selected(nodes, id, on, default_choice_mode, switch_all);
    law_path_leads_to_found(nodes, id);
    law_target_is_switched(nodes, id, on, default_choice_mode, switch_all);
    law_only_states_change(nodes, id, on, default_choice_mode, switch_all);
    lemma_stateless_path_from(nodes, 0, id);
    lemma_stateless_path_from(result, 0, id);
    law_path_leads_to_found(result, id);
}

// ---- switching again --------------------------------------------------------

proof fn lemma_replaced_twice(nodes: Seq<Json>, path: Seq<int>, first: Json, last: Json)
    requires
        locate(nodes, path) is Some,
    ensures
        replace(replace(nodes, path, first), path, last) == replace(nodes, path, last),
    decreases path.len(),
{
    let i = path[0];
    if path.len() > 1 {
        let children = nodes[i].children()->0;
        let rest = path.drop_first();
        lemma_replaced_twice(children, rest, first, last);
        lemma_set_children(nodes[i], replace(children, rest, first));
    }
    assert(replace(replace(nodes, path, first), path, last) =~= replace(nodes, path, last));
}

/// To replace a node is to replace its parent by one with that child.
proof fn lemma_replaced_in_parent(nodes: Seq<Json>, path: Seq<int>, node: Json)
    requires
        path.len() >= 2,
        locate(nodes, path) is Some,
    ensures
        ({
            let parent = locate(nodes, path.drop_last())->0;
            &&& locate(nodes, path.drop_last()) is Some
            &&& parent.children() is Some
            &&& 0 <= path.last() < parent.children()->0.len()
            &&& locate(nodes, path) == Some(parent.children()->0[path.last()])
            &&& replace(nodes, path, node) == replace(
                nodes,
                path.drop_last(),
                parent.set_children(parent.children()->0.update(path.last(), node)),
            )
        }),
    decreases path.len(),
{
    let rest = path.drop_first();
    let up = path.drop_last();
    let children = nodes[path[0]].children()->0;
    assert(locate(nodes, path) == locate(children, rest));
    assert(rest.last() == path.last());
    if path.len() == 2 {
        assert(up =~= seq![path[0]]);
        assert(rest =~= seq![path.last()]);
        assert(replace(children, rest, node) == children.update(path.last(), node));
    } else {
        lemma_replaced_in_parent(children, rest, node);
        assert(up.drop_first() =~= rest.drop_last());
        assert(locate(nodes, up) == locate(children, rest.drop_last()));
        let parent = locate(nodes, up)->0;
        let changed = parent.set_children(parent.children()->0.update(path.last(), node));
        assert(replace(children, rest, node) == replace(children, rest.drop_last(), changed));
        assert(replace(nodes, path, node) =~= replace(nodes, up, changed));
    }
}

/// The walk up only sees the state of the node that it starts from.
proof fn lemma_reconciled_replaced(nodes: Seq<Json>, path: Seq<int>, node: Json, on: bool)
    requires
        locate(nodes, path) is Some,
        locate(nodes, path)->0.is_on() == node.is_on(),
    ensures
        reconciled(replace(nodes, path, node), path, on) == replace(
            reconciled(nodes, path, on),
            path,
            node,
        ),
    decreases path.len(),
{
    if path.len() >= 2 {
        let up = path.drop_last();
        lemma_replaced_in_parent(nodes, path, node);
        let parent = locate(nodes, up)->0;
        let children = parent.children()->0;
        let others = children.update(path.last(), node);
        let changed = parent.set_children(others);
        let there = replace(nodes, path, node);
        lemma_set_children(parent, others);
        lemma_locate_replaced(nodes, up, changed);
        if !parent.is_single_choice() {
            let state = followed(parent, on);
            lemma_all_on_replaced(children, seq![path.last()], node);
            assert(replace(children, seq![path.last()], node) == others);
            assert(followed(changed, on) == state);
            let marked = parent.set_on(state);
            let next = replace(nodes, up, marked);
            lemma_set_on(parent, state);
            lemma_state_and_children(parent, state, others);
            lemma_set_children(marked, others);
            lemma_locate_replaced(nodes, up, marked);
            lemma_replaced_twice(nodes, up, changed, changed.set_on(state));
            lemma_replaced_twice(nodes, up, marked, marked.set_children(others));
            assert(replace(there, up, changed.set_on(state)) == replace(
                next,
                up,
                marked.set_children(others),
            ));
            lemma_reconciled_replaced(next, up, marked.set_children(others), on);
            let result = reconciled(next, up, on);
            lemma_reconciled(next, up, on);
            assert(locate(result, up) == Some(marked));
            assert(path =~= up + seq![path.last()]);
            lemma_locate_below(result, up, seq![path.last()]);
            lemma_replaced_in_parent(result, path, node);
        }
    }
}

/// Ancestors that have followed have nothing left to follow.
proof fn lemma_reconciled_twice(nodes: Seq<Json>, path: Seq<int>, on: bool)
    requires
        locate(nodes, path) is Some,
    ensures
        reconciled(reconciled(nodes, path, on), path, on) == reconciled(nodes, path, on),
    decreases path.len(),
{
    if path.len() >= 2 {
        let up = path.drop_last();
        let last = path.len() - 1;
        assert(up =~= path.take(last));
        lemma_locate_prefix(nodes, path, last);
        let parent = locate(nodes, up)->0;
        if !parent.is_single_choice() {
            let state = followed(parent, on);
            let marked = parent.set_on(state);
            let next = replace(nodes, up, marked);
            lemma_set_on(parent, state);
            lemma_locate_replaced(nodes, up, marked);
            let result = reconciled(next, up, on);
            lemma_reconciled(next, up, on);
            assert(locate(result, up) == Some(marked));
            assert(marked.set_on(followed(marked, on)) == marked);
            lemma_replace_same(result, up);
            lemma_reconciled_twice(next, up, on);
        }
    }
}

/// Nodes that have been switched off stay what they are when they are switched
/// off again.
proof fn lemma_others_off_twice(nodes: Seq<Json>, chosen: int, cascade: bool)
    ensures
        others_off(others_off(nodes, chosen, cascade), chosen, cascade) == others_off(
            nodes,
            chosen,
            cascade,
        ),
{
    let once = others_off(nodes, chosen, cascade);
    assert forall|i: int| 0 <= i < nodes.len() implies #[trigger] others_off(
        once,
        chosen,
        cascade,
    )[i] == once[i] by {
        law_last_switch_decides(nodes[i], false, false, cascade);
    }
    assert(others_off(once, chosen, cascade) =~= once);
}

proof fn lemma_siblings_off_twice(nodes: Seq<Json>, path: Seq<int>, cascade: bool)
    requires
        locate(nodes, path) is Some,
    ensures
        siblings_off(siblings_off(nodes, path, cascade), path, cascade) == siblings_off(
            nodes,
            path,
            cascade,
        ),
{
    if path.len() < 2 {
        lemma_others_off_twice(nodes, path[0], cascade);
    } else {
        let up = path.drop_last();
        lemma_replaced_in_parent(nodes, path, locate(nodes, path)->0);
        let parent = locate(nodes, up)->0;
        let children = parent.children()->0;
        let fewer = others_off(children, path.last(), cascade);
        lemma_others_off_twice(children, path.last(), cascade);
        lemma_set_children(parent, fewer);
        lemma_locate_replaced(nodes, up, parent.set_children(fewer));
        lemma_replace_same(siblings_off(nodes, path, cascade), up);
    }
}

/// Where single choice holds at `path` among the children of a folder that
/// follows them, and the other children are all on: the folder is switched on
/// with the last child that was off, and then the other children are switched
/// off. The folder would follow them only the next time.
pub open spec fn parent_lags(
    nodes: Seq<Json>,
    path: Seq<int>,
    on: bool,
    default_choice_mode: u64,
    switch_all: bool,
) -> bool {
    &&& switch_all
    &&& path.len() >= 2
    &&& excludes_siblings(nodes, path, on, default_choice_mode)
    &&& ({
        let parent = locate(nodes, path.drop_last())->0;
        let children = parent.children()->0;
        &&& !parent.is_single_choice()
        &&& children.len() > 1
        &&& forall|j: int|
            0 <= j < children.len() && j != path.last() ==> (#[trigger] children[j]).is_on()
    })
}

/// The siblings' being switched off leaves what the ancestors have followed,
/// unless the parent lags.
proof fn lemma_siblings_off_settled(
    nodes: Seq<Json>,
    path: Seq<int>,
    default_choice_mode: u64,
    switch_all: bool,
)
    requires
        locate(nodes, path) is Some,
        locate(nodes, path)->0 is Object,
        excludes_siblings(nodes, path, true, default_choice_mode),
        !parent_lags(nodes, path, true, default_choice_mode, switch_all),
        switch_all,
    ensures
        ({
            let result = siblings_off(settled(nodes, path, true, switch_all), path, switch_all);
            reconciled(result, path, true) == result
        }),
{
    if path.len() >= 2 {
        let up = path.drop_last();
        let target = switched(locate(nodes, path)->0, true, true);
        let before = settled(nodes, path, true, true);
        let first = replace(nodes, path, target);
        lemma_replaced_in_parent(nodes, path, target);
        let old_parent = locate(nodes, up)->0;
        let old_children = old_parent.children()->0;
        let children = old_children.update(path.last(), target);
        let parent = old_parent.set_children(children);
        lemma_set_children(old_parent, children);
        lemma_locate_replaced(nodes, up, parent);
        lemma_locate_replaced(nodes, path, target);
        let fewer = others_off(children, path.last(), true);
        let result = siblings_off(before, path, true);
        lemma_cascaded(locate(nodes, path)->0, true);
        lemma_set_on(cascaded(locate(nodes, path)->0, true), true);
        assert(target.is_on());
        if parent.is_single_choice() {
            assert(before == first);
            lemma_set_children(parent, fewer);
            lemma_locate_replaced(before, up, parent.set_children(fewer));
        } else {
            let state = followed(parent, true);
            let marked = parent.set_on(state);
            let next = replace(first, up, marked);
            lemma_set_on(parent, state);
            lemma_locate_replaced(first, up, marked);
            lemma_reconciled(next, up, true);
            assert(before == reconciled(next, up, true));
            assert(locate(before, up) == Some(marked));
            let changed = marked.set_children(fewer);
            lemma_set_children(marked, fewer);
            lemma_locate_replaced(before, up, changed);
            assert(result == replace(before, up, changed));
            assert(all_on(fewer) == all_on(children)) by {
                if all_on(children) {
                    assert forall|j: int| 0 <= j < old_children.len() && j
                        != path.last() implies (#[trigger] old_children[j]).is_on() by {
                        assert(children[j] == old_children[j]);
                    }
                    assert(old_children.len() == 1);
                    assert(fewer =~= children);
                } else {
                    let j = choose|j: int|
                        0 <= j < children.len() && !(#[trigger] children[j]).is_on();
                    assert(j != path.last());
                    lemma_cascaded(children[j], false);
                    lemma_set_on(cascaded(children[j], false), false);
                    assert(!fewer[j].is_on());
                }
            }
            assert(changed.set_on(state) == changed) by {
                lemma_state_and_children(parent, state, fewer);
                lemma_set_on(parent.set_children(fewer), state);
            }
            lemma_replace_same(result, up);
            lemma_reconciled_replaced(before, up, changed, true);
            lemma_reconciled_twice(next, up, true);
        }
    }
}

/// Switching a node to the state that it has just been switched to changes
/// nothing, except where the parent lags behind its children.
pub proof fn law_selecting_again_changes_nothing(
    nodes: Seq<Json>,
    id: Seq<char>,
    on: bool,
    default_choice_mode: u64,
    switch_all: bool,
)
    requires
        path_to(nodes, id) is Some ==> !parent_lags(
            nodes,
            path_to(nodes, id)->0,
            on,
            default_choice_mode,
            switch_all,
        ),
    ensures
        ({
            let once = selected(nodes, id, on, default_choice_mode, switch_all);
            selected(once, id, on, default_choice_mode, switch_all) == once
        }),
{
    if path_to(nodes, id) is Some {
        let once = selected(nodes, id, on, default_choice_mode, switch_all);
        let path = path_to(nodes, id)->0;
        lemma_path_to_locates(nodes, id);
        law_path_leads_to_found(nodes, id);
        law_found_in_new_state(nodes, id, on, default_choice_mode, switch_all);
        law_target_is_switched(nodes, id, on, default_choice_mode, switch_all);
        let node = locate(nodes, path)->0;
        let target = switched(node, on, switch_all);
        law_last_switch_decides(node, on, on, switch_all);
        lemma_replace_same(once, path);
        let marked = replace(nodes, path, target);
        let before = settled(nodes, path, on, switch_all);
        lemma_locate_replaced(nodes, path, target);
        lemma_settled(nodes, path, on, switch_all);
        lemma_same_choice_mode(nodes, path, on, switch_all, default_choice_mode);
        if excludes_siblings(nodes, path, on, default_choice_mode) {
            assert(once == siblings_off(before, path, switch_all));
            if switch_all {
                lemma_siblings_off_settled(nodes, path, default_choice_mode, switch_all);
            }
            assert(settled(once, path, on, switch_all) == once);
            lemma_same_choice_mode(once, path, on, switch_all, default_choice_mode);
            lemma_siblings_off(before, path, switch_all);
            lemma_siblings_off_twice(before, path, switch_all);
            if path.len() >= 2 {
                assert(path.drop_last() =~= path.take(path.len() - 1));
                assert(ancestor_settles(nodes, before, path, on, switch_all, path.len() - 1));
            }
            assert(choice_mode(once, path, default_choice_mode) == 1);
        } else {
            assert(once == before);
            if switch_all {
                lemma_reconciled_twice(marked, path, on);
            }
            assert(settled(once, path, on, switch_all) == once);
        }
    }
}

// ---- switching off ----------------------------------------------------------

/// `after` is `before` with no node switched on that was off.
spec fn dims(before: Json, after: Json) -> bool
    decreases before,
{
    proof {
        lemma_children_smaller(before);
    }
    &&& after.is_on() ==> before.is_on()
    &&& after.children() is Some <==> before.children() is Some
    &&& before.children() is Some ==> {
        let a = before.children()->0;
        let b = after.children()->0;
        &&& a.len() == b.len()
        &&& forall|i: int| 0 <= i < a.len() ==> dims(#[trigger] a[i], b[i])
    }
}

spec fn dims_all(before: Seq<Json>, after: Seq<Json>) -> bool {
    &&& before.len() == after.len()
    &&& forall|i: int| 0 <= i < before.len() ==> dims(#[trigger] before[i], after[i])
}

proof fn lemma_dims_same(node: Json)
    ensures
        dims(node, node),
    decreases node,
{
    lemma_children_smaller(node);
    if node.children() is Some {
        let children = node.children()->0;
        assert forall|i: int| 0 <= i < children.len() implies dims(
            #[trigger] children[i],
            children[i],
        ) by {
            assert(decreases_to!(children => children[i]));
            lemma_dims_same(children[i]);
        }
    }
}

proof fn lemma_dims_all_same(nodes: Seq<Json>)
    ensures
        dims_all(nodes, nodes),
{
    assert forall|i: int| 0 <= i < nodes.len() implies dims(#[trigger] nodes[i], nodes[i]) by {
        lemma_dims_same(nodes[i]);
    }
}

proof fn lemma_dims_through(a: Json, b: Json, c: Json)
    requires
        dims(a, b),
        dims(b, c),
    ensures
        dims(a, c),
    decreases a,
{
    lemma_children_smaller(a);
    if a.children() is Some {
        let x = a.children()->0;
        let y = b.children()->0;
        let z = c.children()->0;
        assert forall|i: int| 0 <= i < x.len() implies dims(#[trigger] x[i], z[i]) by {
            assert(decreases_to!(x => x[i]));
            assert(dims(x[i], y[i]) && dims(y[i], z[i]));
            lemma_dims_through(x[i], y[i], z[i]);
        }
    }
}

proof fn lemma_dims_all_through(a: Seq<Json>, b: Seq<Json>, c: Seq<Json>)
    requires
        dims_all(a, b),
        dims_all(b, c),
    ensures
        dims_all(a, c),
{
    assert forall|i: int| 0 <= i < a.len() implies dims(#[trigger] a[i], c[i]) by {
        assert(dims(a[i], b[i]) && dims(b[i], c[i]));
        lemma_dims_through(a[i], b[i], c[i]);
    }
}

proof fn lemma_dims_switched(node: Json, cascade: bool)
    ensures
        dims(node, switched(node, false, cascade)),
    decreases node,
{
    lemma_children_smaller(node);
    lemma_set_on(node, false);
    lemma_set_on(cascaded(node, false), false);
    lemma_dims_same(node);
    if cascade && node.is_folder() && !node.is_single_choice() && node.children() is Some {
        let children = node.children()->0;
        let result = cascaded(node, false).children()->0;
        lemma_set_children(node, result);
        assert forall|i: int| 0 <= i < children.len() implies dims(
            #[trigger] children[i],
            result[i],
        ) by {
            assert(decreases_to!(children => children[i]));
            lemma_dims_switched(children[i], true);
        }
    }
}

proof fn lemma_dims_replaced(nodes: Seq<Json>, path: Seq<int>, node: Json)
    requires
        locate(nodes, path) is Some,
        dims(locate(nodes, path)->0, node),
    ensures
        dims_all(nodes, replace(nodes, path, node)),
    decreases path.len(),
{
    lemma_dims_all_same(nodes);
    if path.len() > 1 {
        let top = nodes[path[0]];
        let children = top.children()->0;
        let result = replace(children, path.drop_first(), node);
        lemma_dims_replaced(children, path.drop_first(), node);
        lemma_set_children(top, result);
        assert(dims(top, top.set_children(result)));
    }
}

proof fn lemma_dims_reconciled(nodes: Seq<Json>, path: Seq<int>)
    ensures
        dims_all(nodes, reconciled(nodes, path, false)),
    decreases path.len(),
{
    lemma_dims_all_same(nodes);
    if path.len() >= 2 {
        let up = path.drop_last();
        if locate(nodes, up) is Some && !locate(nodes, up)->0.is_single_choice() {
            let parent = locate(nodes, up)->0;
            let marked = parent.set_on(false);
            lemma_dims_switched(parent, false);
            lemma_dims_replaced(nodes, up, marked);
            lemma_dims_reconciled(replace(nodes, up, marked), up);
            lemma_dims_all_through(
                nodes,
                replace(nodes, up, marked),
                reconciled(nodes, path, false),
            );
        }
    }
}

proof fn lemma_dims_locate(before: Seq<Json>, after: Seq<Json>, path: Seq<int>)
    requires
        dims_all(before, after),
        locate(after, path) is Some,
        locate(after, path)->0.is_on(),
    ensures
        locate(before, path) is Some,
        locate(before, path)->0.is_on(),
    decreases path.len(),
{
    let i = path[0];
    assert(dims(before[i], after[i]));
    if path.len() > 1 {
        lemma_dims_locate(
            before[i].children()->0,
            after[i].children()->0,
            path.drop_first(),
        );
    }
}

/// Turning something off never turns anything on: whatever is on afterwards
/// was on before.
pub proof fn law_off_turns_nothing_on(
    nodes: Seq<Json>,
    id: Seq<char>,
    default_choice_mode: u64,
    switch_all: bool,
    path: Seq<int>,
)
    requires
        locate(selected(nodes, id, false, default_choice_mode, switch_all), path) is Some,
        locate(selected(nodes, id, false, default_choice_mode, switch_all), path)->0.is_on(),
    ensures
        locate(nodes, path) is Some,
        locate(nodes, path)->0.is_on(),
{
    let result = selected(nodes, id, false, default_choice_mode, switch_all);
    if path_to(nodes, id) is Some {
        lemma_path_to_locates(nodes, id);
        let place = path_to(nodes, id)->0;
        let target = switched(locate(nodes, place)->0, false, switch_all);
        let marked = replace(nodes, place, target);
        lemma_dims_switched(locate(nodes, place)->0, switch_all);
        lemma_dims_replaced(nodes, place, target);
        lemma_dims_reconciled(marked, place);
        if switch_all {
            lemma_dims_all_through(nodes, marked, result);
        }
    } else {
        lemma_dims_all_same(nodes);
    }
    lemma_dims_locate(nodes, result, path);
}

} // verus!
