//! What the tree operations are for, stated on the members of the nodes and on
//! their places.

use vstd::prelude::*;

use crate::json::{lemma_children_smaller, Json};
use crate::terms::{
    all_places, blocks, cut, first_place, first_taker, grown, id_text, in_order, keeps_content,
    kids, lists, lists_content, lit, member, named, named_there, own_mode, precedes, soonest_place,
    sooner, takes_in, there, typed, unnamed, with_kids,
};
use crate::tree::{
    appended_from, content_ids, first_with_id, flatten, flatten_from, has_content, index_of_id,
    inserted, locate, path_from, path_in, path_to, removal, removal_below, replace, steps,
    subtree, Removal,
};
use crate::tree_laws::law_path_leads_to_found;

verus! {

// ---- the terms --------------------------------------------------------------

/// What is read of a node are its members: the id and the type where they are
/// texts, the children where they are a list, the state where it is `true`, and
/// the choice mode where it is a number that is not negative and not `0`.
pub proof fn law_nodes_are_their_members(node: Json)
    ensures
        forall|key: Seq<char>| #[trigger] node.get(key) == member(node, key),
        forall|id: Seq<char>| node.id() == Some(id) <==> #[trigger] named(node, id),
        forall|kind: Seq<char>| node.kind() == Some(kind) <==> #[trigger] typed(node, kind),
        node.children() == kids(node),
        node.is_on() == lit(node),
        node.is_folder() == typed(node, "folder"@),
        node.folder_mode() == (if own_mode(node) == 0 {
            None
        } else {
            Some(own_mode(node))
        }),
        node.is_single_choice() == (own_mode(node) == 1),
{
}

/// A member that is set reads as it was set, and all other members as before;
/// what is no object stays what it is.
pub proof fn law_set_member(node: Json, key: Seq<char>, value: Json, other: Seq<char>)
    ensures
        node is Object <==> node.with(key, value) is Object,
        node is Object ==> member(node.with(key, value), key) == Some(value),
        other != key ==> member(node.with(key, value), other) == member(node, other),
        !(node is Object) ==> node.with(key, value) == node,
{
}

/// Places are followed as they are written down.
pub proof fn law_places(nodes: Seq<Json>, place: Seq<int>)
    ensures
        locate(nodes, place) == there(nodes, place),
    decreases place.len(),
{
    if place.len() > 1 && 0 <= place[0] < nodes.len() {
        let node = nodes[place[0]];
        law_nodes_are_their_members(node);
        if kids(node) is Some {
            law_places(kids(node)->0, place.drop_first());
        }
    }
}

/// The steps of a path are the numbers that it is written in.
pub proof fn law_steps_are_the_path(path: Seq<usize>)
    ensures
        steps(path).len() == path.len(),
        forall|k: int| 0 <= k < path.len() ==> #[trigger] steps(path)[k] == path[k],
{
}

// ---- searching --------------------------------------------------------------

/// What holds of the path from a node down to an id.
spec fn found_in(node: Json, id: Seq<char>, path: Option<Seq<int>>) -> bool {
    let below = match kids(node) {
        Some(nodes) => nodes,
        None => Seq::empty(),
    };
    match path {
        None => !named(node, id) && unnamed(below, id),
        Some(path) => if path.len() == 0 {
            named(node, id)
        } else {
            !named(node, id) && first_place(below, path, id)
        },
    }
}

/// What holds of the path to an id in or below the nodes from `i` on.
spec fn found_from(nodes: Seq<Json>, i: int, id: Seq<char>, path: Option<Seq<int>>) -> bool {
    match path {
        None => forall|other: Seq<int>| #[trigger]
            named_there(nodes, other, id) ==> other[0] < i,
        Some(path) => {
            &&& named_there(nodes, path, id)
            &&& path[0] >= i
            &&& forall|other: Seq<int>| #[trigger]
                named_there(nodes, other, id) ==> other[0] < i || other == path || precedes(
                    path,
                    other,
                )
        },
    }
}

proof fn lemma_found_in(node: Json, id: Seq<char>)
    ensures
        found_in(node, id, path_in(node, id)),
    decreases node, 0int,
{
    lemma_children_smaller(node);
    law_nodes_are_their_members(node);
    assert((node.id() == Some(id)) == named(node, id));
    if !named(node, id) {
        match node.children() {
            Some(below) => {
                lemma_found_from(below, 0, id);
                let path = path_from(below, 0, id);
                assert(path_in(node, id) == path);
                match path {
                    None => {
                        assert forall|other: Seq<int>| !(#[trigger] named_there(
                            below,
                            other,
                            id,
                        )) by {}
                    },
                    Some(p) => {
                        assert(there(below, p) is Some);
                        assert forall|other: Seq<int>| #[trigger]
                            named_there(below, other, id) implies other == p || precedes(
                            p,
                            other,
                        ) by {
                            assert(other[0] >= 0);
                        }
                    },
                }
            },
            None => {
                assert forall|other: Seq<int>| !(#[trigger] named_there(
                    Seq::<Json>::empty(),
                    other,
                    id,
                )) by {}
            },
        }
    }
}

proof fn lemma_found_from(nodes: Seq<Json>, i: int, id: Seq<char>)
    requires
        0 <= i,
    ensures
        found_from(nodes, i, id, path_from(nodes, i, id)),
    decreases nodes, nodes.len() - i,
{
    if i < nodes.len() {
        let node = nodes[i];
        lemma_found_in(node, id);
        lemma_found_from(nodes, i + 1, id);
        // A place under `i` is a place in or below the node there.
        assert forall|other: Seq<int>| #[trigger] named_there(nodes, other, id) && other[0]
            == i implies if other.len() == 1 {
            named(node, id)
        } else {
            kids(node) is Some && named_there(kids(node)->0, other.drop_first(), id)
        } by {}
        match path_in(node, id) {
            Some(below) => {
                let path = seq![i] + below;
                assert(path.drop_first() =~= below);
                assert(named_there(nodes, path, id));
                assert forall|other: Seq<int>| #[trigger]
                    named_there(nodes, other, id) implies other[0] < i || other == path || precedes(
                    path,
                    other,
                ) by {
                    if other[0] == i {
                        if other.len() == 1 {
                            assert(below.len() == 0);
                            assert(other =~= path);
                        } else {
                            let rest = other.drop_first();
                            assert(named_there(kids(node)->0, rest, id));
                            if rest == below {
                                assert(other =~= path);
                            } else {
                                assert(precedes(below, rest));
                            }
                        }
                    }
                }
            },
            None => {
                assert forall|other: Seq<int>| #[trigger]
                    named_there(nodes, other, id) implies other[0] != i by {
                    if other[0] == i && other.len() > 1 {
                        assert(named_there(kids(node)->0, other.drop_first(), id));
                    }
                }
            },
        }
    } else {
        assert forall|other: Seq<int>| #[trigger] named_there(nodes, other, id) implies other[0]
            < i by {}
    }
}

/// The path to an id leads to the node that carries it, the first of them depth
/// first; there is none exactly when no node carries the id.
pub proof fn law_path_is_the_first_place(nodes: Seq<Json>, id: Seq<char>)
    ensures
        match path_to(nodes, id) {
            Some(path) => first_place(nodes, path, id),
            None => unnamed(nodes, id),
        },
{
    lemma_found_from(nodes, 0, id);
    match path_to(nodes, id) {
        Some(path) => {
            assert forall|other: Seq<int>| #[trigger]
                named_there(nodes, other, id) implies other == path || precedes(path, other) by {
                assert(other[0] >= 0);
            }
        },
        None => {
            assert forall|other: Seq<int>| !(#[trigger] named_there(nodes, other, id)) by {}
        },
    }
}

/// Two places cannot both be the first one.
pub proof fn lemma_first_place_is_one(
    nodes: Seq<Json>,
    id: Seq<char>,
    a: Seq<int>,
    b: Seq<int>,
)
    requires
        first_place(nodes, a, id),
        first_place(nodes, b, id),
    ensures
        a == b,
{
    if a != b {
        assert(named_there(nodes, b, id));
        lemma_precedes_once(a, b);
    }
}

proof fn lemma_precedes_once(a: Seq<int>, b: Seq<int>)
    requires
        precedes(a, b),
    ensures
        !precedes(b, a),
        a != b,
    decreases b.len(),
{
    if a.len() > 0 && a[0] == b[0] {
        lemma_precedes_once(a.drop_first(), b.drop_first());
    }
}

/// A search by id finds the node at the first place that carries the id, with
/// everything that is below it; it finds nothing exactly when no node does.
pub proof fn law_search_finds_the_first_place(nodes: Seq<Json>, id: Seq<char>)
    ensures
        match first_with_id(flatten(nodes), id) {
            Some(node) => exists|place: Seq<int>| #[trigger]
                first_place(nodes, place, id) && there(nodes, place) == Some(node),
            None => unnamed(nodes, id),
        },
{
    law_path_is_the_first_place(nodes, id);
    law_path_leads_to_found(nodes, id);
    if path_to(nodes, id) is Some {
        law_places(nodes, path_to(nodes, id)->0);
        assert(first_place(nodes, path_to(nodes, id)->0, id));
    }
}

// ---- the flat list ----------------------------------------------------------

/// Places that all begin with the same step.
spec fn under(i: int, places: Seq<Seq<int>>) -> Seq<Seq<int>> {
    Seq::new(places.len(), |k: int| seq![i] + places[k])
}

spec fn places_in(node: Json) -> Seq<Seq<int>>
    decreases node, 0int,
{
    proof {
        lemma_children_smaller(node);
    }
    match node.children() {
        Some(children) => seq![Seq::<int>::empty()] + places_from(children, 0),
        None => seq![Seq::<int>::empty()],
    }
}

spec fn places_from(nodes: Seq<Json>, i: int) -> Seq<Seq<int>>
    decreases nodes, nodes.len() - i,
{
    if 0 <= i < nodes.len() {
        under(i, places_in(nodes[i])) + places_from(nodes, i + 1)
    } else {
        Seq::empty()
    }
}

/// What is at a place that is counted from a node: the node itself, or one
/// below it.
spec fn down(node: Json, place: Seq<int>) -> Option<Json> {
    if place.len() == 0 {
        Some(node)
    } else if kids(node) is Some {
        there(kids(node)->0, place)
    } else {
        None
    }
}

proof fn lemma_there_is_down(nodes: Seq<Json>, place: Seq<int>)
    requires
        place.len() > 0,
        0 <= place[0] < nodes.len(),
    ensures
        there(nodes, place) == down(nodes[place[0]], place.drop_first()),
{
}

proof fn lemma_places_in(node: Json)
    ensures
        places_in(node).len() == subtree(node).len(),
        in_order(places_in(node)),
        forall|k: int|
            0 <= k < places_in(node).len() ==> down(node, #[trigger] places_in(node)[k]) == Some(
                subtree(node)[k],
            ),
        forall|place: Seq<int>| #[trigger]
            down(node, place) is Some ==> places_in(node).contains(place),
    decreases node, 0int,
{
    lemma_children_smaller(node);
    law_nodes_are_their_members(node);
    let places = places_in(node);
    let none = Seq::<int>::empty();
    assert(places[0] == none);
    match node.children() {
        Some(children) => {
            let below = places_from(children, 0);
            lemma_places_from(children, 0);
            assert forall|k: int| 0 < k < places.len() implies #[trigger] places[k] == below[k
                - 1] by {}
            assert forall|i: int, j: int| 0 <= i < j < places.len() implies precedes(
                #[trigger] places[i],
                #[trigger] places[j],
            ) by {
                assert(places[j] == below[j - 1]);
                if i > 0 {
                    assert(places[i] == below[i - 1]);
                } else {
                    assert(there(children, below[j - 1]) is Some);
                }
            }
            assert forall|k: int| 0 <= k < places.len() implies down(node, #[trigger] places[k])
                == Some(subtree(node)[k]) by {
                if k > 0 {
                    assert(places[k] == below[k - 1]);
                    assert(there(children, below[k - 1]) == Some(flatten_from(children, 0)[k - 1]));
                }
            }
            assert forall|place: Seq<int>| #[trigger] down(node, place) is Some implies places
                .contains(place) by {
                if place.len() == 0 {
                    assert(place =~= none);
                    assert(places[0] == place);
                } else {
                    assert(there(children, place) is Some);
                    assert(place[0] >= 0);
                    let k = choose|k: int| 0 <= k < below.len() && below[k] == place;
                    assert(places[k + 1] == place);
                }
            }
        },
        None => {
            assert forall|place: Seq<int>| #[trigger] down(node, place) is Some implies places
                .contains(place) by {
                assert(place =~= none);
                assert(places[0] == place);
            }
        },
    }
}

proof fn lemma_places_from(nodes: Seq<Json>, i: int)
    requires
        0 <= i,
    ensures
        places_from(nodes, i).len() == flatten_from(nodes, i).len(),
        in_order(places_from(nodes, i)),
        forall|k: int|
            0 <= k < places_from(nodes, i).len() ==> {
                &&& (#[trigger] places_from(nodes, i)[k]).len() > 0
                &&& places_from(nodes, i)[k][0] >= i
                &&& there(nodes, places_from(nodes, i)[k]) == Some(flatten_from(nodes, i)[k])
            },
        forall|place: Seq<int>| #[trigger]
            there(nodes, place) is Some && place[0] >= i ==> places_from(nodes, i).contains(place),
    decreases nodes, nodes.len() - i,
{
    let places = places_from(nodes, i);
    if i < nodes.len() {
        let node = nodes[i];
        let inner = places_in(node);
        let here = under(i, inner);
        let later = places_from(nodes, i + 1);
        lemma_places_in(node);
        lemma_places_from(nodes, i + 1);
        assert forall|k: int| 0 <= k < here.len() implies {
            &&& (#[trigger] here[k]).len() > 0
            &&& here[k][0] == i
            &&& here[k].drop_first() == inner[k]
            &&& there(nodes, here[k]) == Some(subtree(node)[k])
        } by {
            assert((seq![i] + inner[k]).drop_first() =~= inner[k]);
            lemma_there_is_down(nodes, here[k]);
        }
        assert forall|k: int| 0 <= k < places.len() implies #[trigger] places[k] == (if k
            < here.len() {
            here[k]
        } else {
            later[k - here.len()]
        }) by {}
        assert forall|k: int| 0 <= k < places.len() implies {
            &&& (#[trigger] places[k]).len() > 0
            &&& places[k][0] >= i
            &&& there(nodes, places[k]) == Some(flatten_from(nodes, i)[k])
        } by {
            if k < here.len() {
                assert(places[k] == here[k]);
            } else {
                assert(places[k] == later[k - here.len()]);
            }
        }
        assert forall|a: int, b: int| 0 <= a < b < places.len() implies precedes(
            #[trigger] places[a],
            #[trigger] places[b],
        ) by {
            if b < here.len() {
                assert(places[a] == here[a] && places[b] == here[b]);
                assert(precedes(inner[a], inner[b]));
            } else {
                assert(places[b] == later[b - here.len()]);
                if a < here.len() {
                    assert(places[a] == here[a]);
                } else {
                    assert(places[a] == later[a - here.len()]);
                }
            }
        }
        assert forall|place: Seq<int>| #[trigger] there(nodes, place) is Some && place[0]
            >= i implies places.contains(place) by {
            if place[0] == i {
                let rest = place.drop_first();
                lemma_there_is_down(nodes, place);
                assert(down(node, rest) is Some);
                let k = choose|k: int| 0 <= k < inner.len() && inner[k] == rest;
                assert(here[k] =~= place);
                assert(places[k] == place);
            } else {
                assert(later.contains(place));
                let k = choose|k: int| 0 <= k < later.len() && later[k] == place;
                assert(places[here.len() + k] == place);
            }
        }
    }
}

/// The flat list holds the node of every place of the forest, of whatever type,
/// once, depth first.
pub proof fn law_flat_list_holds_every_node(nodes: Seq<Json>)
    ensures
        lists(nodes, flatten(nodes)),
{
    let places = places_from(nodes, 0);
    lemma_places_from(nodes, 0);
    assert forall|place: Seq<int>| #[trigger] there(nodes, place) is Some implies places.contains(
        place,
    ) by {
        assert(place[0] >= 0);
    }
    assert(all_places(nodes, places));
    assert forall|k: int| 0 <= k < flatten(nodes).len() implies there(nodes, places[k]) == Some(
        #[trigger] flatten(nodes)[k],
    ) by {
        assert(there(nodes, places[k]) is Some);
    }
}

// ---- content ----------------------------------------------------------------

/// The places, out of a list of places, whose nodes have content.
spec fn content_places(list: Seq<Json>, places: Seq<Seq<int>>) -> Seq<Seq<int>>
    decreases list.len(),
{
    if list.len() == 0 {
        Seq::empty()
    } else if has_content(list[0]) {
        seq![places[0]] + content_places(list.drop_first(), places.drop_first())
    } else {
        content_places(list.drop_first(), places.drop_first())
    }
}

proof fn lemma_content_places(nodes: Seq<Json>, list: Seq<Json>, places: Seq<Seq<int>>)
    requires
        list.len() == places.len(),
        in_order(places),
        forall|k: int| 0 <= k < list.len() ==> there(nodes, places[k]) == Some(#[trigger] list[k]),
    ensures
        ({
            let picks = content_places(list, places);
            let ids = content_ids(list);
            &&& in_order(picks)
            &&& picks.len() == ids.len()
            &&& forall|k: int|
                0 <= k < picks.len() ==> {
                    &&& places.contains(#[trigger] picks[k])
                    &&& keeps_content(nodes, picks[k])
                    &&& named(there(nodes, picks[k])->0, ids[k])
                }
            &&& forall|k: int|
                0 <= k < places.len() && keeps_content(nodes, #[trigger] places[k])
                    ==> picks.contains(places[k])
        }),
    decreases list.len(),
{
    if list.len() > 0 {
        let tail = list.drop_first();
        let tail_places = places.drop_first();
        assert forall|i: int, j: int| 0 <= i < j < tail_places.len() implies precedes(
            #[trigger] tail_places[i],
            #[trigger] tail_places[j],
        ) by {
            assert(tail_places[i] == places[i + 1] && tail_places[j] == places[j + 1]);
        }
        assert forall|k: int| 0 <= k < tail.len() implies there(nodes, tail_places[k]) == Some(
            #[trigger] tail[k],
        ) by {
            assert(tail[k] == list[k + 1]);
        }
        lemma_content_places(nodes, tail, tail_places);
        let picks = content_places(list, places);
        let ids = content_ids(list);
        let later = content_places(tail, tail_places);
        let node = list[0];
        assert(there(nodes, places[0]) == Some(node));
        law_nodes_are_their_members(node);
        assert(typed(node, "local"@) == (node.kind() == Some("local"@)));
        assert(typed(node, "remote"@) == (node.kind() == Some("remote"@)));
        if node.id() is Some {
            assert(named(node, node.id()->0));
        } else if member(node, "id"@) is Some && member(node, "id"@)->0 is String {
            assert(named(node, member(node, "id"@)->0->String_0));
        }
        assert(has_content(node) == keeps_content(nodes, places[0]));
        // How many of the picks come from the first place.
        let own: int = if has_content(node) {
            1
        } else {
            0
        };
        assert forall|k: int| own <= k < picks.len() implies #[trigger] picks[k] == later[k
            - own] by {}
        assert forall|k: int| 0 <= k < later.len() implies exists|m: int|
            0 < m < places.len() && #[trigger] places[m] == #[trigger] later[k] by {
            assert(tail_places.contains(later[k]));
            let m = choose|m: int| 0 <= m < tail_places.len() && tail_places[m] == later[k];
            assert(places[m + 1] == later[k]);
        }
        assert forall|i: int, j: int| 0 <= i < j < picks.len() implies precedes(
            #[trigger] picks[i],
            #[trigger] picks[j],
        ) by {
            assert(picks[j] == later[j - own]);
            if i >= own {
                assert(picks[i] == later[i - own]);
            } else {
                assert(picks[i] == places[0]);
                let m = choose|m: int|
                    0 < m < places.len() && #[trigger] places[m] == later[j - own];
                assert(precedes(places[0], places[m]));
            }
        }
        assert forall|k: int| 0 <= k < picks.len() implies {
            &&& places.contains(#[trigger] picks[k])
            &&& keeps_content(nodes, picks[k])
            &&& named(there(nodes, picks[k])->0, ids[k])
        } by {
            if k >= own {
                assert(picks[k] == later[k - own]);
                assert(ids[k] == content_ids(tail)[k - own]);
                let m = choose|m: int|
                    0 < m < places.len() && #[trigger] places[m] == later[k - own];
                assert(places.contains(picks[k]));
            } else {
                assert(places[0] == picks[k]);
            }
        }
        assert forall|k: int| 0 <= k < places.len() && keeps_content(
            nodes,
            #[trigger] places[k],
        ) implies picks.contains(places[k]) by {
            if k == 0 {
                assert(picks[0] == places[0]);
            } else {
                assert(tail_places[k - 1] == places[k]);
                assert(later.contains(tail_places[k - 1]));
                let m = choose|m: int| 0 <= m < later.len() && later[m] == places[k];
                assert(picks[m + own] == places[k]);
            }
        }
    }
}

/// The ids that are collected are those of all nodes of type `local` or
/// `remote` that carry one, wherever they stand and whatever else they say: one
/// for each of them, depth first, and no others.
pub proof fn law_every_content_id_is_collected(nodes: Seq<Json>)
    ensures
        lists_content(nodes, content_ids(flatten(nodes))),
{
    let list = flatten(nodes);
    law_flat_list_holds_every_node(nodes);
    let places = choose|places: Seq<Seq<int>>|
        {
            &&& #[trigger] all_places(nodes, places)
            &&& list.len() == places.len()
            &&& forall|k: int|
                0 <= k < list.len() ==> there(nodes, places[k]) == Some(#[trigger] list[k])
        };
    lemma_content_places(nodes, list, places);
    let picks = content_places(list, places);
    assert(in_order(picks));
    assert forall|place: Seq<int>| #[trigger] keeps_content(nodes, place) implies picks.contains(
        place,
    ) by {
        assert(there(nodes, place) is Some);
        let k = choose|k: int| 0 <= k < places.len() && places[k] == place;
        assert(keeps_content(nodes, places[k]));
    }
}

// ---- removing ---------------------------------------------------------------

proof fn lemma_index_is_first(nodes: Seq<Json>, i: int, id: Seq<char>)
    requires
        0 <= i <= nodes.len(),
    ensures
        i <= index_of_id(nodes, i, id) <= nodes.len(),
        index_of_id(nodes, i, id) < nodes.len() ==> named(nodes[index_of_id(nodes, i, id)], id),
        forall|j: int|
            i <= j < index_of_id(nodes, i, id) ==> !named(#[trigger] nodes[j], id),
    decreases nodes.len() - i,
{
    if i < nodes.len() {
        law_nodes_are_their_members(nodes[i]);
        assert((nodes[i].id() == Some(id)) == named(nodes[i], id));
        lemma_index_is_first(nodes, i + 1, id);
    }
}

/// What a removal comes to, given the place of the node that is removed.
spec fn removes_there(
    nodes: Seq<Json>,
    parent: Option<Seq<char>>,
    removed: Removal,
    place: Seq<int>,
) -> bool {
    &&& there(nodes, place) == Some(removed.node)
    &&& removed.rest == cut(nodes, place)
    &&& removed.parent == (if place.len() == 1 {
        parent
    } else {
        id_text(there(nodes, place.drop_last())->0)
    })
}

proof fn lemma_removal_place(nodes: Seq<Json>, id: Seq<char>, parent: Option<Seq<char>>) -> (place:
    Seq<int>)
    ensures
        match removal(nodes, id, parent) {
            Some(removed) => soonest_place(nodes, place, id) && removes_there(
                nodes,
                parent,
                removed,
                place,
            ),
            None => unnamed(nodes, id),
        },
    decreases nodes, nodes.len() + 1,
{
    let i = index_of_id(nodes, 0, id);
    lemma_index_is_first(nodes, 0, id);
    if i < nodes.len() {
        let place = seq![i];
        assert(named_there(nodes, place, id));
        assert forall|other: Seq<int>| #[trigger] named_there(nodes, other, id) implies other
            == place || sooner(place, other) by {
            if other.len() == 1 {
                assert(named(nodes[other[0]], id));
                if other[0] == i {
                    assert(other =~= place);
                }
            }
        }
        place
    } else {
        let place = lemma_removal_place_below(nodes, 0, id);
        match removal(nodes, id, parent) {
            Some(removed) => {
                assert forall|other: Seq<int>| #[trigger] named_there(nodes, other, id) implies other
                    == place || sooner(place, other) by {
                    assert(other[0] >= 0);
                }
            },
            None => {
                assert forall|other: Seq<int>| !(#[trigger] named_there(nodes, other, id)) by {}
            },
        }
        place
    }
}

proof fn lemma_removal_place_below(nodes: Seq<Json>, i: int, id: Seq<char>) -> (place: Seq<int>)
    requires
        0 <= i <= nodes.len(),
        forall|j: int| 0 <= j < nodes.len() ==> !named(#[trigger] nodes[j], id),
    ensures
        match removal_below(nodes, i, id) {
            Some(removed) => {
                &&& place.len() > 1
                &&& place[0] >= i
                &&& named_there(nodes, place, id)
                &&& removes_there(nodes, None, removed, place)
                &&& forall|other: Seq<int>| #[trigger]
                    named_there(nodes, other, id) ==> other[0] < i || other == place || sooner(
                        place,
                        other,
                    )
            },
            None => forall|other: Seq<int>| #[trigger]
                named_there(nodes, other, id) ==> other[0] < i,
        },
    decreases nodes, nodes.len() - i,
{
    // Whatever carries the id stands below one of the nodes.
    assert forall|other: Seq<int>| #[trigger] named_there(nodes, other, id) implies other.len() > 1
        && kids(nodes[other[0]]) is Some && named_there(
        kids(nodes[other[0]])->0,
        other.drop_first(),
        id,
    ) by {
        if other.len() == 1 {
            assert(named(nodes[other[0]], id));
        }
    }
    if i < nodes.len() {
        let node = nodes[i];
        lemma_children_smaller(node);
        law_nodes_are_their_members(node);
        let later = lemma_removal_place_below(nodes, i + 1, id);
        match node.children() {
            Some(children) => {
                let inner = lemma_removal_place(children, id, node.id());
                match removal(children, id, node.id()) {
                    Some(removed) => {
                        let place = seq![i] + inner;
                        assert(place.drop_first() =~= inner);
                        assert(named_there(children, inner, id));
                        assert(named_there(nodes, place, id));
                        let whole = removal_below(nodes, i, id)->0;
                        assert(node.set_children(removed.rest) == with_kids(node, removed.rest));
                        assert(whole.rest == cut(nodes, place));
                        if inner.len() == 1 {
                            assert(place.drop_last() =~= seq![i]);
                            assert(node.id() == id_text(node));
                        } else {
                            assert(place.drop_last().drop_first() =~= inner.drop_last());
                            assert(there(nodes, place.drop_last()) == there(
                                children,
                                inner.drop_last(),
                            ));
                        }
                        assert forall|other: Seq<int>| #[trigger]
                            named_there(nodes, other, id) implies other[0] < i || other == place
                            || sooner(place, other) by {
                            if other[0] == i {
                                let rest = other.drop_first();
                                assert(named_there(children, rest, id));
                                if rest == inner {
                                    assert(other =~= place);
                                } else {
                                    assert(sooner(inner, rest));
                                }
                            }
                        }
                        place
                    },
                    None => {
                        assert forall|other: Seq<int>| #[trigger]
                            named_there(nodes, other, id) implies other[0] != i by {
                            if other[0] == i {
                                assert(named_there(children, other.drop_first(), id));
                            }
                        }
                        later
                    },
                }
            },
            None => later,
        }
    } else {
        Seq::empty()
    }
}

/// Removing an id takes out the node that carries it, the first of them with
/// siblings before what is below them, and nothing else. The parent that is
/// reported is none for a node at the top level, and otherwise the id of the
/// node that it stood below, wherever among its siblings it stood. Where no
/// node carries the id, nothing is removed.
pub proof fn law_remove_reports_the_parent(nodes: Seq<Json>, id: Seq<char>)
    ensures
        match removal(nodes, id, None) {
            Some(removed) => exists|place: Seq<int>|
                {
                    &&& #[trigger] soonest_place(nodes, place, id)
                    &&& there(nodes, place) == Some(removed.node)
                    &&& removed.rest == cut(nodes, place)
                    &&& place.len() == 1 ==> removed.parent is None
                    &&& place.len() > 1 ==> there(nodes, place.drop_last()) is Some
                        && removed.parent == id_text(there(nodes, place.drop_last())->0)
                },
            None => unnamed(nodes, id),
        },
{
    let place = lemma_removal_place(nodes, id, None);
    if removal(nodes, id, None) is Some {
        assert(soonest_place(nodes, place, id));
        if place.len() > 1 {
            lemma_there_above(nodes, place);
        }
    }
}

proof fn lemma_there_above(nodes: Seq<Json>, place: Seq<int>)
    requires
        place.len() > 1,
        there(nodes, place) is Some,
    ensures
        there(nodes, place.drop_last()) is Some,
    decreases place.len(),
{
    if place.len() > 2 {
        lemma_there_above(kids(nodes[place[0]])->0, place.drop_first());
        assert(place.drop_last().drop_first() =~= place.drop_first().drop_last());
    }
}

// ---- inserting --------------------------------------------------------------

/// What becomes of appending in or below the nodes from `i` on.
spec fn appends_there(
    nodes: Seq<Json>,
    i: int,
    node: Json,
    id: Seq<char>,
    result: Option<Seq<Json>>,
    place: Seq<int>,
) -> bool {
    match result {
        Some(result) => {
            &&& takes_in_from(nodes, i, place, id)
            &&& result == grown(nodes, place, node)
            &&& forall|other: Seq<int>| #[trigger]
                takes_in_from(nodes, i, other, id) ==> other == place || precedes(place, other)
        },
        None => forall|other: Seq<int>| !(#[trigger] takes_in_from(nodes, i, other, id)),
    }
}

/// As [`takes_in`], where the nodes before `i` at the top level do not count.
spec fn takes_in_from(nodes: Seq<Json>, i: int, place: Seq<int>, id: Seq<char>) -> bool {
    &&& named_there(nodes, place, id)
    &&& place[0] >= i
    &&& kids(there(nodes, place)->0) is Some
    &&& forall|k: int, j: int|
        0 <= k < place.len() && (if k == 0 {
            i
        } else {
            0
        }) <= j < place[k] ==> !blocks(nodes, #[trigger] place.take(k).push(j), id)
}

/// A taker below the node at `i` is a taker among what is below it, and the
/// other way round where no node from `i` on blocks it.
proof fn lemma_taker_below(nodes: Seq<Json>, i: int, place: Seq<int>, id: Seq<char>)
    requires
        0 <= i < nodes.len(),
        place.len() > 1,
        place[0] == i,
        kids(nodes[i]) is Some,
    ensures
        takes_in_from(nodes, i, place, id) == takes_in_from(
            kids(nodes[i])->0,
            0,
            place.drop_first(),
            id,
        ),
{
    let below = kids(nodes[i])->0;
    let rest = place.drop_first();
    assert(there(nodes, place) == there(below, rest));
    assert forall|k: int, j: int| 0 <= k < rest.len() implies blocks(
        below,
        #[trigger] rest.take(k).push(j),
        id,
    ) == blocks(nodes, place.take(k + 1).push(j), id) by {
        let long = place.take(k + 1).push(j);
        assert(long.drop_first() =~= rest.take(k).push(j));
        assert(long[0] == i);
    }
    if takes_in_from(nodes, i, place, id) {
        assert forall|k: int, j: int| 0 <= k < rest.len() && 0 <= j < rest[k] implies !blocks(
            below,
            #[trigger] rest.take(k).push(j),
            id,
        ) by {
            assert(!blocks(nodes, place.take(k + 1).push(j), id));
        }
        assert(named_there(below, rest, id));
        assert(rest[0] >= 0);
    }
    if takes_in_from(below, 0, rest, id) {
        assert forall|k: int, j: int| 0 <= k < place.len() && (if k == 0 {
            i
        } else {
            0
        }) <= j < place[k] implies !blocks(nodes, #[trigger] place.take(k).push(j), id) by {
            if k > 0 {
                assert(!blocks(below, rest.take(k - 1).push(j), id));
            }
        }
    }
}

/// A taker behind the node at `i` is one among the nodes from `i + 1` on, unless
/// that node blocks it.
proof fn lemma_taker_behind(nodes: Seq<Json>, i: int, place: Seq<int>, id: Seq<char>)
    requires
        0 <= i < nodes.len(),
        place.len() > 0,
        place[0] > i,
    ensures
        takes_in_from(nodes, i, place, id) == (!blocks(nodes, seq![i], id) && takes_in_from(
            nodes,
            i + 1,
            place,
            id,
        )),
{
    assert(place.take(0).push(i) =~= seq![i]);
    if takes_in_from(nodes, i, place, id) {
        assert(!blocks(nodes, place.take(0).push(i), id));
        assert forall|k: int, j: int| 0 <= k < place.len() && (if k == 0 {
            i + 1
        } else {
            0
        }) <= j < place[k] implies !blocks(nodes, #[trigger] place.take(k).push(j), id) by {}
    }
    if !blocks(nodes, seq![i], id) && takes_in_from(nodes, i + 1, place, id) {
        assert forall|k: int, j: int| 0 <= k < place.len() && (if k == 0 {
            i
        } else {
            0
        }) <= j < place[k] implies !blocks(nodes, #[trigger] place.take(k).push(j), id) by {
            if k == 0 && j == i {
                assert(place.take(k).push(j) =~= seq![i]);
            }
        }
    }
}

proof fn lemma_append_place(nodes: Seq<Json>, i: int, node: Json, id: Seq<char>) -> (place: Seq<
    int,
>)
    requires
        0 <= i,
    ensures
        appends_there(nodes, i, node, id, appended_from(nodes, i, node, id), place),
    decreases nodes, nodes.len() - i,
{
    if i < nodes.len() {
        let top = nodes[i];
        lemma_children_smaller(top);
        law_nodes_are_their_members(top);
        assert((top.id() == Some(id)) == named(top, id));
        let here = seq![i];
        assert(there(nodes, here) == Some(top));
        let later = lemma_append_place(nodes, i + 1, node, id);
        assert forall|other: Seq<int>| #[trigger] takes_in_from(nodes, i, other, id) implies {
            ||| other == here
            ||| other[0] == i && other.len() > 1 && kids(top) is Some && takes_in_from(
                kids(top)->0,
                0,
                other.drop_first(),
                id,
            )
            ||| other[0] > i && !blocks(nodes, here, id) && takes_in_from(nodes, i + 1, other, id)
        } by {
            if other[0] == i {
                if other.len() == 1 {
                    assert(other =~= here);
                } else {
                    lemma_taker_below(nodes, i, other, id);
                }
            } else {
                lemma_taker_behind(nodes, i, other, id);
            }
        }
        match top.children() {
            Some(children) => {
                assert(with_kids(top, children.push(node)) == top.set_children(
                    children.push(node),
                ));
                if named(top, id) {
                    assert(takes_in_from(nodes, i, here, id)) by {
                        assert(named_there(nodes, here, id));
                    }
                    assert forall|other: Seq<int>| #[trigger]
                        takes_in_from(nodes, i, other, id) implies other == here || precedes(
                        here,
                        other,
                    ) by {
                        if other[0] == i && other != here {
                            assert(here.drop_first().len() == 0);
                            assert(other.drop_first().len() > 0);
                            assert(precedes(here.drop_first(), other.drop_first()));
                        }
                    }
                    here
                } else {
                    let inner = lemma_append_place(children, 0, node, id);
                    assert(!blocks(nodes, here, id));
                    assert(!takes_in_from(nodes, i, here, id));
                    match appended_from(children, 0, node, id) {
                        Some(more) => {
                            let place = seq![i] + inner;
                            assert(place.drop_first() =~= inner);
                            lemma_taker_below(nodes, i, place, id);
                            assert(with_kids(top, more) == top.set_children(more));
                            assert forall|other: Seq<int>| #[trigger]
                                takes_in_from(nodes, i, other, id) implies other == place
                                || precedes(place, other) by {
                                if other[0] == i {
                                    let rest = other.drop_first();
                                    assert(takes_in_from(children, 0, rest, id));
                                    if rest == inner {
                                        assert(other =~= place);
                                    } else {
                                        assert(precedes(inner, rest));
                                    }
                                }
                            }
                            place
                        },
                        None => {
                            if appended_from(nodes, i + 1, node, id) is Some {
                                lemma_taker_behind(nodes, i, later, id);
                            }
                            assert forall|other: Seq<int>| #[trigger]
                                takes_in_from(nodes, i, other, id) implies takes_in_from(
                                nodes,
                                i + 1,
                                other,
                                id,
                            ) by {
                                if other[0] == i {
                                    assert(takes_in_from(children, 0, other.drop_first(), id));
                                }
                            }
                            later
                        },
                    }
                }
            },
            None => {
                assert(!takes_in_from(nodes, i, here, id));
                if named(top, id) {
                    assert(blocks(nodes, here, id));
                } else {
                    assert(!blocks(nodes, here, id));
                    if appended_from(nodes, i + 1, node, id) is Some {
                        lemma_taker_behind(nodes, i, later, id);
                    }
                    assert forall|other: Seq<int>| #[trigger]
                        takes_in_from(nodes, i, other, id) implies takes_in_from(
                        nodes,
                        i + 1,
                        other,
                        id,
                    ) by {}
                }
                later
            },
        }
    } else {
        assert forall|other: Seq<int>| !(#[trigger] takes_in_from(nodes, i, other, id)) by {}
        Seq::empty()
    }
}

proof fn lemma_takes_in_from_first(nodes: Seq<Json>, place: Seq<int>, id: Seq<char>)
    ensures
        takes_in_from(nodes, 0, place, id) == takes_in(nodes, place, id),
{
    if takes_in(nodes, place, id) {
        assert forall|k: int, j: int| 0 <= k < place.len() && (if k == 0 {
            0int
        } else {
            0
        }) <= j < place[k] implies !blocks(nodes, #[trigger] place.take(k).push(j), id) by {}
    }
    if takes_in_from(nodes, 0, place, id) {
        assert forall|k: int, j: int| 0 <= k < place.len() && 0 <= j < place[k] implies !blocks(
            nodes,
            #[trigger] place.take(k).push(j),
            id,
        ) by {}
    }
}

/// A node that is inserted without a parent id, or under one for which no
/// folder takes nodes in, becomes the last of the top level. Under the id of a
/// folder that does it becomes the last node below the first of them. Nothing
/// else changes.
pub proof fn law_insert_appends(nodes: Seq<Json>, node: Json, parent_id: Option<Seq<char>>)
    ensures
        match parent_id {
            None => inserted(nodes, node, parent_id) == nodes.push(node),
            Some(id) => {
                ||| exists|place: Seq<int>| #[trigger]
                    first_taker(nodes, place, id) && inserted(nodes, node, parent_id) == grown(
                        nodes,
                        place,
                        node,
                    )
                ||| {
                    &&& forall|place: Seq<int>| !(#[trigger] takes_in(nodes, place, id))
                    &&& inserted(nodes, node, parent_id) == nodes.push(node)
                }
            },
        },
{
    if parent_id is Some {
        let id = parent_id->0;
        let place = lemma_append_place(nodes, 0, node, id);
        assert forall|other: Seq<int>| #[trigger] takes_in(nodes, other, id)
            == takes_in_from(nodes, 0, other, id) by {
            lemma_takes_in_from_first(nodes, other, id);
        }
        match appended_from(nodes, 0, node, id) {
            Some(result) => {
                assert(takes_in(nodes, place, id));
                assert forall|other: Seq<int>| #[trigger] takes_in(nodes, other, id) implies other
                    == place || precedes(place, other) by {
                    assert(takes_in_from(nodes, 0, other, id));
                }
                assert(first_taker(nodes, place, id));
            },
            None => {
                assert forall|other: Seq<int>| !(#[trigger] takes_in(nodes, other, id)) by {
                    assert(!takes_in_from(nodes, 0, other, id));
                }
            },
        }
    }
}

// ---- writing ----------------------------------------------------------------

/// A node that is put at a place where there is one is then there; what is
/// neither above nor below the place stays, and of a node above it nothing
/// changes but what is below.
pub proof fn law_write_changes_one_place(
    nodes: Seq<Json>,
    place: Seq<int>,
    node: Json,
    other: Seq<int>,
)
    requires
        there(nodes, place) is Some,
    ensures
        there(replace(nodes, place, node), place) == Some(node),
        !place.is_prefix_of(other) && !other.is_prefix_of(place) ==> there(
            replace(nodes, place, node),
            other,
        ) == there(nodes, other),
        0 < other.len() < place.len() && other.is_prefix_of(place) ==> {
            &&& there(nodes, other) is Some
            &&& there(replace(nodes, place, node), other) is Some
            &&& forall|key: Seq<char>|
                key != "children"@ ==> #[trigger] member(
                    there(replace(nodes, place, node), other)->0,
                    key,
                ) == member(there(nodes, other)->0, key)
        },
    decreases place.len(),
{
    let i = place[0];
    let top = nodes[i];
    let result = replace(nodes, place, node);
    law_nodes_are_their_members(top);
    if place.len() > 1 {
        let below = kids(top)->0;
        let rest = place.drop_first();
        let more = replace(below, rest, node);
        let changed = top.set_children(more);
        law_set_member(top, "children"@, Json::Array(more), "children"@);
        assert(kids(changed) == Some(more));
        assert(result == nodes.update(i, changed));
        let tail = other.drop_first();
        law_write_changes_one_place(below, rest, node, tail);
        if other.len() == 0 {
            assert(other =~= place.subrange(0, 0));
        } else if other[0] == i {
            lemma_prefix_tail(place, other);
            lemma_prefix_tail(other, place);
            if other.len() == 1 {
                assert(tail =~= rest.subrange(0, 0));
                assert forall|key: Seq<char>| key != "children"@ implies #[trigger] member(
                    changed,
                    key,
                ) == member(top, key) by {
                    law_set_member(top, "children"@, Json::Array(more), key);
                }
            } else {
                assert(there(result, other) == there(more, tail));
                assert(there(nodes, other) == there(below, tail));
            }
        } else {
            assert(there(result, other) == there(nodes, other));
            if other.is_prefix_of(place) {
                assert(other[0] == place.subrange(0, other.len() as int)[0]);
            }
        }
    } else if other.len() == 0 {
        assert(other =~= place.subrange(0, 0));
    } else if other[0] == i {
        assert(place =~= other.subrange(0, 1));
    }
}

proof fn lemma_prefix_tail(a: Seq<int>, b: Seq<int>)
    requires
        a.len() > 0,
        b.len() > 0,
        a[0] == b[0],
    ensures
        a.is_prefix_of(b) == a.drop_first().is_prefix_of(b.drop_first()),
{
    let x = a.drop_first();
    let y = b.drop_first();
    if a.is_prefix_of(b) {
        assert(x =~= y.subrange(0, x.len() as int));
    }
    if x.is_prefix_of(y) {
        assert forall|k: int| 0 <= k < a.len() implies a[k] == b.subrange(0, a.len() as int)[k] by {
            if k > 0 {
                assert(x[k - 1] == y.subrange(0, x.len() as int)[k - 1]);
            }
        }
        assert(a =~= b.subrange(0, a.len() as int));
    }
}

} // verus!
