//! The terms in which the promises of the library are stated: members of
//! documents, places in a forest, and the order of places.
//!
//! Nothing here is used to say what a function computes. A promise ties what
//! the functions compute to these terms.

use vstd::prelude::*;

use crate::json::Json;
use crate::value::Number;

verus! {

// ---- members of a node ------------------------------------------------------

/// The value under a key, if the document is an object that has one.
pub open spec fn member(node: Json, key: Seq<char>) -> Option<Json> {
    if node is Object && node->Object_0.dom().contains(key) {
        Some(node->Object_0[key])
    } else {
        None
    }
}

/// The node carries this id, as a text.
pub open spec fn named(node: Json, id: Seq<char>) -> bool {
    member(node, "id"@) == Some(Json::String(id))
}

/// The id that the node carries, if it is a text.
pub open spec fn id_text(node: Json) -> Option<Seq<char>> {
    match member(node, "id"@) {
        Some(Json::String(id)) => Some(id),
        _ => None,
    }
}

/// The node is of this type.
pub open spec fn typed(node: Json, kind: Seq<char>) -> bool {
    member(node, "type"@) == Some(Json::String(kind))
}

/// The node says that it is on.
pub open spec fn lit(node: Json) -> bool {
    member(node, "on"@) == Some(Json::Bool(true))
}

/// The choice mode that the node carries; `0` where it carries none.
pub open spec fn own_mode(node: Json) -> u64 {
    match member(node, "folder_mode"@) {
        Some(Json::Number(Number::PosInt(mode))) => mode,
        _ => 0,
    }
}

/// The nodes below this one, if it has a list of them.
pub open spec fn kids(node: Json) -> Option<Seq<Json>> {
    match member(node, "children"@) {
        Some(Json::Array(items)) => Some(items),
        _ => None,
    }
}

/// The node with another list of nodes below it.
pub open spec fn with_kids(node: Json, below: Seq<Json>) -> Json {
    Json::Object(node->Object_0.insert("children"@, Json::Array(below)))
}

// ---- places -----------------------------------------------------------------

/// The node at a place: the first step counts the nodes at the top level, each
/// further one the nodes below the node before.
pub open spec fn there(nodes: Seq<Json>, place: Seq<int>) -> Option<Json>
    decreases place.len(),
{
    if place.len() == 0 || place[0] < 0 || place[0] >= nodes.len() {
        None
    } else if place.len() == 1 {
        Some(nodes[place[0]])
    } else if kids(nodes[place[0]]) is Some {
        there(kids(nodes[place[0]])->0, place.drop_first())
    } else {
        None
    }
}

/// There is a node at the place, and it carries the id.
pub open spec fn named_there(nodes: Seq<Json>, place: Seq<int>, id: Seq<char>) -> bool {
    there(nodes, place) is Some && named(there(nodes, place)->0, id)
}

/// Depth first: a node comes before the nodes below it, and a sibling with all
/// that is below it before the next sibling.
pub open spec fn precedes(a: Seq<int>, b: Seq<int>) -> bool
    decreases b.len(),
{
    b.len() > 0 && (a.len() == 0 || a[0] < b[0] || (a[0] == b[0] && precedes(
        a.drop_first(),
        b.drop_first(),
    )))
}

/// Siblings first: the nodes of a level come in their order, and what is below
/// them comes after all of them.
pub open spec fn sooner(a: Seq<int>, b: Seq<int>) -> bool
    decreases b.len(),
{
    if a.len() <= 1 || b.len() <= 1 {
        a.len() == 1 && (b.len() > 1 || (b.len() == 1 && a[0] < b[0]))
    } else {
        a[0] < b[0] || (a[0] == b[0] && sooner(a.drop_first(), b.drop_first()))
    }
}

/// The place of the node that carries the id, the first of them depth first.
pub open spec fn first_place(nodes: Seq<Json>, place: Seq<int>, id: Seq<char>) -> bool {
    &&& named_there(nodes, place, id)
    &&& forall|other: Seq<int>| #[trigger]
        named_there(nodes, other, id) ==> other == place || precedes(place, other)
}

/// The place of the node that carries the id, the first of them with siblings
/// before what is below them.
pub open spec fn soonest_place(nodes: Seq<Json>, place: Seq<int>, id: Seq<char>) -> bool {
    &&& named_there(nodes, place, id)
    &&& forall|other: Seq<int>| #[trigger]
        named_there(nodes, other, id) ==> other == place || sooner(place, other)
}

/// No node carries the id.
pub open spec fn unnamed(nodes: Seq<Json>, id: Seq<char>) -> bool {
    forall|place: Seq<int>| !(#[trigger] named_there(nodes, place, id))
}

/// The places come depth first, none of them twice.
pub open spec fn in_order(places: Seq<Seq<int>>) -> bool {
    forall|i: int, j: int|
        0 <= i < j < places.len() ==> precedes(#[trigger] places[i], #[trigger] places[j])
}

/// All places of the forest at which there is a node, depth first.
pub open spec fn all_places(nodes: Seq<Json>, places: Seq<Seq<int>>) -> bool {
    &&& in_order(places)
    &&& forall|k: int| 0 <= k < places.len() ==> there(nodes, #[trigger] places[k]) is Some
    &&& forall|place: Seq<int>| #[trigger]
        there(nodes, place) is Some ==> places.contains(place)
}

/// The list holds the node of every place of the forest once, depth first.
pub open spec fn lists(nodes: Seq<Json>, list: Seq<Json>) -> bool {
    exists|places: Seq<Seq<int>>|
        {
            &&& #[trigger] all_places(nodes, places)
            &&& list.len() == places.len()
            &&& forall|k: int|
                0 <= k < list.len() ==> there(nodes, places[k]) == Some(#[trigger] list[k])
        }
}

/// There is a node at the place that keeps content of its own: one of type
/// `local` or `remote`, with an id to keep it under.
pub open spec fn keeps_content(nodes: Seq<Json>, place: Seq<int>) -> bool {
    &&& there(nodes, place) is Some
    &&& typed(there(nodes, place)->0, "local"@) || typed(there(nodes, place)->0, "remote"@)
    &&& member(there(nodes, place)->0, "id"@) is Some
    &&& member(there(nodes, place)->0, "id"@)->0 is String
}

/// The ids of all nodes that keep content, one for each of them, depth first.
pub open spec fn lists_content(nodes: Seq<Json>, ids: Seq<Seq<char>>) -> bool {
    exists|places: Seq<Seq<int>>|
        {
            &&& #[trigger] in_order(places)
            &&& ids.len() == places.len()
            &&& forall|k: int|
                0 <= k < places.len() ==> {
                    &&& keeps_content(nodes, #[trigger] places[k])
                    &&& named(there(nodes, places[k])->0, ids[k])
                }
            &&& forall|place: Seq<int>| #[trigger]
                keeps_content(nodes, place) ==> places.contains(place)
        }
}

// ---- answers ----------------------------------------------------------------

/// The document is an object with exactly these two members.
pub open spec fn has_members(
    document: Json,
    first: Seq<char>,
    first_value: Json,
    second: Seq<char>,
    second_value: Json,
) -> bool {
    &&& document is Object
    &&& member(document, first) == Some(first_value)
    &&& member(document, second) == Some(second_value)
    &&& forall|key: Seq<char>|
        key != first && key != second ==> #[trigger] member(document, key) is None
}

/// The answer lists every node of the forest.
pub open spec fn answers_list(nodes: Seq<Json>, answer: Json) -> bool {
    exists|list: Seq<Json>| #[trigger]
        lists(nodes, list) && has_members(
            answer,
            "success"@,
            Json::Bool(true),
            "data"@,
            Json::Array(list),
        )
}

/// The answer says why there is no list.
pub open spec fn answers_failure(message: Seq<char>, answer: Json) -> bool {
    has_members(answer, "success"@, Json::Bool(false), "message"@, Json::String(message))
}

/// The payload carries these arguments and nothing else.
pub open spec fn carries(payload: Json, args: Seq<Json>) -> bool {
    &&& payload is Object
    &&& member(payload, "_args"@) == Some(Json::Array(args))
    &&& forall|key: Seq<char>| key != "_args"@ ==> #[trigger] member(payload, key) is None
}

// ---- states -----------------------------------------------------------------

/// The two documents are the same but for the state, and for what is below
/// them; neither has a list of nodes below it unless both have.
pub open spec fn twin(a: Json, b: Json) -> bool {
    &&& a is Object <==> b is Object
    &&& !(a is Object) ==> a == b
    &&& forall|key: Seq<char>|
        key != "on"@ && key != "children"@ ==> #[trigger] member(a, key) == member(b, key)
    &&& kids(a) is Some <==> kids(b) is Some
    &&& kids(a) is None ==> member(a, "children"@) == member(b, "children"@)
}

/// A folder that hands its state down: every folder but a single-choice one.
pub open spec fn hands_down(node: Json) -> bool {
    typed(node, "folder"@) && own_mode(node) != 1
}

/// Every node above the place, from the one after `k` steps on, hands its state
/// down.
pub open spec fn handed_down(nodes: Seq<Json>, place: Seq<int>, k: int) -> bool {
    forall|m: int| k <= m < place.len() ==> hands_down(there(nodes, #[trigger] place.take(m))->0)
}

/// No node above the place, up to the one after `k` steps, is single-choice.
pub open spec fn climbs(nodes: Seq<Json>, place: Seq<int>, k: int) -> bool {
    forall|m: int| k <= m < place.len() ==> own_mode(there(nodes, #[trigger] place.take(m))->0) != 1
}

/// All siblings of the node at the place are on, and so are those of the nodes
/// above it, up to and without the one after `k` steps.
pub open spec fn others_lit(nodes: Seq<Json>, place: Seq<int>, k: int) -> bool {
    forall|m: int, j: int|
        k <= m < place.len() && j != place[m] && there(
            nodes,
            #[trigger] place.take(m).push(j),
        ) is Some ==> lit(there(nodes, place.take(m).push(j))->0)
}

/// Single choice holds among the node at the place and its siblings: at the top
/// level where the default mode is `1`, and below a node where that node's own
/// mode is `1`, or where it has none and the default mode is `1`.
pub open spec fn single_choice(nodes: Seq<Json>, place: Seq<int>, default_mode: u64) -> bool {
    if place.len() <= 1 {
        default_mode == 1
    } else {
        let mode = own_mode(there(nodes, place.drop_last())->0);
        mode == 1 || (mode == 0 && default_mode == 1)
    }
}

/// The state that the node at `other` is given when the node at `place` is
/// switched to `on`; none where it keeps the state that it has.
pub open spec fn state_due(
    nodes: Seq<Json>,
    place: Seq<int>,
    on: bool,
    default_mode: u64,
    switch_all: bool,
    other: Seq<int>,
) -> Option<bool> {
    if other == place {
        Some(on)
    } else if place.is_prefix_of(other) {
        if switch_all && handed_down(nodes, other, place.len() as int) {
            Some(on)
        } else {
            None
        }
    } else if other.is_prefix_of(place) {
        if switch_all && climbs(nodes, place, other.len() as int) {
            Some(on && others_lit(nodes, place, other.len() as int))
        } else {
            None
        }
    } else if on && single_choice(nodes, place, default_mode) && place.drop_last().is_prefix_of(
        other,
    ) {
        if other.len() == place.len() || (switch_all && handed_down(
            nodes,
            other,
            place.len() as int,
        )) {
            Some(false)
        } else {
            None
        }
    } else {
        None
    }
}

/// The forests have nodes at the same places, and those at this place are the
/// same but for the state.
pub open spec fn twins(nodes: Seq<Json>, result: Seq<Json>, place: Seq<int>) -> bool {
    &&& there(nodes, place) is Some <==> there(result, place) is Some
    &&& there(nodes, place) is Some ==> twin(there(nodes, place)->0, there(result, place)->0)
}

/// The node at the place has this state in the result, or the one it had.
pub open spec fn given(
    nodes: Seq<Json>,
    result: Seq<Json>,
    place: Seq<int>,
    state: Option<bool>,
) -> bool {
    there(nodes, place) is Some && there(nodes, place)->0 is Object ==> member(
        there(result, place)->0,
        "on"@,
    ) == (match state {
        Some(on) => Some(Json::Bool(on)),
        None => member(there(nodes, place)->0, "on"@),
    })
}

/// The result is the forest with the node that carries the id switched to `on`:
/// every node keeps its place and all its members but the state, and has the
/// state that it is due. Where no node carries the id, nothing changes.
pub open spec fn switches(
    nodes: Seq<Json>,
    id: Seq<char>,
    on: bool,
    default_mode: u64,
    switch_all: bool,
    result: Seq<Json>,
) -> bool {
    &&& unnamed(nodes, id) ==> result == nodes
    &&& forall|place: Seq<int>, other: Seq<int>|
        #![trigger first_place(nodes, place, id), there(nodes, other)]
        #![trigger first_place(nodes, place, id), there(result, other)]
        first_place(nodes, place, id) && other.len() > 0 ==> twins(nodes, result, other) && given(
            nodes,
            result,
            other,
            state_due(nodes, place, on, default_mode, switch_all, other),
        )
}

// ---- changed forests --------------------------------------------------------

/// The forest without the node at the place.
pub open spec fn cut(nodes: Seq<Json>, place: Seq<int>) -> Seq<Json>
    decreases place.len(),
{
    if place.len() <= 1 {
        nodes.remove(place[0])
    } else {
        nodes.update(
            place[0],
            with_kids(nodes[place[0]], cut(kids(nodes[place[0]])->0, place.drop_first())),
        )
    }
}

/// The node at the place is a folder with the id that takes nodes in: it has a
/// list of nodes below it, and no node with that id and without such a list
/// stands before it, or before a node that it is below, among their siblings.
pub open spec fn takes_in(nodes: Seq<Json>, place: Seq<int>, id: Seq<char>) -> bool {
    &&& named_there(nodes, place, id)
    &&& kids(there(nodes, place)->0) is Some
    &&& forall|k: int, j: int|
        0 <= k < place.len() && 0 <= j < place[k] ==> !blocks(
            nodes,
            #[trigger] place.take(k).push(j),
            id,
        )
}

/// The node at the place carries the id and has no list of nodes below it.
pub open spec fn blocks(nodes: Seq<Json>, place: Seq<int>, id: Seq<char>) -> bool {
    named_there(nodes, place, id) && kids(there(nodes, place)->0) is None
}

/// The first folder, depth first, that takes nodes in.
pub open spec fn first_taker(nodes: Seq<Json>, place: Seq<int>, id: Seq<char>) -> bool {
    &&& takes_in(nodes, place, id)
    &&& forall|other: Seq<int>| #[trigger]
        takes_in(nodes, other, id) ==> other == place || precedes(place, other)
}

/// The forest with one more node, behind those below the node at the place.
pub open spec fn grown(nodes: Seq<Json>, place: Seq<int>, node: Json) -> Seq<Json>
    decreases place.len(),
{
    let below = kids(nodes[place[0]])->0;
    nodes.update(
        place[0],
        with_kids(
            nodes[place[0]],
            if place.len() <= 1 {
                below.push(node)
            } else {
                grown(below, place.drop_first(), node)
            },
        ),
    )
}

} // verus!
