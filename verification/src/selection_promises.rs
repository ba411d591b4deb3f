//! What switching a node is for, stated on the members of the nodes and on
//! their places.

use vstd::prelude::*;

use crate::json::Json;
use crate::selection::{
    all_on, cascaded, choice_mode, reconciled, selected, selected_at, siblings_off, switched,
};
use crate::selection_laws::{
    ancestor_follows, ancestor_settles, diverge, kin, lemma_cascaded, lemma_locate_below,
    lemma_locate_prefix, lemma_reconciled, lemma_same_choice_mode, lemma_set_on, lemma_settled,
    lemma_siblings_off, passes_on, reached, settled, sibling,
};
use crate::terms::{
    climbs, first_place, given, handed_down, hands_down, kids, lit, member, named_there,
    others_lit, own_mode, single_choice, state_due, switches, there, twin, twins, unnamed,
};
use crate::tree::{locate, path_to};
use crate::tree_laws::lemma_set_children;
use crate::tree_promises::{
    law_nodes_are_their_members, law_path_is_the_first_place, law_places, lemma_first_place_is_one,
};

verus! {

proof fn lemma_kin_is_twin(before: Json, after: Json)
    requires
        kin(before, after),
    ensures
        twin(before, after),
{
    law_nodes_are_their_members(before);
    law_nodes_are_their_members(after);
    assert forall|key: Seq<char>| key != "on"@ && key != "children"@ implies #[trigger] member(
        before,
        key,
    ) == member(after, key) by {
        assert(after.get(key) == before.get(key));
    }
    assert(after.get("children"@) == member(after, "children"@));
    assert(before.get("children"@) == member(before, "children"@));
}

// ---- below a node -----------------------------------------------------------

/// The node, and every node between it and the one at `rest` below it, pass a
/// state on.
spec fn chain(node: Json, rest: Seq<int>) -> bool {
    &&& passes_on(node)
    &&& forall|m: int|
        0 < m < rest.len() ==> passes_on(locate(node.children()->0, #[trigger] rest.take(m))->0)
}

/// What a cascade from a node does to the node at `rest` below it.
spec fn cascade_there(node: Json, on: bool, rest: Seq<int>) -> bool {
    let before = locate(node.children()->0, rest);
    let after = locate(cascaded(node, on).children()->0, rest);
    &&& before is Some <==> after is Some
    &&& before is Some ==> {
        &&& kin(before->0, after->0)
        &&& before->0 is Object ==> after->0.get("on"@) == (if chain(node, rest) {
            Some(Json::Bool(on))
        } else {
            before->0.get("on"@)
        })
    }
}

proof fn lemma_cascade_there(node: Json, on: bool, rest: Seq<int>)
    requires
        node.children() is Some,
        rest.len() > 0,
    ensures
        cascaded(node, on).children() is Some,
        cascade_there(node, on, rest),
    decreases rest.len(),
{
    let children = node.children()->0;
    if passes_on(node) {
        let result = cascaded(node, on).children()->0;
        lemma_set_children(node, result);
        let i = rest[0];
        if 0 <= i < children.len() {
            let child = children[i];
            let changed = cascaded(child, on);
            assert(result[i] == changed.set_on(on));
            lemma_cascaded(child, on);
            lemma_set_on(changed, on);
            if rest.len() > 1 {
                let tail = rest.drop_first();
                assert(result[i].children() == changed.children());
                if child.children() is Some {
                    lemma_cascade_there(child, on, tail);
                    lemma_chain_tail(node, rest);
                }
            }
        }
    } else {
        assert(cascaded(node, on) == node);
    }
}

proof fn lemma_chain_tail(node: Json, rest: Seq<int>)
    requires
        node.children() is Some,
        passes_on(node),
        rest.len() > 1,
        0 <= rest[0] < node.children()->0.len(),
        node.children()->0[rest[0]].children() is Some,
    ensures
        chain(node, rest) == chain(node.children()->0[rest[0]], rest.drop_first()),
{
    let children = node.children()->0;
    let child = children[rest[0]];
    let tail = rest.drop_first();
    assert(rest.take(1) =~= seq![rest[0]]);
    assert(locate(children, rest.take(1)) == Some(child));
    assert forall|m: int| 0 < m < tail.len() implies locate(
        child.children()->0,
        #[trigger] tail.take(m),
    ) == locate(children, rest.take(m + 1)) by {
        assert(rest.take(m + 1).drop_first() =~= tail.take(m));
    }
    if chain(node, rest) {
        assert forall|m: int| 0 < m < tail.len() implies passes_on(
            locate(child.children()->0, #[trigger] tail.take(m))->0,
        ) by {
            assert(passes_on(locate(children, rest.take(m + 1))->0));
        }
    }
    if chain(child, tail) {
        assert forall|m: int| 0 < m < rest.len() implies passes_on(
            locate(children, #[trigger] rest.take(m))->0,
        ) by {
            if m > 1 {
                assert(passes_on(locate(child.children()->0, tail.take(m - 1))->0));
            }
        }
    }
}

/// A chain is what the terms call a state that is handed down.
proof fn lemma_chain_is_handed_down(nodes: Seq<Json>, base: Seq<int>, rest: Seq<int>)
    requires
        base.len() > 0,
        rest.len() > 0,
        locate(nodes, base) is Some,
        locate(nodes, base + rest) is Some,
    ensures
        locate(nodes, base)->0.children() is Some,
        chain(locate(nodes, base)->0, rest) == handed_down(nodes, base + rest, base.len() as int),
{
    let node = locate(nodes, base)->0;
    let whole = base + rest;
    lemma_locate_below(nodes, base, rest);
    let k = base.len() as int;
    assert forall|m: int| 0 <= m < rest.len() implies hands_down(
        there(nodes, #[trigger] whole.take(k + m))->0,
    ) == passes_on(
        if m == 0 {
            node
        } else {
            locate(node.children()->0, rest.take(m))->0
        },
    ) by {
        law_places(nodes, whole.take(k + m));
        if m == 0 {
            assert(whole.take(k) =~= base);
            law_nodes_are_their_members(node);
        } else {
            assert(whole.take(k + m) =~= base + rest.take(m));
            lemma_locate_below(nodes, base, rest.take(m));
            lemma_locate_prefix(node.children()->0, rest, m);
            law_nodes_are_their_members(locate(node.children()->0, rest.take(m))->0);
        }
    }
    if chain(node, rest) {
        assert forall|m: int| k <= m < whole.len() implies hands_down(
            there(nodes, #[trigger] whole.take(m))->0,
        ) by {
            let n = m - k;
            assert(whole.take(k + n) == whole.take(m));
            if n > 0 {
                assert(passes_on(locate(node.children()->0, rest.take(n))->0));
            }
        }
    }
    if handed_down(nodes, whole, k) {
        assert(hands_down(there(nodes, whole.take(k + 0))->0));
        assert forall|m: int| 0 < m < rest.len() implies passes_on(
            locate(node.children()->0, #[trigger] rest.take(m))->0,
        ) by {
            assert(hands_down(there(nodes, whole.take(k + m))->0));
        }
    }
}

/// A cascade gives its state to every node below that it is handed down to, and
/// changes nothing else.
pub proof fn law_cascade_is_handed_down(node: Json, on: bool, place: Seq<int>)
    requires
        place.len() > 0,
    ensures
        twin(node, cascaded(node, on)),
        member(cascaded(node, on), "on"@) == member(node, "on"@),
        kids(node) is None ==> cascaded(node, on) == node,
        kids(node) is Some ==> {
            &&& kids(cascaded(node, on)) is Some
            &&& twins(kids(node)->0, kids(cascaded(node, on))->0, place)
            &&& given(
                kids(node)->0,
                kids(cascaded(node, on))->0,
                place,
                if hands_down(node) && handed_down(kids(node)->0, place, 1) {
                    Some(on)
                } else {
                    None
                },
            )
        },
{
    let after = cascaded(node, on);
    law_nodes_are_their_members(node);
    law_nodes_are_their_members(after);
    lemma_cascaded(node, on);
    lemma_kin_is_twin(node, after);
    assert(after.get("on"@) == member(after, "on"@));
    assert(node.get("on"@) == member(node, "on"@));
    if kids(node) is Some {
        lemma_cascade_there(node, on, place);
    }
    let below = kids(node)->0;
    let result = kids(after)->0;
    law_places(below, place);
    law_places(result, place);
    if kids(node) is Some && locate(below, place) is Some {
        let x = locate(below, place)->0;
        let y = locate(result, place)->0;
        lemma_kin_is_twin(x, y);
        law_nodes_are_their_members(x);
        law_nodes_are_their_members(y);
        assert(y.get("on"@) == member(y, "on"@));
        assert(x.get("on"@) == member(x, "on"@));
        assert forall|m: int| 0 < m < place.len() implies passes_on(
            locate(below, #[trigger] place.take(m))->0,
        ) == hands_down(there(below, place.take(m))->0) by {
            law_places(below, place.take(m));
            law_nodes_are_their_members(locate(below, place.take(m))->0);
        }
        if chain(node, place) {
            assert forall|m: int| 1 <= m < place.len() implies hands_down(
                there(below, #[trigger] place.take(m))->0,
            ) by {
                assert(passes_on(locate(below, place.take(m))->0));
            }
        }
        if hands_down(node) && handed_down(below, place, 1) {
            assert forall|m: int| 0 < m < place.len() implies passes_on(
                locate(below, #[trigger] place.take(m))->0,
            ) by {
                assert(hands_down(there(below, place.take(m))->0));
            }
        }
    }
}

// ---- above a node -----------------------------------------------------------

proof fn lemma_climbs_is_reached(nodes: Seq<Json>, path: Seq<int>, k: int)
    requires
        locate(nodes, path) is Some,
        0 < k < path.len(),
    ensures
        climbs(nodes, path, k) == reached(nodes, path, k),
{
    assert forall|m: int| k <= m < path.len() implies (own_mode(
        there(nodes, #[trigger] path.take(m))->0,
    ) != 1) == !locate(nodes, path.take(m))->0.is_single_choice() by {
        law_places(nodes, path.take(m));
        law_nodes_are_their_members(locate(nodes, path.take(m))->0);
    }
    if climbs(nodes, path, k) {
        assert forall|m: int| k <= m < path.len() implies !locate(
            nodes,
            #[trigger] path.take(m),
        )->0.is_single_choice() by {
            assert(own_mode(there(nodes, path.take(m))->0) != 1);
        }
    }
    if reached(nodes, path, k) {
        assert forall|m: int| k <= m < path.len() implies own_mode(
            there(nodes, #[trigger] path.take(m))->0,
        ) != 1 by {
            assert(!locate(nodes, path.take(m))->0.is_single_choice());
        }
    }
}

/// The result leaves what is beside the path as it is, switches the node at its
/// end, and lets the ancestors follow.
spec fn followed_up(nodes: Seq<Json>, result: Seq<Json>, path: Seq<int>, on: bool) -> bool {
    &&& locate(nodes, path) is Some
    &&& locate(result, path) is Some
    &&& forall|other: Seq<int>, d: int| #[trigger]
        diverge(path, other, d) ==> locate(result, other) == locate(nodes, other)
    &&& forall|k: int|
        #![trigger path.take(k)]
        0 < k < path.len() ==> {
            let after = locate(result, path.take(k))->0;
            &&& locate(result, path.take(k)) is Some
            &&& after.children() is Some
            &&& reached(nodes, path, k) ==> after.get("on"@) == Some(
                Json::Bool(on && all_on(after.children()->0)),
            )
        }
}

/// An ancestor that follows is on exactly when the node is on and so are all
/// siblings on the way up to it.
proof fn lemma_climb(nodes: Seq<Json>, result: Seq<Json>, path: Seq<int>, on: bool, k: int)
    requires
        followed_up(nodes, result, path, on),
        0 < k < path.len(),
        reached(nodes, path, k),
    ensures
        locate(result, path.take(k))->0.is_on() == (on && locate(result, path)->0.is_on()
            && others_lit(nodes, path, k)),
    decreases path.len() - k,
{
    let up = path.take(k);
    let after = locate(result, up)->0;
    let children = after.children()->0;
    let next = path.take(k + 1);
    assert(next =~= up.push(path[k]));
    let target = locate(result, path)->0;
    if k + 1 < path.len() {
        assert(reached(nodes, path, k + 1));
        lemma_climb(nodes, result, path, on, k + 1);
    } else {
        assert(next =~= path);
    }
    assert forall|j: int| #[trigger] locate(result, up.push(j)) == (if 0 <= j < children.len() {
        Some(children[j])
    } else {
        None
    }) by {
        assert(up.push(j) =~= up + seq![j]);
        lemma_locate_below(result, up, seq![j]);
    }
    assert(locate(result, next) is Some) by {
        if k + 1 == path.len() {
            assert(next == path);
        }
    }
    assert(locate(result, up.push(path[k])) is Some);
    assert forall|j: int| j != path[k] implies #[trigger] there(nodes, up.push(j)) == locate(
        result,
        up.push(j),
    ) by {
        let other = up.push(j);
        assert(other.take(k) =~= path.take(k));
        assert(diverge(path, other, k));
        law_places(nodes, other);
    }
    if on && all_on(children) {
        assert(children[path[k]].is_on());
        assert(locate(result, next)->0.is_on());
        assert forall|m: int, j: int| k <= m < path.len() && j != path[m] && there(
            nodes,
            #[trigger] path.take(m).push(j),
        ) is Some implies lit(there(nodes, path.take(m).push(j))->0) by {
            if m == k {
                assert(there(nodes, up.push(j)) == locate(result, up.push(j)));
                assert(children[j].is_on());
                law_nodes_are_their_members(children[j]);
            } else {
                assert(others_lit(nodes, path, k + 1));
            }
        }
    }
    if on && target.is_on() && others_lit(nodes, path, k) {
        assert(locate(result, next)->0.is_on()) by {
            if k + 1 < path.len() {
                assert forall|m: int, j: int| k + 1 <= m < path.len() && j != path[m] && there(
                    nodes,
                    #[trigger] path.take(m).push(j),
                ) is Some implies lit(there(nodes, path.take(m).push(j))->0) by {}
            }
        }
        assert forall|j: int| 0 <= j < children.len() implies (#[trigger] children[j]).is_on() by {
            assert(locate(result, up.push(j)) == Some(children[j]));
            if j != path[k] {
                assert(there(nodes, up.push(j)) == Some(children[j]));
                assert(up.push(j) == path.take(k).push(j));
                law_nodes_are_their_members(children[j]);
            }
        }
    }
}

/// A walk up from the node at a place gives each node above it, up to the first
/// single-choice one, the state `on` where the node is on, all its siblings are
/// and all siblings on the way up, and the state off otherwise. Nothing else
/// changes.
pub proof fn law_parents_follow(nodes: Seq<Json>, place: Seq<int>, on: bool, other: Seq<int>)
    requires
        there(nodes, place) is Some,
        other.len() > 0,
    ensures
        twins(nodes, reconciled(nodes, place, on), other),
        given(
            nodes,
            reconciled(nodes, place, on),
            other,
            if other != place && other.is_prefix_of(place) && climbs(
                nodes,
                place,
                other.len() as int,
            ) {
                Some(
                    on && lit(there(nodes, place)->0) && others_lit(
                        nodes,
                        place,
                        other.len() as int,
                    ),
                )
            } else {
                None
            },
        ),
{
    let result = reconciled(nodes, place, on);
    law_places(nodes, place);
    law_places(nodes, other);
    law_places(result, other);
    lemma_reconciled(nodes, place, on);
    lemma_relation(place, other);
    if other == place {
        lemma_twins_same(nodes, result, other);
    } else if place.is_prefix_of(other) {
        let rest = other.skip(place.len() as int);
        assert(other =~= place + rest);
        lemma_twins_same(nodes, result, other);
    } else if other.is_prefix_of(place) {
        let k = other.len() as int;
        assert(other =~= place.take(k));
        assert(ancestor_follows(nodes, result, place, on, k));
        lemma_locate_prefix(nodes, place, k);
        let before = locate(nodes, other)->0;
        let after = locate(result, other)->0;
        lemma_kin_is_twin(before, after);
        law_nodes_are_their_members(before);
        law_nodes_are_their_members(after);
        assert(after.get("on"@) == member(after, "on"@));
        assert(before.get("on"@) == member(before, "on"@));
        lemma_climbs_is_reached(nodes, place, k);
        if reached(nodes, place, k) {
            assert(followed_up(nodes, result, place, on)) by {
                assert forall|m: int|
                    #![trigger place.take(m)]
                    0 < m < place.len() implies {
                    let up = locate(result, place.take(m))->0;
                    &&& locate(result, place.take(m)) is Some
                    &&& up.children() is Some
                    &&& reached(nodes, place, m) ==> up.get("on"@) == Some(
                        Json::Bool(on && all_on(up.children()->0)),
                    )
                } by {
                    assert(ancestor_follows(nodes, result, place, on, m));
                }
            }
            lemma_climb(nodes, result, place, on, k);
            law_nodes_are_their_members(locate(nodes, place)->0);
        }
    } else {
        let d = choose|d: int| diverge(place, other, d);
        lemma_twins_same(nodes, result, other);
    }
}

/// A walk up from the top level, or from below a place where there is no node,
/// changes nothing.
pub proof fn law_nothing_above_to_follow(nodes: Seq<Json>, place: Seq<int>, on: bool)
    requires
        place.len() < 2 || there(nodes, place.drop_last()) is None,
    ensures
        reconciled(nodes, place, on) == nodes,
{
    if place.len() >= 2 {
        law_places(nodes, place.drop_last());
    }
}

/// Two places are the same, or one is above the other, or they part ways.
proof fn lemma_relation(a: Seq<int>, b: Seq<int>)
    ensures
        a == b || a.is_prefix_of(b) || b.is_prefix_of(a) || exists|d: int| diverge(a, b, d),
{
    if !a.is_prefix_of(b) && !b.is_prefix_of(a) {
        assert(a.take(0) =~= b.take(0));
        let d = lemma_part_ways(a, b, 0);
        assert(diverge(a, b, d));
    }
}

proof fn lemma_part_ways(a: Seq<int>, b: Seq<int>, n: int) -> (d: int)
    requires
        !a.is_prefix_of(b),
        !b.is_prefix_of(a),
        0 <= n <= a.len(),
        n <= b.len(),
        a.take(n) == b.take(n),
    ensures
        diverge(a, b, d),
    decreases a.len() - n,
{
    if n == a.len() {
        assert(a =~= b.subrange(0, n));
        n
    } else if n == b.len() {
        assert(b =~= a.subrange(0, n));
        n
    } else if a[n] != b[n] {
        n
    } else {
        assert(a.take(n + 1) =~= a.take(n).push(a[n]));
        assert(b.take(n + 1) =~= b.take(n).push(b[n]));
        lemma_part_ways(a, b, n + 1)
    }
}

proof fn lemma_twins_same(nodes: Seq<Json>, result: Seq<Json>, other: Seq<int>)
    requires
        locate(nodes, other) == locate(result, other),
    ensures
        twins(nodes, result, other),
        given(nodes, result, other, None),
{
    law_places(nodes, other);
    law_places(result, other);
}

// ---- the whole rule ---------------------------------------------------------

proof fn lemma_single_choice(nodes: Seq<Json>, path: Seq<int>, default_mode: u64)
    requires
        locate(nodes, path) is Some,
    ensures
        (choice_mode(nodes, path, default_mode) == 1) == single_choice(nodes, path, default_mode),
{
    if path.len() >= 2 {
        let up = path.drop_last();
        assert(up =~= path.take(path.len() - 1));
        lemma_locate_prefix(nodes, path, path.len() - 1);
        law_places(nodes, up);
        law_nodes_are_their_members(locate(nodes, up)->0);
    }
}

/// A node that was switched, and the nodes below it.
proof fn lemma_switched_there(
    nodes: Seq<Json>,
    result: Seq<Json>,
    base: Seq<int>,
    on: bool,
    cascade: bool,
    other: Seq<int>,
)
    requires
        base.len() > 0,
        base.is_prefix_of(other),
        locate(result, base) == (match locate(nodes, base) {
            Some(node) => Some(switched(node, on, cascade)),
            None => None,
        }),
    ensures
        twins(nodes, result, other),
        given(
            nodes,
            result,
            other,
            if other == base || (cascade && handed_down(nodes, other, base.len() as int)) {
                Some(on)
            } else {
                None
            },
        ),
{
    law_places(nodes, other);
    law_places(result, other);
    let rest = other.skip(base.len() as int);
    assert(other =~= base + rest);
    if locate(nodes, base) is None {
        if rest.len() == 0 {
            assert(other =~= base);
        } else {
            lemma_nothing_below(nodes, base, rest);
            lemma_nothing_below(result, base, rest);
        }
    } else {
        let node = locate(nodes, base)->0;
        let after = switched(node, on, cascade);
        lemma_cascaded(node, on);
        lemma_set_on(node, on);
        lemma_set_on(cascaded(node, on), on);
        if rest.len() == 0 {
            assert(other =~= base);
            assert(kin(node, after));
            lemma_kin_is_twin(node, after);
            law_nodes_are_their_members(after);
            assert(after.get("on"@) == member(after, "on"@));
        } else {
            assert(other != base);
            lemma_locate_below(nodes, base, rest);
            lemma_locate_below(result, base, rest);
            if node.children() is Some {
                lemma_cascade_there(node, on, rest);
                if cascade {
                    assert(after.children() == cascaded(node, on).children());
                    if locate(nodes, other) is Some {
                        lemma_chain_is_handed_down(nodes, base, rest);
                        let x = locate(nodes, other)->0;
                        let y = locate(result, other)->0;
                        lemma_kin_is_twin(x, y);
                        law_nodes_are_their_members(x);
                        law_nodes_are_their_members(y);
                        assert(y.get("on"@) == member(y, "on"@));
                        assert(x.get("on"@) == member(x, "on"@));
                    }
                } else {
                    lemma_twins_same(nodes, result, other);
                }
            }
        }
    }
}

proof fn lemma_nothing_below(nodes: Seq<Json>, base: Seq<int>, rest: Seq<int>)
    requires
        base.len() > 0,
        rest.len() > 0,
        locate(nodes, base) is None,
    ensures
        locate(nodes, base + rest) is None,
{
    let whole = base + rest;
    if locate(nodes, whole) is Some {
        lemma_locate_prefix(nodes, whole, base.len() as int);
        assert(whole.take(base.len() as int) =~= base);
    }
}

#[verifier::rlimit(40)]
proof fn lemma_selected_there(
    nodes: Seq<Json>,
    path: Seq<int>,
    on: bool,
    default_mode: u64,
    switch_all: bool,
    other: Seq<int>,
)
    requires
        locate(nodes, path) is Some,
        locate(nodes, path)->0 is Object,
        other.len() > 0,
    ensures
        ({
            let result = selected_at(nodes, path, on, default_mode, switch_all);
            &&& twins(nodes, result, other)
            &&& given(
                nodes,
                result,
                other,
                state_due(nodes, path, on, default_mode, switch_all, other),
            )
        }),
{
    let result = selected_at(nodes, path, on, default_mode, switch_all);
    let before = settled(nodes, path, on, switch_all);
    let excludes = on && single_choice(nodes, path, default_mode);
    lemma_settled(nodes, path, on, switch_all);
    lemma_same_choice_mode(nodes, path, on, switch_all, default_mode);
    lemma_single_choice(nodes, path, default_mode);
    lemma_siblings_off(before, path, switch_all);
    assert(result == (if excludes {
        siblings_off(before, path, switch_all)
    } else {
        before
    }));
    let target = switched(locate(nodes, path)->0, on, switch_all);
    assert(locate(result, path) == Some(target));
    lemma_relation(path, other);
    if path.is_prefix_of(other) || other == path {
        assert(path.is_prefix_of(other)) by {
            if other == path {
                assert(path =~= other.subrange(0, path.len() as int));
            }
        }
        lemma_switched_there(nodes, result, path, on, switch_all, other);
    } else if other.is_prefix_of(path) {
        let k = other.len() as int;
        assert(k < path.len()) by {
            if k == path.len() {
                assert(other =~= path);
            }
        }
        assert(other =~= path.take(k));
        assert(ancestor_settles(nodes, before, path, on, switch_all, k));
        assert(locate(before, path.take(k)) is Some);
        let old_node = locate(nodes, other)->0;
        let mid = locate(before, other)->0;
        let new_node = locate(result, other)->0;
        assert(kin(mid, new_node)) by {
            if !excludes {
                assert(mid == new_node);
            }
        }
        assert(kin(old_node, new_node)) by {
            assert forall|key: Seq<char>| key != "on"@ && key != "children"@ implies
                #[trigger] new_node.get(key) == old_node.get(key) by {
                assert(mid.get(key) == old_node.get(key));
            }
        }
        lemma_kin_is_twin(old_node, new_node);
        law_places(nodes, other);
        law_places(result, other);
        law_nodes_are_their_members(old_node);
        law_nodes_are_their_members(new_node);
        assert(new_node.get("on"@) == member(new_node, "on"@));
        assert(old_node.get("on"@) == member(old_node, "on"@));
        assert(new_node.get("on"@) == mid.get("on"@));
        lemma_climbs_is_reached(nodes, path, k);
        if switch_all && reached(nodes, path, k) {
            assert(followed_up(nodes, before, path, on)) by {
                assert forall|m: int|
                    #![trigger path.take(m)]
                    0 < m < path.len() implies {
                    let up = locate(before, path.take(m))->0;
                    &&& locate(before, path.take(m)) is Some
                    &&& up.children() is Some
                    &&& reached(nodes, path, m) ==> up.get("on"@) == Some(
                        Json::Bool(on && all_on(up.children()->0)),
                    )
                } by {
                    assert(ancestor_settles(nodes, before, path, on, switch_all, m));
                }
            }
            lemma_climb(nodes, before, path, on, k);
            let node = locate(nodes, path)->0;
            lemma_cascaded(node, on);
            lemma_set_on(cascaded(node, on), on);
            assert(target.is_on() == on);
        }
    } else {
        let d = choose|d: int| diverge(path, other, d);
        let last = path.len() - 1;
        assert(locate(before, other) == locate(nodes, other));
        if excludes && d == last {
            let base = sibling(path, other[d]);
            assert(base =~= other.take(d + 1)) by {
                assert(other.take(d + 1) =~= other.take(d).push(other[d]));
                assert(path.drop_last() =~= path.take(d));
            }
            assert(base.is_prefix_of(other)) by {
                assert(base =~= other.subrange(0, base.len() as int));
            }
            assert(base.take(d) =~= path.take(d));
            assert(diverge(path, base, d));
            assert(locate(before, base) == locate(nodes, base));
            assert(locate(result, sibling(path, other[d])) == (match locate(
                before,
                sibling(path, other[d]),
            ) {
                Some(node) => Some(switched(node, false, switch_all)),
                None => None,
            }));
            lemma_switched_there(nodes, result, base, false, switch_all, other);
            assert(path.drop_last().is_prefix_of(other)) by {
                assert(path.drop_last() =~= other.subrange(0, d));
            }
            assert((other == base) == (other.len() == path.len())) by {
                if other.len() == path.len() {
                    assert(other =~= base);
                }
            }
        } else {
            lemma_twins_same(nodes, result, other);
            if path.drop_last().is_prefix_of(other) && d < last {
                assert(path.drop_last()[d] == other.subrange(0, last)[d]);
            }
            assert(state_due(nodes, path, on, default_mode, switch_all, other) is None);
        }
    }
}

/// Switching a node does what it is due to do to every node of the forest: to
/// the node with the id, to what is below and above it, and to its siblings.
/// All else stays.
pub proof fn law_every_node_is_given_its_due(
    nodes: Seq<Json>,
    id: Seq<char>,
    on: bool,
    default_mode: u64,
    switch_all: bool,
)
    ensures
        switches(
            nodes,
            id,
            on,
            default_mode,
            switch_all,
            selected(nodes, id, on, default_mode, switch_all),
        ),
{
    let result = selected(nodes, id, on, default_mode, switch_all);
    law_path_is_the_first_place(nodes, id);
    if path_to(nodes, id) is None {
        assert(unnamed(nodes, id));
        assert forall|place: Seq<int>| !(#[trigger] first_place(nodes, place, id)) by {
            if first_place(nodes, place, id) {
                assert(named_there(nodes, place, id));
            }
        }
    } else {
        let path = path_to(nodes, id)->0;
        assert(named_there(nodes, path, id));
        assert(!unnamed(nodes, id));
        law_places(nodes, path);
        assert forall|place: Seq<int>, other: Seq<int>|
            #![trigger first_place(nodes, place, id), there(nodes, other)]
            #![trigger first_place(nodes, place, id), there(result, other)]
            first_place(nodes, place, id) && other.len() > 0 implies twins(nodes, result, other)
            && given(
            nodes,
            result,
            other,
            state_due(nodes, place, on, default_mode, switch_all, other),
        ) by {
            lemma_first_place_is_one(nodes, id, place, path);
            lemma_selected_there(nodes, path, on, default_mode, switch_all, other);
        }
    }
}

/// Among the nodes of the top level the default mode decides, whatever the
/// nodes say of themselves. Where it is `1`, switching one of them on switches
/// every other off; where it is another, or the node is switched off, none of
/// the others changes.
pub proof fn law_default_mode_decides_at_the_top_level(
    nodes: Seq<Json>,
    id: Seq<char>,
    on: bool,
    default_mode: u64,
    switch_all: bool,
    i: int,
    j: int,
)
    requires
        first_place(nodes, seq![i], id),
        0 <= j < nodes.len(),
        j != i,
    ensures
        ({
            let result = selected(nodes, id, on, default_mode, switch_all);
            &&& result.len() == nodes.len()
            &&& lit(result[i]) == on
            &&& on && default_mode == 1 ==> !lit(result[j])
            &&& !on || default_mode != 1 ==> result[j] == nodes[j]
        }),
{
    let result = selected(nodes, id, on, default_mode, switch_all);
    let place = seq![i];
    law_path_is_the_first_place(nodes, id);
    assert(named_there(nodes, place, id));
    let path = path_to(nodes, id)->0;
    lemma_first_place_is_one(nodes, id, place, path);
    law_every_node_is_given_its_due(nodes, id, on, default_mode, switch_all);
    let other = seq![j];
    assert(there(nodes, place) is Some && there(nodes, other) is Some);
    assert(twins(nodes, result, place) && twins(nodes, result, other));
    assert(there(result, place) == Some(result[i]));
    assert(there(result, other) == Some(result[j]));
    assert(!place.is_prefix_of(other)) by {
        assert(place[0] != other.subrange(0, 1)[0]);
    }
    assert(!other.is_prefix_of(place)) by {
        assert(other[0] != place.subrange(0, 1)[0]);
    }
    assert(place.drop_last() =~= other.subrange(0, 0));
    assert(result.len() == nodes.len()) by {
        let end = seq![nodes.len() as int];
        let result_end = seq![result.len() as int];
        assert(there(nodes, end) is None);
        assert(there(result, result_end) is None);
        assert(twins(nodes, result, end));
        assert(there(nodes, result_end) is None || there(result, result_end) is Some);
        assert(twins(nodes, result, result_end));
    }
    law_places(nodes, place);
    law_places(nodes, other);
    law_places(result, other);
    if !on || default_mode != 1 {
        lemma_settled(nodes, path, on, switch_all);
        lemma_same_choice_mode(nodes, path, on, switch_all, default_mode);
        assert(other.take(0) =~= place.take(0));
        assert(diverge(place, other, 0));
        lemma_single_choice(nodes, path, default_mode);
        assert(result == settled(nodes, path, on, switch_all));
    }
}

/// Among the nodes below a node that node's own mode decides where it has one,
/// and otherwise the default mode. Where the mode that decides is `1`,
/// switching one of them on switches every other off; where it is another, or
/// the node is switched off, none of the others changes.
pub proof fn law_own_mode_decides_below_a_node(
    nodes: Seq<Json>,
    id: Seq<char>,
    on: bool,
    default_mode: u64,
    switch_all: bool,
    place: Seq<int>,
    j: int,
)
    requires
        first_place(nodes, place, id),
        place.len() > 1,
        j != place.last(),
        there(nodes, place.drop_last().push(j)) is Some,
    ensures
        ({
            let result = selected(nodes, id, on, default_mode, switch_all);
            let parent = there(nodes, place.drop_last())->0;
            let before = there(nodes, place.drop_last().push(j));
            let after = there(result, place.drop_last().push(j));
            let single = own_mode(parent) == 1 || (own_mode(parent) == 0 && default_mode == 1);
            &&& there(nodes, place.drop_last()) is Some
            &&& there(result, place) is Some
            &&& lit(there(result, place)->0) == on
            &&& after is Some
            &&& on && single ==> !lit(after->0)
            &&& !on || !single ==> after == before
        }),
{
    let result = selected(nodes, id, on, default_mode, switch_all);
    let other = place.drop_last().push(j);
    let d = place.len() - 1;
    law_path_is_the_first_place(nodes, id);
    assert(named_there(nodes, place, id));
    let path = path_to(nodes, id)->0;
    lemma_first_place_is_one(nodes, id, place, path);
    law_every_node_is_given_its_due(nodes, id, on, default_mode, switch_all);
    assert(there(nodes, place) is Some);
    assert(twins(nodes, result, place) && twins(nodes, result, other));
    law_places(nodes, place);
    lemma_locate_prefix(nodes, place, d);
    assert(place.drop_last() =~= place.take(d));
    law_places(nodes, place.drop_last());
    assert(!place.is_prefix_of(other)) by {
        assert(place[d] != other.subrange(0, place.len() as int)[d]);
    }
    assert(!other.is_prefix_of(place)) by {
        assert(other[d] != place.subrange(0, place.len() as int)[d]);
    }
    assert(place.drop_last() =~= other.subrange(0, d));
    law_places(nodes, other);
    law_places(result, other);
    assert(other.take(d) =~= place.take(d));
    assert(diverge(place, other, d));
    lemma_settled(nodes, path, on, switch_all);
    lemma_same_choice_mode(nodes, path, on, switch_all, default_mode);
    lemma_single_choice(nodes, path, default_mode);
}

} // verus!
