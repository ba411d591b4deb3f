//! What holds of the tree operations together.

use vstd::prelude::*;

use crate::json::{lemma_children_smaller, lemma_keys, Json};
use crate::tree::{
    appended_from, first_with_id, flatten, flatten_from, index_of_id, inserted,
    lemma_first_with_id_concat, lemma_path_to_locates, lemma_rewrite, locate, path_from, path_in,
    path_to, removal, removal_below, replace, subtree, Removal,
};

verus! {

// ---- finding ----------------------------------------------------------------

proof fn lemma_path_in_finds(node: Json, id: Seq<char>)
    ensures
        match path_in(node, id) {
            Some(path) => first_with_id(subtree(node), id) == (if path.len() == 0 {
                Some(node)
            } else {
                locate(node.children()->0, path)
            }) && (path.len() > 0 ==> node.children() is Some) && first_with_id(subtree(node), id) is Some,
            None => first_with_id(subtree(node), id) is None,
        },
    decreases node, 0int,
{
    lemma_children_smaller(node);
    assert(subtree(node)[0] == node);
    match node.children() {
        Some(children) => {
            assert(subtree(node).drop_first() =~= flatten(children));
            lemma_path_from_finds(children, 0, id);
        },
        None => {
            assert(subtree(node).drop_first() =~= Seq::<Json>::empty());
            assert(first_with_id(Seq::<Json>::empty(), id) is None);
        },
    }
}

proof fn lemma_path_from_finds(nodes: Seq<Json>, i: int, id: Seq<char>)
    requires
        0 <= i,
    ensures
        match path_from(nodes, i, id) {
            Some(path) => {
                &&& path.len() > 0
                &&& locate(nodes, path) is Some
                &&& first_with_id(flatten_from(nodes, i), id) == locate(nodes, path)
            },
            None => first_with_id(flatten_from(nodes, i), id) is None,
        },
    decreases nodes, nodes.len() - i,
{
    if i < nodes.len() {
        lemma_path_in_finds(nodes[i], id);
        lemma_first_with_id_concat(subtree(nodes[i]), flatten_from(nodes, i + 1), id);
        match path_in(nodes[i], id) {
            Some(below) => {
                assert((seq![i] + below).drop_first() =~= below);
            },
            None => lemma_path_from_finds(nodes, i + 1, id),
        }
    }
}

/// The node that a search by id finds is the node at the path to that id; one
/// exists exactly when the other does.
pub proof fn law_path_leads_to_found(nodes: Seq<Json>, id: Seq<char>)
    ensures
        path_to(nodes, id) is Some <==> first_with_id(flatten(nodes), id) is Some,
        path_to(nodes, id) is Some ==> locate(nodes, path_to(nodes, id)->0) == first_with_id(
            flatten(nodes),
            id,
        ),
{
    lemma_path_from_finds(nodes, 0, id);
}

/// A search by id finds a node of the forest that has the id, and none comes
/// before it; it finds nothing exactly when no node has the id.
pub proof fn law_found_is_first(list: Seq<Json>, id: Seq<char>)
    ensures
        match first_with_id(list, id) {
            Some(node) => exists|k: int|
                {
                    &&& 0 <= k < list.len()
                    &&& #[trigger] list[k] == node
                    &&& node.id() == Some(id)
                    &&& forall|j: int| 0 <= j < k ==> (#[trigger] list[j]).id() != Some(id)
                },
            None => forall|j: int| 0 <= j < list.len() ==> (#[trigger] list[j]).id() != Some(id),
        },
    decreases list.len(),
{
    if list.len() > 0 && list[0].id() != Some(id) {
        let rest = list.drop_first();
        law_found_is_first(rest, id);
        match first_with_id(rest, id) {
            Some(node) => {
                let k = choose|k: int|
                    {
                        &&& 0 <= k < rest.len()
                        &&& #[trigger] rest[k] == node
                        &&& node.id() == Some(id)
                        &&& forall|j: int| 0 <= j < k ==> (#[trigger] rest[j]).id() != Some(id)
                    };
                assert(list[k + 1] == node);
                assert forall|j: int| 0 <= j < k + 1 implies (#[trigger] list[j]).id() != Some(
                    id,
                ) by {
                    if j > 0 {
                        assert(list[j] == rest[j - 1]);
                    }
                }
            },
            None => {
                assert forall|j: int| 0 <= j < list.len() implies (#[trigger] list[j]).id() != Some(
                    id,
                ) by {
                    if j > 0 {
                        assert(list[j] == rest[j - 1]);
                    }
                }
            },
        }
    }
}

// ---- the flat list ----------------------------------------------------------

/// The block of a list that starts at `k` and is as long as `part` is `part`.
pub open spec fn block_at(list: Seq<Json>, k: int, part: Seq<Json>) -> bool {
    &&& 0 <= k
    &&& k + part.len() <= list.len()
    &&& list.subrange(k, k + part.len()) == part
}

proof fn lemma_block_in_flatten_from(nodes: Seq<Json>, i: int, j: int) -> (k: int)
    requires
        0 <= i <= j < nodes.len(),
    ensures
        block_at(flatten_from(nodes, i), k, subtree(nodes[j])),
    decreases j - i,
{
    let head = subtree(nodes[i]);
    let tail = flatten_from(nodes, i + 1);
    if i == j {
        assert((head + tail).subrange(0, head.len() as int) =~= head);
        0
    } else {
        let inner = lemma_block_in_flatten_from(nodes, i + 1, j);
        let part = subtree(nodes[j]);
        let k = head.len() + inner;
        assert((head + tail).subrange(k, k + part.len()) =~= tail.subrange(
            inner,
            inner + part.len(),
        ));
        k
    }
}

proof fn lemma_block_of_block(list: Seq<Json>, a: int, part: Seq<Json>, b: int, inner: Seq<Json>)
    requires
        block_at(list, a, part),
        block_at(part, b, inner),
    ensures
        block_at(list, a + b, inner),
{
    assert(list.subrange(a + b, a + b + inner.len()) =~= list.subrange(
        a,
        a + part.len(),
    ).subrange(b, b + inner.len()));
}

/// In the flat list every node stands directly before the nodes below it:
/// somewhere the list has the block that starts with the node and goes on with
/// its descendants.
pub proof fn law_flatten_keeps_subtrees(nodes: Seq<Json>, path: Seq<int>)
    requires
        locate(nodes, path) is Some,
    ensures
        subtree(locate(nodes, path)->0)[0] == locate(nodes, path)->0,
        exists|k: int| #[trigger]
            block_at(flatten(nodes), k, subtree(locate(nodes, path)->0)),
    decreases path.len(),
{
    let i = path[0];
    let top = nodes[i];
    let node = locate(nodes, path)->0;
    let part = subtree(node);
    let k = lemma_block_in_flatten_from(nodes, 0, i);
    assert(part[0] == node);
    if path.len() > 1 {
        let children = top.children()->0;
        assert(locate(children, path.drop_first()) == Some(node));
        law_flatten_keeps_subtrees(children, path.drop_first());
        let b = choose|b: int| #[trigger] block_at(flatten(children), b, part);
        assert(subtree(top).subrange(1, 1int + flatten(children).len()) =~= flatten(children));
        assert(block_at(subtree(top), 1, flatten(children)));
        lemma_block_of_block(subtree(top), 1, flatten(children), b, part);
        lemma_block_of_block(flatten(nodes), k, subtree(top), 1 + b, part);
        assert(block_at(flatten(nodes), k + (1 + b), part));
    } else {
        assert(node == top);
        assert(block_at(flatten(nodes), k, part));
    }
}

proof fn lemma_flatten_from_comes_from(nodes: Seq<Json>, i: int, k: int) -> (path: Seq<int>)
    requires
        0 <= i,
        0 <= k < flatten_from(nodes, i).len(),
    ensures
        locate(nodes, path) == Some(flatten_from(nodes, i)[k]),
    decreases nodes, nodes.len() - i,
{
    let head = subtree(nodes[i]);
    if k == 0 {
        assert(seq![i].len() == 1);
        seq![i]
    } else if k < head.len() {
        lemma_children_smaller(nodes[i]);
        let below = lemma_flatten_from_comes_from(nodes[i].children()->0, 0, k - 1);
        assert((seq![i] + below).drop_first() =~= below);
        seq![i] + below
    } else {
        lemma_flatten_from_comes_from(nodes, i + 1, k - head.len())
    }
}

/// Whatever the flat list holds stands somewhere in the forest.
pub proof fn law_flatten_invents_nothing(nodes: Seq<Json>, k: int)
    requires
        0 <= k < flatten(nodes).len(),
    ensures
        exists|path: Seq<int>| #[trigger] locate(nodes, path) == Some(flatten(nodes)[k]),
{
    let path = lemma_flatten_from_comes_from(nodes, 0, k);
    assert(locate(nodes, path) == Some(flatten(nodes)[k]));
}

// ---- removing and inserting -------------------------------------------------

proof fn lemma_flatten_concat(a: Seq<Json>, b: Seq<Json>, i: int)
    requires
        0 <= i <= a.len(),
    ensures
        flatten_from(a + b, i) == flatten_from(a, i) + flatten(b),
    decreases a.len() + b.len() - i,
{
    if i < a.len() {
        lemma_flatten_concat(a, b, i + 1);
        assert(flatten_from(a + b, i) =~= flatten_from(a, i) + flatten(b));
    } else {
        lemma_flatten_shift(a, b, 0);
        assert(flatten_from(a, i) + flatten(b) =~= flatten(b));
    }
}

proof fn lemma_flatten_shift(a: Seq<Json>, b: Seq<Json>, i: int)
    requires
        0 <= i,
    ensures
        flatten_from(a + b, a.len() + i) == flatten_from(b, i),
    decreases b.len() - i,
{
    if i < b.len() {
        lemma_flatten_shift(a, b, i + 1);
        assert((a + b)[a.len() + i] == b[i]);
    }
}

/// The flat list around the subtree of one node.
proof fn lemma_flatten_around(nodes: Seq<Json>, i: int, node: Json)
    requires
        0 <= i < nodes.len(),
    ensures
        flatten(nodes.update(i, node)) == flatten(nodes.take(i)) + subtree(node) + flatten(
            nodes.skip(i + 1),
        ),
{
    let a = nodes.take(i);
    let b = nodes.skip(i + 1);
    let one = seq![node];
    assert(nodes.update(i, node) =~= a + (one + b));
    lemma_flatten_concat(a, one + b, 0);
    lemma_flatten_concat(one, b, 0);
    assert(flatten_from(one, 1) =~= Seq::<Json>::empty());
    assert(flatten(one) =~= subtree(node));
    assert(flatten(a) + (subtree(node) + flatten(b)) =~= flatten(a) + subtree(node) + flatten(b));
}

/// `whole` is `rest` with `part` put in at `k`, up to what is not in the ids of
/// the nodes of `rest`.
pub open spec fn splices(whole: Seq<Json>, rest: Seq<Json>, k: int, part: Seq<Json>) -> bool {
    &&& 0 <= k <= rest.len()
    &&& whole.len() == rest.len() + part.len()
    &&& block_at(whole, k, part)
    &&& forall|j: int| 0 <= j < k ==> (#[trigger] rest[j]).id() == whole[j].id()
    &&& forall|j: int|
        k <= j < rest.len() ==> (#[trigger] rest[j]).id() == whole[j + part.len()].id()
}

/// Two lists with the same ids.
spec fn same_ids(a: Seq<Json>, b: Seq<Json>) -> bool {
    &&& a.len() == b.len()
    &&& forall|j: int| 0 <= j < a.len() ==> (#[trigger] a[j]).id() == b[j].id()
}

proof fn lemma_splices_within(
    before: Seq<Json>,
    before2: Seq<Json>,
    whole: Seq<Json>,
    rest: Seq<Json>,
    after: Seq<Json>,
    k: int,
    part: Seq<Json>,
)
    requires
        same_ids(before, before2),
        splices(whole, rest, k, part),
    ensures
        splices(before + whole + after, before2 + rest + after, before.len() + k, part),
{
    let w = before + whole + after;
    let r = before2 + rest + after;
    let at = before.len() + k;
    assert(w.subrange(at, at + part.len()) =~= whole.subrange(k, k + part.len()));
    assert forall|j: int| 0 <= j < at implies (#[trigger] r[j]).id() == w[j].id() by {
        if j < before.len() {
            assert(before[j].id() == before2[j].id());
        } else {
            assert(r[j] == rest[j - before.len()]);
            assert(w[j] == whole[j - before.len()]);
        }
    }
    assert forall|j: int| at <= j < r.len() implies (#[trigger] r[j]).id() == w[j
        + part.len()].id() by {
        let n = j - before.len();
        if n < rest.len() {
            assert(r[j] == rest[n]);
            assert(w[j + part.len()] == whole[n + part.len()]);
        } else {
            assert(r[j] == after[n - rest.len()]);
            assert(w[j + part.len()] == after[n - rest.len()]);
        }
    }
}

/// Replacing the children of a node leaves all else of it.
pub proof fn lemma_set_children(node: Json, children: Seq<Json>)
    requires
        node.children() is Some,
    ensures
        node.set_children(children).children() == Some(children),
        node.set_children(children).id() == node.id(),
        node.set_children(children).kind() == node.kind(),
        node.set_children(children).folder_mode() == node.folder_mode(),
        node.set_children(children).is_on() == node.is_on(),
        forall|other: Seq<Json>|
            node.set_children(children).set_children(other) == #[trigger] node.set_children(other),
{
    lemma_keys();
    let members = node->Object_0;
    assert forall|other: Seq<Json>|
        node.set_children(children).set_children(other) == #[trigger] node.set_children(other) by {
        assert(members.insert("children"@, Json::Array(children)).insert(
            "children"@,
            Json::Array(other),
        ) =~= members.insert("children"@, Json::Array(other)));
    }
}

/// If the children of the `i`-th node change from `rest` to `whole`, and
/// `part` makes the difference between them, it does so between the forests.
proof fn lemma_splices_below(
    nodes: Seq<Json>,
    i: int,
    whole: Seq<Json>,
    rest: Seq<Json>,
    k: int,
    part: Seq<Json>,
) -> (at: int)
    requires
        0 <= i < nodes.len(),
        nodes[i].children() is Some,
        splices(flatten(whole), flatten(rest), k, part),
    ensures
        splices(
            flatten(nodes.update(i, nodes[i].set_children(whole))),
            flatten(nodes.update(i, nodes[i].set_children(rest))),
            at,
            part,
        ),
{
    let big = nodes[i].set_children(whole);
    let small = nodes[i].set_children(rest);
    lemma_set_children(nodes[i], whole);
    lemma_set_children(nodes[i], rest);
    let none = Seq::<Json>::empty();
    lemma_splices_within(seq![big], seq![small], flatten(whole), flatten(rest), none, k, part);
    assert(seq![big] + flatten(whole) + none =~= subtree(big));
    assert(seq![small] + flatten(rest) + none =~= subtree(small));
    let before = flatten(nodes.take(i));
    let after = flatten(nodes.skip(i + 1));
    lemma_splices_within(before, before, subtree(big), subtree(small), after, 1 + k, part);
    lemma_flatten_around(nodes, i, big);
    lemma_flatten_around(nodes, i, small);
    before.len() + (1 + k)
}

proof fn lemma_index_of_id(nodes: Seq<Json>, i: int, id: Seq<char>)
    requires
        0 <= i <= nodes.len(),
    ensures
        i <= index_of_id(nodes, i, id) <= nodes.len(),
        index_of_id(nodes, i, id) < nodes.len() ==> nodes[index_of_id(nodes, i, id)].id() == Some(
            id,
        ),
        forall|j: int| i <= j < index_of_id(nodes, i, id) ==> (#[trigger] nodes[j]).id() != Some(id),
    decreases nodes.len() - i,
{
    if i < nodes.len() && nodes[i].id() != Some(id) {
        lemma_index_of_id(nodes, i + 1, id);
    }
}

/// Leaving a node and what is below it out of a list of siblings.
proof fn lemma_splices_here(nodes: Seq<Json>, i: int) -> (at: int)
    requires
        0 <= i < nodes.len(),
    ensures
        splices(flatten(nodes), flatten(nodes.remove(i)), at, subtree(nodes[i])),
{
    let node = nodes[i];
    let a = nodes.take(i);
    let b = nodes.skip(i + 1);
    assert(nodes.update(i, node) =~= nodes);
    lemma_flatten_around(nodes, i, node);
    assert(nodes.remove(i) =~= a + b);
    lemma_flatten_concat(a, b, 0);
    let none = Seq::<Json>::empty();
    let part = subtree(node);
    assert(part.subrange(0, part.len() as int) =~= part);
    assert(splices(part, none, 0, part));
    lemma_splices_within(flatten(a), flatten(a), part, none, flatten(b), 0, part);
    assert(flatten(a) + none + flatten(b) =~= flatten(a) + flatten(b));
    flatten(a).len() as int
}

proof fn lemma_removal_splices(nodes: Seq<Json>, id: Seq<char>, parent: Option<Seq<char>>) -> (at:
    int)
    requires
        removal(nodes, id, parent) is Some,
    ensures
        removal(nodes, id, parent)->0.node.id() == Some(id),
        splices(
            flatten(nodes),
            flatten(removal(nodes, id, parent)->0.rest),
            at,
            subtree(removal(nodes, id, parent)->0.node),
        ),
    decreases nodes, nodes.len() + 1,
{
    lemma_index_of_id(nodes, 0, id);
    let i = index_of_id(nodes, 0, id);
    if i < nodes.len() {
        lemma_splices_here(nodes, i)
    } else {
        lemma_removal_below_splices(nodes, 0, id)
    }
}

proof fn lemma_removal_below_splices(nodes: Seq<Json>, i: int, id: Seq<char>) -> (at: int)
    requires
        0 <= i,
        removal_below(nodes, i, id) is Some,
    ensures
        removal_below(nodes, i, id)->0.node.id() == Some(id),
        splices(
            flatten(nodes),
            flatten(removal_below(nodes, i, id)->0.rest),
            at,
            subtree(removal_below(nodes, i, id)->0.node),
        ),
    decreases nodes, nodes.len() - i,
{
    let node = nodes[i];
    lemma_children_smaller(node);
    if node.children() is Some && removal(node.children()->0, id, node.id()) is Some {
        let children = node.children()->0;
        let inner = removal(children, id, node.id())->0;
        let k = lemma_removal_splices(children, id, node.id());
        lemma_rewrite(node, "children"@);
        assert(nodes.update(i, node) =~= nodes);
        lemma_splices_below(nodes, i, children, inner.rest, k, subtree(inner.node))
    } else {
        lemma_removal_below_splices(nodes, i + 1, id)
    }
}

/// Removing an id takes one node with that id, together with all that is below
/// it, out of the forest, and leaves every other node its id and its place.
pub proof fn law_remove_cuts_one_subtree(nodes: Seq<Json>, id: Seq<char>)
    requires
        removal(nodes, id, None) is Some,
    ensures
        removal(nodes, id, None)->0.node.id() == Some(id),
        exists|k: int| #[trigger]
            splices(
                flatten(nodes),
                flatten(removal(nodes, id, None)->0.rest),
                k,
                subtree(removal(nodes, id, None)->0.node),
            ),
{
    let k = lemma_removal_splices(nodes, id, None);
    assert(splices(
        flatten(nodes),
        flatten(removal(nodes, id, None)->0.rest),
        k,
        subtree(removal(nodes, id, None)->0.node),
    ));
}

proof fn lemma_no_removal_no_path(
    nodes: Seq<Json>,
    id: Seq<char>,
    parent: Option<Seq<char>>,
    i: int,
)
    requires
        0 <= i,
        removal(nodes, id, parent) is None,
        removal_below(nodes, i, id) is None,
    ensures
        path_from(nodes, i, id) is None,
    decreases nodes, nodes.len() - i,
{
    if i < nodes.len() {
        let node = nodes[i];
        lemma_index_of_id(nodes, 0, id);
        lemma_children_smaller(node);
        assert(node.id() != Some(id));
        if node.children() is Some {
            assert(removal(node.children()->0, id, node.id()) is None);
            assert(removal_below(node.children()->0, 0, id) is None) by {
                lemma_index_of_id(node.children()->0, 0, id);
            }
            lemma_no_removal_no_path(node.children()->0, id, node.id(), 0);
        }
        assert(path_in(node, id) is None);
        lemma_no_removal_no_path(nodes, id, parent, i + 1);
    }
}

proof fn lemma_removal_iff_found(nodes: Seq<Json>, id: Seq<char>, parent: Option<Seq<char>>)
    ensures
        removal(nodes, id, parent) is Some <==> first_with_id(flatten(nodes), id) is Some,
{
    law_path_leads_to_found(nodes, id);
    law_found_is_first(flatten(nodes), id);
    if removal(nodes, id, parent) is Some {
        let k = lemma_removal_splices(nodes, id, parent);
        let part = subtree(removal(nodes, id, parent)->0.node);
        assert(part[0] == removal(nodes, id, parent)->0.node);
        assert(flatten(nodes).subrange(k, k + part.len())[0] == flatten(nodes)[k]);
    } else {
        lemma_index_of_id(nodes, 0, id);
        lemma_no_removal_no_path(nodes, id, parent, 0);
    }
}

/// An id can be removed exactly when it can be found.
pub proof fn law_remove_iff_found(nodes: Seq<Json>, id: Seq<char>)
    ensures
        removal(nodes, id, None) is Some <==> first_with_id(flatten(nodes), id) is Some,
{
    lemma_removal_iff_found(nodes, id, None);
}

/// No two nodes of a list share an id.
pub open spec fn distinct_ids(list: Seq<Json>) -> bool {
    forall|i: int, j: int|
        0 <= i < j < list.len() && (#[trigger] list[i]).id() is Some ==> list[i].id() != (
        #[trigger] list[j]).id()
}

/// In a forest without repeated ids, what is removed is what a search finds,
/// and afterwards the id is gone and still no id is repeated.
pub proof fn law_remove_takes_what_is_found(nodes: Seq<Json>, id: Seq<char>)
    requires
        distinct_ids(flatten(nodes)),
        removal(nodes, id, None) is Some,
    ensures
        first_with_id(flatten(nodes), id) == Some(removal(nodes, id, None)->0.node),
        first_with_id(flatten(removal(nodes, id, None)->0.rest), id) is None,
        distinct_ids(flatten(removal(nodes, id, None)->0.rest)),
{
    let r = removal(nodes, id, None)->0;
    let k = lemma_removal_splices(nodes, id, None);
    let whole = flatten(nodes);
    let rest = flatten(r.rest);
    let part = subtree(r.node);
    assert(part[0] == r.node);
    assert(whole.subrange(k, k + part.len())[0] == whole[k]);
    law_found_is_first(whole, id);
    law_found_is_first(rest, id);
    assert forall|j: int| 0 <= j < rest.len() implies (#[trigger] rest[j]).id() != Some(id) by {
        if j < k {
            assert(rest[j].id() == whole[j].id());
        } else {
            assert(rest[j].id() == whole[j + part.len()].id());
        }
    }
    assert forall|i: int, j: int|
        0 <= i < j < rest.len() && (#[trigger] rest[i]).id() is Some implies rest[i].id() != (
    #[trigger] rest[j]).id() by {
        let a = if i < k {
            i
        } else {
            i + part.len()
        };
        let b = if j < k {
            j
        } else {
            j + part.len()
        };
        assert(rest[i].id() == whole[a].id());
        assert(rest[j].id() == whole[b].id());
    }
}

proof fn lemma_appended_splices(
    nodes: Seq<Json>,
    i: int,
    node: Json,
    parent_id: Seq<char>,
) -> (at: int)
    requires
        0 <= i,
        appended_from(nodes, i, node, parent_id) is Some,
    ensures
        splices(
            flatten(appended_from(nodes, i, node, parent_id)->0),
            flatten(nodes),
            at,
            subtree(node),
        ),
    decreases nodes, nodes.len() - i,
{
    let current = nodes[i];
    lemma_children_smaller(current);
    if current.children() is Some {
        let children = current.children()->0;
        lemma_rewrite(current, "children"@);
        assert(nodes.update(i, current) =~= nodes);
        if current.id() == Some(parent_id) {
            let k = lemma_pushed_splices(children, node);
            lemma_splices_below(nodes, i, children.push(node), children, k, subtree(node))
        } else if appended_from(children, 0, node, parent_id) is Some {
            let grown = appended_from(children, 0, node, parent_id)->0;
            let k = lemma_appended_splices(children, 0, node, parent_id);
            lemma_splices_below(nodes, i, grown, children, k, subtree(node))
        } else {
            lemma_appended_splices(nodes, i + 1, node, parent_id)
        }
    } else {
        lemma_appended_splices(nodes, i + 1, node, parent_id)
    }
}

proof fn lemma_pushed_splices(nodes: Seq<Json>, node: Json) -> (at: int)
    ensures
        splices(flatten(nodes.push(node)), flatten(nodes), at, subtree(node)),
{
    let grown = nodes.push(node);
    assert(grown.remove(nodes.len() as int) =~= nodes);
    lemma_splices_here(grown, nodes.len() as int)
}

proof fn lemma_inserted_splices(nodes: Seq<Json>, node: Json, parent_id: Option<Seq<char>>) -> (at:
    int)
    ensures
        splices(flatten(inserted(nodes, node, parent_id)), flatten(nodes), at, subtree(node)),
{
    if parent_id is Some && appended_from(nodes, 0, node, parent_id->0) is Some {
        lemma_appended_splices(nodes, 0, node, parent_id->0)
    } else {
        lemma_pushed_splices(nodes, node)
    }
}

/// Inserting adds the node, together with what is below it, to the forest, and
/// leaves every other node its id and its place.
pub proof fn law_insert_adds_one_subtree(
    nodes: Seq<Json>,
    node: Json,
    parent_id: Option<Seq<char>>,
)
    ensures
        exists|k: int| #[trigger]
            splices(
                flatten(inserted(nodes, node, parent_id)),
                flatten(nodes),
                k,
                subtree(node),
            ),
{
    let k = lemma_inserted_splices(nodes, node, parent_id);
    assert(splices(flatten(inserted(nodes, node, parent_id)), flatten(nodes), k, subtree(node)));
}

/// A node that is inserted under an id that the forest does not have yet is
/// what a search for that id finds, wherever it was inserted.
pub proof fn law_insert_then_find(
    nodes: Seq<Json>,
    node: Json,
    parent_id: Option<Seq<char>>,
    id: Seq<char>,
)
    requires
        node.id() == Some(id),
        first_with_id(flatten(nodes), id) is None,
    ensures
        first_with_id(flatten(inserted(nodes, node, parent_id)), id) == Some(node),
{
    let k = lemma_inserted_splices(nodes, node, parent_id);
    let whole = flatten(inserted(nodes, node, parent_id));
    let rest = flatten(nodes);
    assert(subtree(node)[0] == node);
    assert(whole.subrange(k, k + subtree(node).len())[0] == whole[k]);
    law_found_is_first(rest, id);
    law_found_is_first(whole, id);
    assert forall|j: int| 0 <= j < k implies (#[trigger] whole[j]).id() != Some(id) by {
        assert(rest[j].id() == whole[j].id());
    }
    let found = first_with_id(whole, id);
    assert(found is Some);
    let m = choose|m: int|
        {
            &&& 0 <= m < whole.len()
            &&& #[trigger] whole[m] == found->0
            &&& found->0.id() == Some(id)
            &&& forall|j: int| 0 <= j < m ==> (#[trigger] whole[j]).id() != Some(id)
        };
    assert(m == k);
}

proof fn lemma_appended_then_removed(
    nodes: Seq<Json>,
    i: int,
    node: Json,
    parent_id: Seq<char>,
    id: Seq<char>,
    outer: Option<Seq<char>>,
)
    requires
        0 <= i,
        node.id() == Some(id),
        first_with_id(flatten(nodes), id) is None,
        appended_from(nodes, i, node, parent_id) is Some,
    ensures
        removal(appended_from(nodes, i, node, parent_id)->0, id, outer) == Some(
            Removal { node, parent: Some(parent_id), rest: nodes },
        ),
    decreases nodes, nodes.len() - i,
{
    let current = nodes[i];
    let grown = appended_from(nodes, i, node, parent_id)->0;
    lemma_children_smaller(current);
    if current.children() is Some && (current.id() == Some(parent_id) || appended_from(
        current.children()->0,
        0,
        node,
        parent_id,
    ) is Some) {
        let children = current.children()->0;
        let inner = if current.id() == Some(parent_id) {
            children.push(node)
        } else {
            appended_from(children, 0, node, parent_id)->0
        };
        lemma_lacks_parts(nodes, i, id);
        lemma_set_children(current, inner);
        lemma_rewrite(current, "children"@);
        let expected = Removal { node, parent: Some(parent_id), rest: children };
        if current.id() == Some(parent_id) {
            lemma_lacks_siblings(children, id);
            lemma_index_of_id(inner, 0, id);
            assert(inner[children.len() as int] == node);
            assert(index_of_id(inner, 0, id) == children.len()) by {
                let found = index_of_id(inner, 0, id);
                if found < children.len() {
                    assert(inner[found] == children[found]);
                }
            }
            assert(inner.remove(children.len() as int) =~= children);
        } else {
            lemma_appended_then_removed(children, 0, node, parent_id, id, current.id());
        }
        assert(removal(inner, id, current.id()) == Some(expected));
        lemma_lacks_siblings(nodes, id);
        lemma_index_of_id(grown, 0, id);
        assert(index_of_id(grown, 0, id) == grown.len()) by {
            let found = index_of_id(grown, 0, id);
            if found < grown.len() {
                assert(grown[found].id() == nodes[found].id());
            }
        }
        lemma_removal_reaches(nodes, grown, 0, i, id);
        assert(current.set_children(children) == current);
        assert(grown.update(i, current.set_children(inner).set_children(children)) =~= nodes);
    } else {
        lemma_appended_then_removed(nodes, i + 1, node, parent_id, id, outer);
    }
}

/// Where a forest lacks an id, so do the nodes at its top level.
proof fn lemma_lacks_siblings(nodes: Seq<Json>, id: Seq<char>)
    requires
        first_with_id(flatten(nodes), id) is None,
    ensures
        forall|j: int| 0 <= j < nodes.len() ==> (#[trigger] nodes[j]).id() != Some(id),
{
    lemma_removal_iff_found(nodes, id, None);
    lemma_index_of_id(nodes, 0, id);
}

/// Where a forest lacks an id, so do the children of its nodes.
proof fn lemma_lacks_parts(nodes: Seq<Json>, i: int, id: Seq<char>)
    requires
        0 <= i < nodes.len(),
        first_with_id(flatten(nodes), id) is None,
    ensures
        nodes[i].children() is Some ==> first_with_id(flatten(nodes[i].children()->0), id) is None,
{
    if nodes[i].children() is Some {
        let children = nodes[i].children()->0;
        law_found_is_first(flatten(nodes), id);
        law_found_is_first(flatten(children), id);
        let k = lemma_block_in_flatten_from(nodes, 0, i);
        let part = subtree(nodes[i]);
        assert forall|j: int| 0 <= j < flatten(children).len() implies (#[trigger] flatten(
            children,
        )[j]).id() != Some(id) by {
            assert(part[j + 1] == flatten(children)[j]);
            assert(flatten(nodes).subrange(k, k + part.len())[j + 1] == flatten(nodes)[k + j + 1]);
        }
    }
}

/// A search for something to remove passes over the nodes before `i`, which
/// have nothing below them with the id.
proof fn lemma_removal_reaches(nodes: Seq<Json>, grown: Seq<Json>, j: int, i: int, id: Seq<char>)
    requires
        0 <= j <= i < nodes.len(),
        grown.len() == nodes.len(),
        forall|m: int| 0 <= m < i ==> grown[m] == #[trigger] nodes[m],
        first_with_id(flatten(nodes), id) is None,
    ensures
        removal_below(grown, j, id) == removal_below(grown, i, id),
    decreases i - j,
{
    if j < i {
        lemma_lacks_parts(nodes, j, id);
        assert(grown[j] == nodes[j]);
        if nodes[j].children() is Some {
            lemma_removal_iff_found(nodes[j].children()->0, id, nodes[j].id());
        }
        lemma_removal_reaches(nodes, grown, j + 1, i, id);
    }
}

/// Removing undoes inserting: a node that was inserted under an id that the
/// forest did not have comes out again as it went in, with the id of the
/// folder that took it in (none for the top level), and leaves the forest as
/// it was.
pub proof fn law_remove_undoes_insert(
    nodes: Seq<Json>,
    node: Json,
    parent_id: Option<Seq<char>>,
    id: Seq<char>,
)
    requires
        node.id() == Some(id),
        first_with_id(flatten(nodes), id) is None,
    ensures
        removal(inserted(nodes, node, parent_id), id, None) == Some(
            Removal {
                node,
                parent: if parent_id is Some && appended_from(nodes, 0, node, parent_id->0) is Some {
                    parent_id
                } else {
                    None
                },
                rest: nodes,
            },
        ),
{
    if parent_id is Some && appended_from(nodes, 0, node, parent_id->0) is Some {
        lemma_appended_then_removed(nodes, 0, node, parent_id->0, id, None);
    } else {
        let grown = nodes.push(node);
        lemma_lacks_siblings(nodes, id);
        lemma_index_of_id(grown, 0, id);
        assert(grown[nodes.len() as int] == node);
        assert(index_of_id(grown, 0, id) == nodes.len()) by {
            let found = index_of_id(grown, 0, id);
            if found < nodes.len() {
                assert(grown[found] == nodes[found]);
            }
        }
        assert(grown.remove(nodes.len() as int) =~= nodes);
    }
}

proof fn lemma_appended_at_path(nodes: Seq<Json>, i: int, node: Json, parent_id: Seq<char>)
    requires
        0 <= i,
        path_from(nodes, i, parent_id) is Some,
        locate(nodes, path_from(nodes, i, parent_id)->0) is Some,
        locate(nodes, path_from(nodes, i, parent_id)->0)->0.children() is Some,
    ensures
        appended_from(nodes, i, node, parent_id) == ({
            let path = path_from(nodes, i, parent_id)->0;
            let parent = locate(nodes, path)->0;
            Some(replace(nodes, path, parent.set_children(parent.children()->0.push(node))))
        }),
    decreases nodes, nodes.len() - i,
{
    let current = nodes[i];
    lemma_children_smaller(current);
    match path_in(current, parent_id) {
        Some(below) => {
            assert((seq![i] + below).drop_first() =~= below);
            if current.id() != Some(parent_id) {
                lemma_path_to_locates(current.children()->0, parent_id);
                lemma_appended_at_path(current.children()->0, 0, node, parent_id);
            }
        },
        None => {
            if current.children() is Some {
                lemma_no_path_no_append(current.children()->0, 0, node, parent_id);
            }
            lemma_appended_at_path(nodes, i + 1, node, parent_id);
        },
    }
}

proof fn lemma_no_path_no_append(nodes: Seq<Json>, i: int, node: Json, parent_id: Seq<char>)
    requires
        0 <= i,
        path_from(nodes, i, parent_id) is None,
    ensures
        appended_from(nodes, i, node, parent_id) is None,
    decreases nodes, nodes.len() - i,
{
    if i < nodes.len() {
        let current = nodes[i];
        lemma_children_smaller(current);
        assert(path_in(current, parent_id) is None);
        if current.children() is Some {
            lemma_no_path_no_append(current.children()->0, 0, node, parent_id);
        }
        lemma_no_path_no_append(nodes, i + 1, node, parent_id);
    }
}

/// A node that is inserted under a folder becomes the last child of the folder
/// that a search for the parent id finds; nothing else changes.
pub proof fn law_insert_into_folder(nodes: Seq<Json>, node: Json, parent_id: Seq<char>)
    requires
        first_with_id(flatten(nodes), parent_id) is Some,
        first_with_id(flatten(nodes), parent_id)->0.children() is Some,
    ensures
        inserted(nodes, node, Some(parent_id)) == ({
            let parent = first_with_id(flatten(nodes), parent_id)->0;
            replace(
                nodes,
                path_to(nodes, parent_id)->0,
                parent.set_children(parent.children()->0.push(node)),
            )
        }),
{
    law_path_leads_to_found(nodes, parent_id);
    lemma_appended_at_path(nodes, 0, node, parent_id);
}

proof fn lemma_no_folder_no_append(nodes: Seq<Json>, i: int, node: Json, parent_id: Seq<char>)
    requires
        0 <= i,
        forall|k: int|
            0 <= k < flatten_from(nodes, i).len() ==> !((#[trigger] flatten_from(nodes, i)[k]).id()
                == Some(parent_id) && flatten_from(nodes, i)[k].children() is Some),
    ensures
        appended_from(nodes, i, node, parent_id) is None,
    decreases nodes, nodes.len() - i,
{
    if i < nodes.len() {
        let current = nodes[i];
        let list = flatten_from(nodes, i);
        let head = subtree(current);
        lemma_children_smaller(current);
        assert(list[0] == head[0]);
        if current.children() is Some {
            let children = current.children()->0;
            assert forall|k: int| 0 <= k < flatten(children).len() implies !((#[trigger] flatten(
                children,
            )[k]).id() == Some(parent_id) && flatten(children)[k].children() is Some) by {
                assert(list[k + 1] == head[k + 1]);
                assert(head[k + 1] == flatten(children)[k]);
            }
            lemma_no_folder_no_append(children, 0, node, parent_id);
        }
        let tail = flatten_from(nodes, i + 1);
        assert forall|k: int| 0 <= k < tail.len() implies !((#[trigger] tail[k]).id() == Some(
            parent_id,
        ) && tail[k].children() is Some) by {
            assert(list[k + head.len()] == tail[k]);
        }
        lemma_no_folder_no_append(nodes, i + 1, node, parent_id);
    }
}

/// Where no folder has the parent id, the node is appended to the top level.
pub proof fn law_insert_without_folder(nodes: Seq<Json>, node: Json, parent_id: Seq<char>)
    requires
        forall|k: int|
            0 <= k < flatten(nodes).len() ==> !((#[trigger] flatten(nodes)[k]).id() == Some(
                parent_id,
            ) && flatten(nodes)[k].children() is Some),
    ensures
        inserted(nodes, node, Some(parent_id)) == nodes.push(node),
{
    let list = flatten_from(nodes, 0);
    assert forall|k: int| 0 <= k < list.len() implies !((#[trigger] list[k]).id() == Some(parent_id)
        && list[k].children() is Some) by {
        assert(flatten(nodes)[k] == list[k]);
    }
    lemma_no_folder_no_append(nodes, 0, node, parent_id);
}

} // verus!
