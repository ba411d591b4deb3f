//! Walking and editing the forest of nodes.
//!
//! A node is a JSON object; one whose `children` member is an array is a
//! parent, and the operations here walk into its children recursively.

use vstd::prelude::*;
use vstd::slice::slice_subrange;

use crate::json::{lemma_children_smaller, Json};
use crate::terms::{
    cut, first_place, first_taker, grown, id_text, lists, lists_content, soonest_place, takes_in,
    there, unnamed,
};
use crate::tree_promises::{
    law_every_content_id_is_collected, law_flat_list_holds_every_node, law_insert_appends,
    law_path_is_the_first_place, law_remove_reports_the_parent, law_search_finds_the_first_place,
};
use crate::value::{forest, lemma_forest_push, lemma_forest_update, lemma_texts_push, texts, Value};

verus! {

// ---- one node ---------------------------------------------------------------

pub fn node_id(node: &Value) -> (id: Option<&str>)
    ensures
        match id {
            Some(s) => node@.id() == Some(s@),
            None => node@.id() is None,
        },
{
    match node.get("id") {
        Some(v) => v.as_str(),
        None => None,
    }
}

/// Whether the node has exactly this id.
fn has_id(node: &Value, id: &str) -> (same: bool)
    ensures
        same == (node@.id() == Some(id@)),
{
    match node_id(node) {
        Some(own) => *own == *id,
        None => false,
    }
}

pub fn node_type(node: &Value) -> (kind: Option<&str>)
    ensures
        match kind {
            Some(s) => node@.kind() == Some(s@),
            None => node@.kind() is None,
        },
{
    match node.get("type") {
        Some(v) => v.as_str(),
        None => None,
    }
}

pub fn node_children(node: &Value) -> (children: Option<&Vec<Value>>)
    ensures
        match children {
            Some(c) => node@.children() == Some(forest(c@)),
            None => node@.children() is None,
        },
{
    match node.get("children") {
        Some(v) => v.as_array(),
        None => None,
    }
}

pub fn node_children_mut(node: &mut Value) -> (children: Option<&mut Vec<Value>>)
    ensures
        match children {
            Some(c) => {
                &&& old(node)@.children() == Some(forest(c@))
                &&& final(node)@ == old(node)@.set_children(forest(final(c)@))
            },
            None => old(node)@.children() is None && final(node)@ == old(node)@,
        },
{
    let ghost before = node@;
    match node.get_mut("children") {
        Some(v) => {
            proof {
                if !(v@ is Array) {
                    lemma_rewrite(before, "children"@);
                }
            }
            v.as_array_mut()
        },
        None => None,
    }
}

/// Setting a member to the value it has changes nothing.
pub proof fn lemma_rewrite(node: Json, key: Seq<char>)
    requires
        node.get(key) is Some,
    ensures
        node.with(key, node.get(key)->0) == node,
{
    let members = node->Object_0;
    assert(members.insert(key, members[key]) =~= members);
}

// ---- places in the forest ---------------------------------------------------

/// An index path: the place of a node at the top level, then among the
/// children of that node, and so on.
pub open spec fn steps(path: Seq<usize>) -> Seq<int> {
    Seq::new(path.len(), |i: int| path[i] as int)
}

/// The node at the end of a path.
pub open spec fn locate(nodes: Seq<Json>, path: Seq<int>) -> Option<Json>
    decreases path.len(),
{
    if path.len() == 0 || !(0 <= path[0] < nodes.len()) {
        None
    } else if path.len() == 1 {
        Some(nodes[path[0]])
    } else {
        match nodes[path[0]].children() {
            Some(children) => locate(children, path.drop_first()),
            None => None,
        }
    }
}

/// The forest with another node at the end of a path.
pub open spec fn replace(nodes: Seq<Json>, path: Seq<int>, node: Json) -> Seq<Json>
    decreases path.len(),
{
    if path.len() == 0 || !(0 <= path[0] < nodes.len()) {
        nodes
    } else if path.len() == 1 {
        nodes.update(path[0], node)
    } else {
        match nodes[path[0]].children() {
            Some(children) => nodes.update(
                path[0],
                nodes[path[0]].set_children(replace(children, path.drop_first(), node)),
            ),
            None => nodes,
        }
    }
}

/// The path from a node down to the first node with the id.
pub open spec fn path_in(node: Json, id: Seq<char>) -> Option<Seq<int>>
    decreases node, 0int,
{
    proof {
        lemma_children_smaller(node);
    }
    if node.id() == Some(id) {
        Some(Seq::empty())
    } else {
        match node.children() {
            Some(children) => path_from(children, 0, id),
            None => None,
        }
    }
}

/// The path to the first node with the id in or below `nodes[i..]`.
pub open spec fn path_from(nodes: Seq<Json>, i: int, id: Seq<char>) -> Option<Seq<int>>
    decreases nodes, nodes.len() - i,
{
    if 0 <= i < nodes.len() {
        match path_in(nodes[i], id) {
            Some(below) => Some(seq![i] + below),
            None => path_from(nodes, i + 1, id),
        }
    } else {
        None
    }
}

/// The path to the first node with the id, a parent coming before its
/// descendants.
pub open spec fn path_to(nodes: Seq<Json>, id: Seq<char>) -> Option<Seq<int>> {
    path_from(nodes, 0, id)
}

/// Index path from the root forest down to `id`, or `None` if absent.
pub fn path_of(nodes: &[Value], id: &str) -> (path: Option<Vec<usize>>)
    ensures
        match path {
            Some(p) => path_to(forest(nodes@), id@) == Some(steps(p@)),
            None => path_to(forest(nodes@), id@) is None,
        },
        match path {
            Some(p) => exists|place: Seq<int>|
                {
                    &&& #[trigger] first_place(forest(nodes@), place, id@)
                    &&& place.len() == p@.len()
                    &&& forall|k: int| 0 <= k < place.len() ==> #[trigger] place[k] == p@[k]
                },
            None => unnamed(forest(nodes@), id@),
        },
    decreases forest(nodes@),
{
    proof {
        law_path_is_the_first_place(forest(nodes@), id@);
    }
    let mut i: usize = 0;
    while i < nodes.len()
        invariant
            i <= nodes@.len(),
            path_to(forest(nodes@), id@) == path_from(forest(nodes@), i as int, id@),
        decreases nodes@.len() - i,
    {
        let node = &nodes[i];
        assert(forest(nodes@)[i as int] == node@);
        if has_id(node, id) {
            let mut path: Vec<usize> = Vec::new();
            path.push(i);
            assert(path_in(node@, id@) == Some(Seq::<int>::empty()));
            assert(steps(path@) =~= seq![i as int] + Seq::<int>::empty());
            proof {
                law_path_is_the_first_place(forest(nodes@), id@);
                assert(first_place(forest(nodes@), steps(path@), id@));
            }
            return Some(path);
        }
        if let Some(children) = node_children(node) {
            proof {
                lemma_children_smaller(node@);
                assert(decreases_to!(forest(nodes@) => forest(nodes@)[i as int]));
            }
            if let Some(mut below) = path_of(children.as_slice(), id) {
                let ghost tail = below@;
                let mut path: Vec<usize> = Vec::new();
                path.push(i);
                path.append(&mut below);
                assert(path_in(node@, id@) == Some(steps(tail)));
                assert(steps(path@) =~= seq![i as int] + steps(tail));
                proof {
                    law_path_is_the_first_place(forest(nodes@), id@);
                    assert(first_place(forest(nodes@), steps(path@), id@));
                }
                return Some(path);
            }
        }
        assert(path_in(node@, id@) is None);
        i += 1;
    }
    None
}

/// The node at the end of a path.
pub fn node_at<'a>(nodes: &'a [Value], path: &[usize]) -> (found: Option<&'a Value>)
    ensures
        match found {
            Some(v) => locate(forest(nodes@), steps(path@)) == Some(v@),
            None => locate(forest(nodes@), steps(path@)) is None,
        },
    decreases path@.len(),
{
    if path.len() == 0 {
        return None;
    }
    let first: usize = path[0];
    if first >= nodes.len() {
        return None;
    }
    let node = &nodes[first];
    if path.len() == 1 {
        return Some(node);
    }
    match node_children(node) {
        Some(children) => {
            let rest = slice_subrange(path, 1, path.len());
            assert(steps(rest@) =~= steps(path@).drop_first());
            node_at(children.as_slice(), rest)
        },
        None => None,
    }
}

/// As [`node_at`], for writing.
pub fn node_at_mut<'a>(nodes: &'a mut Vec<Value>, path: &[usize]) -> (found: Option<&'a mut Value>)
    ensures
        match found {
            Some(v) => {
                &&& locate(forest(old(nodes)@), steps(path@)) == Some(v@)
                &&& forest(final(nodes)@) == replace(
                    forest(old(nodes)@),
                    steps(path@),
                    final(v)@,
                )
            },
            None => {
                &&& locate(forest(old(nodes)@), steps(path@)) is None
                &&& forest(final(nodes)@) == forest(old(nodes)@)
            },
        },
    decreases path@.len(),
{
    broadcast use lemma_forest_update;

    if path.len() == 0 {
        return None;
    }
    let first: usize = path[0];
    if first >= nodes.len() {
        return None;
    }
    let ghost before = nodes@;
    let node = &mut nodes[first];
    assert(forest(before)[first as int] == node@);
    if path.len() == 1 {
        return Some(node);
    }
    match node_children_mut(node) {
        Some(children) => {
            let rest = slice_subrange(path, 1, path.len());
            assert(steps(rest@) =~= steps(path@).drop_first());
            proof {
                lemma_rewrite(forest(before)[first as int], "children"@);
                assert(forest(before).update(first as int, forest(before)[first as int]) =~= forest(
                    before,
                ));
            }
            node_at_mut(children, rest)
        },
        None => {
            assert(forest(before).update(first as int, forest(before)[first as int]) =~= forest(
                before,
            ));
            None
        },
    }
}

/// To put a node where it is changes nothing.
pub proof fn lemma_replace_same(nodes: Seq<Json>, path: Seq<int>)
    requires
        locate(nodes, path) is Some,
    ensures
        replace(nodes, path, locate(nodes, path)->0) == nodes,
    decreases path.len(),
{
    let i = path[0];
    if path.len() > 1 {
        lemma_replace_same(nodes[i].children()->0, path.drop_first());
        lemma_rewrite(nodes[i], "children"@);
    }
    assert(replace(nodes, path, locate(nodes, path)->0) =~= nodes);
}

proof fn lemma_path_in_locates(node: Json, id: Seq<char>)
    ensures
        match path_in(node, id) {
            Some(path) => if path.len() == 0 {
                node.id() == Some(id)
            } else {
                &&& node.children() is Some
                &&& locate(node.children()->0, path) is Some
                &&& locate(node.children()->0, path)->0.id() == Some(id)
            },
            None => true,
        },
    decreases node, 0int,
{
    lemma_children_smaller(node);
    if node.id() != Some(id) && node.children() is Some {
        lemma_path_from_locates(node.children()->0, 0, id);
    }
}

proof fn lemma_path_from_locates(nodes: Seq<Json>, i: int, id: Seq<char>)
    requires
        0 <= i,
    ensures
        match path_from(nodes, i, id) {
            Some(path) => {
                &&& path.len() > 0
                &&& locate(nodes, path) is Some
                &&& locate(nodes, path)->0.id() == Some(id)
            },
            None => true,
        },
    decreases nodes, nodes.len() - i,
{
    if i < nodes.len() {
        lemma_path_in_locates(nodes[i], id);
        match path_in(nodes[i], id) {
            Some(below) => {
                assert((seq![i] + below).drop_first() =~= below);
            },
            None => lemma_path_from_locates(nodes, i + 1, id),
        }
    }
}

/// The path to an id leads to a node with that id.
pub proof fn lemma_path_to_locates(nodes: Seq<Json>, id: Seq<char>)
    ensures
        match path_to(nodes, id) {
            Some(path) => {
                &&& path.len() > 0
                &&& locate(nodes, path) is Some
                &&& locate(nodes, path)->0.id() == Some(id)
            },
            None => true,
        },
{
    lemma_path_from_locates(nodes, 0, id);
}

// ---- reading the forest -----------------------------------------------------

/// A node, then everything below it, depth first.
pub open spec fn subtree(node: Json) -> Seq<Json>
    decreases node, 0int,
{
    proof {
        lemma_children_smaller(node);
    }
    match node.children() {
        Some(children) => seq![node] + flatten_from(children, 0),
        None => seq![node],
    }
}

/// The subtrees of `nodes[i..]`, one after the other.
pub open spec fn flatten_from(nodes: Seq<Json>, i: int) -> Seq<Json>
    decreases nodes, nodes.len() - i,
{
    if 0 <= i < nodes.len() {
        subtree(nodes[i]) + flatten_from(nodes, i + 1)
    } else {
        Seq::empty()
    }
}

/// All nodes of a forest, every parent before its descendants.
pub open spec fn flatten(nodes: Seq<Json>) -> Seq<Json> {
    flatten_from(nodes, 0)
}

/// The first node of a list that has the id.
pub open spec fn first_with_id(list: Seq<Json>, id: Seq<char>) -> Option<Json>
    decreases list.len(),
{
    if list.len() == 0 {
        None
    } else if list[0].id() == Some(id) {
        Some(list[0])
    } else {
        first_with_id(list.drop_first(), id)
    }
}

/// Whether a node has content of its own to keep, under an id.
pub open spec fn has_content(node: Json) -> bool {
    (node.kind() == Some("local"@) || node.kind() == Some("remote"@)) && node.id() is Some
}

/// The ids of the nodes of a list that have content.
pub open spec fn content_ids(list: Seq<Json>) -> Seq<Seq<char>>
    decreases list.len(),
{
    if list.len() == 0 {
        Seq::empty()
    } else if has_content(list[0]) {
        seq![list[0].id()->0] + content_ids(list.drop_first())
    } else {
        content_ids(list.drop_first())
    }
}

pub proof fn lemma_first_with_id_concat(a: Seq<Json>, b: Seq<Json>, id: Seq<char>)
    ensures
        first_with_id(a + b, id) == (match first_with_id(a, id) {
            Some(node) => Some(node),
            None => first_with_id(b, id),
        }),
    decreases a.len(),
{
    if a.len() == 0 {
        assert(a + b =~= b);
    } else {
        assert((a + b).drop_first() =~= a.drop_first() + b);
        lemma_first_with_id_concat(a.drop_first(), b, id);
    }
}

proof fn lemma_content_ids_concat(a: Seq<Json>, b: Seq<Json>)
    ensures
        content_ids(a + b) == content_ids(a) + content_ids(b),
    decreases a.len(),
{
    if a.len() == 0 {
        assert(a + b =~= b);
        assert(content_ids(a) + content_ids(b) =~= content_ids(b));
    } else {
        assert((a + b).drop_first() =~= a.drop_first() + b);
        lemma_content_ids_concat(a.drop_first(), b);
        assert(content_ids(a + b) =~= content_ids(a) + content_ids(b));
    }
}

/// Appends every node of the forest to `out`, depth first.
pub fn walk(nodes: &[Value], out: &mut Vec<Value>)
    ensures
        forest(final(out)@) == forest(old(out)@) + flatten(forest(nodes@)),
    decreases forest(nodes@),
{
    broadcast use lemma_forest_push;

    let ghost all = forest(nodes@);
    let ghost start = forest(out@);
    let mut i: usize = 0;
    assert(start + flatten_from(all, 0) == forest(out@) + flatten_from(all, 0));
    while i < nodes.len()
        invariant
            all == forest(nodes@),
            i <= nodes@.len(),
            start + flatten(all) == forest(out@) + flatten_from(all, i as int),
        decreases nodes@.len() - i,
    {
        let node = &nodes[i];
        let ghost prior = forest(out@);
        assert(all[i as int] == node@);
        assert(decreases_to!(all => all[i as int]));
        out.push(node.clone());
        assert(forest(out@) == prior.push(node@));
        match node_children(node) {
            Some(children) => {
                proof {
                    lemma_children_smaller(node@);
                }
                walk(children.as_slice(), out);
            },
            None => {},
        }
        assert(forest(out@) =~= prior + subtree(node@));
        assert(prior + (subtree(node@) + flatten_from(all, i + 1)) =~= forest(out@) + flatten_from(
            all,
            i + 1,
        ));
        i += 1;
    }
    assert(forest(out@) + Seq::<Json>::empty() =~= forest(out@));
}

/// All nodes of the forest as one list: each node comes before the nodes below
/// it, and siblings keep their order.
pub fn flatten_root(nodes: &[Value]) -> (flat: Vec<Value>)
    ensures
        forest(flat@) == flatten(forest(nodes@)),
        lists(forest(nodes@), forest(flat@)),
{
    proof {
        law_flat_list_holds_every_node(forest(nodes@));
    }
    let mut out: Vec<Value> = Vec::new();
    walk(nodes, &mut out);
    assert(forest(out@) =~= flatten(forest(nodes@)));
    out
}

/// Find a node anywhere in the tree by id, returning a cloned copy.
pub fn find_node(nodes: &[Value], id: &str) -> (found: Option<Value>)
    ensures
        match found {
            Some(node) => first_with_id(flatten(forest(nodes@)), id@) == Some(node@),
            None => first_with_id(flatten(forest(nodes@)), id@) is None,
        },
        match found {
            Some(node) => exists|place: Seq<int>| #[trigger]
                first_place(forest(nodes@), place, id@) && there(forest(nodes@), place) == Some(
                    node@,
                ),
            None => unnamed(forest(nodes@), id@),
        },
    decreases forest(nodes@),
{
    proof {
        law_search_finds_the_first_place(forest(nodes@), id@);
    }
    let ghost all = forest(nodes@);
    let mut i: usize = 0;
    while i < nodes.len()
        invariant
            all == forest(nodes@),
            i <= nodes@.len(),
            first_with_id(flatten(all), id@) == first_with_id(flatten_from(all, i as int), id@),
        decreases nodes@.len() - i,
    {
        let node = &nodes[i];
        assert(all[i as int] == node@);
        assert(decreases_to!(all => all[i as int]));
        proof {
            law_search_finds_the_first_place(all, id@);
            lemma_first_with_id_concat(subtree(node@), flatten_from(all, i + 1), id@);
            lemma_children_smaller(node@);
            assert(subtree(node@)[0] == node@);
        }
        if has_id(node, id) {
            return Some(node.clone());
        }
        match node_children(node) {
            Some(children) => {
                assert(subtree(node@).drop_first() =~= flatten(forest(children@)));
                if let Some(found) = find_node(children.as_slice(), id) {
                    return Some(found);
                }
                assert(first_with_id(flatten(forest(children@)), id@) is None);
                assert(first_with_id(subtree(node@).drop_first(), id@) is None);
            },
            None => {
                assert(subtree(node@).drop_first() =~= Seq::<Json>::empty());
            },
        }
        i += 1;
    }
    None
}

/// Walk the tree and collect the ids of every `local`/`remote` node
/// reachable from the root, behind those that `out` holds already.
pub fn collect_content_ids(nodes: &[Value], out: &mut Vec<String>)
    ensures
        texts(final(out)@) == texts(old(out)@) + content_ids(flatten(forest(nodes@))),
        exists|added: Seq<Seq<char>>| #[trigger]
            lists_content(forest(nodes@), added) && texts(final(out)@) == texts(old(out)@) + added,
    decreases forest(nodes@),
{
    proof {
        law_every_content_id_is_collected(forest(nodes@));
    }
    broadcast use lemma_texts_push;

    let ghost all = forest(nodes@);
    let ghost start = texts(out@);
    let mut i: usize = 0;
    while i < nodes.len()
        invariant
            all == forest(nodes@),
            i <= nodes@.len(),
            start + content_ids(flatten(all)) == texts(out@) + content_ids(
                flatten_from(all, i as int),
            ),
        decreases nodes@.len() - i,
    {
        let node = &nodes[i];
        let ghost prior = texts(out@);
        assert(all[i as int] == node@);
        assert(decreases_to!(all => all[i as int]));
        let content: bool = match node_type(node) {
            Some(kind) => *kind == *"local" || *kind == *"remote",
            None => false,
        };
        if content {
            if let Some(id) = node_id(node) {
                out.push(id.to_owned());
            }
        }
        let ghost own = if has_content(node@) {
            seq![node@.id()->0]
        } else {
            Seq::empty()
        };
        assert(texts(out@) =~= prior + own);
        match node_children(node) {
            Some(children) => {
                proof {
                    lemma_children_smaller(node@);
                    assert(subtree(node@).drop_first() =~= flatten(forest(children@)));
                }
                collect_content_ids(children.as_slice(), out);
            },
            None => {
                assert(subtree(node@).drop_first() =~= Seq::<Json>::empty());
            },
        }
        proof {
            assert(subtree(node@)[0] == node@);
            assert(content_ids(subtree(node@)) =~= own + content_ids(subtree(node@).drop_first()));
            assert(texts(out@) =~= prior + content_ids(subtree(node@)));
            lemma_content_ids_concat(subtree(node@), flatten_from(all, i + 1));
            assert(prior + (content_ids(subtree(node@)) + content_ids(flatten_from(all, i + 1)))
                =~= texts(out@) + content_ids(flatten_from(all, i + 1)));
        }
        i += 1;
    }
    assert(texts(out@) + content_ids(flatten_from(all, i as int)) =~= texts(out@));
}

// ---- removing and inserting -------------------------------------------------

/// What removing a node comes to: the node, the id of the parent it had, and
/// the forest without it.
pub struct Removal {
    pub node: Json,
    pub parent: Option<Seq<char>>,
    pub rest: Seq<Json>,
}

/// The place of the first of `nodes[i..]` with the id, not looking below
/// them; the number of nodes if there is none.
pub open spec fn index_of_id(nodes: Seq<Json>, i: int, id: Seq<char>) -> int
    decreases nodes.len() - i,
{
    if 0 <= i < nodes.len() {
        if nodes[i].id() == Some(id) {
            i
        } else {
            index_of_id(nodes, i + 1, id)
        }
    } else {
        nodes.len() as int
    }
}

/// Removing the id from nodes that share a parent: one of the nodes
/// themselves, or else one below them.
pub open spec fn removal(
    nodes: Seq<Json>,
    id: Seq<char>,
    parent: Option<Seq<char>>,
) -> Option<Removal>
    decreases nodes, nodes.len() + 1,
{
    let i = index_of_id(nodes, 0, id);
    if i < nodes.len() {
        Some(Removal { node: nodes[i], parent, rest: nodes.remove(i) })
    } else {
        removal_below(nodes, 0, id)
    }
}

/// Removing the id from below `nodes[i..]`.
pub open spec fn removal_below(nodes: Seq<Json>, i: int, id: Seq<char>) -> Option<Removal>
    decreases nodes, nodes.len() - i,
{
    if 0 <= i < nodes.len() {
        proof {
            lemma_children_smaller(nodes[i]);
        }
        match nodes[i].children() {
            Some(children) => match removal(children, id, nodes[i].id()) {
                Some(inner) => Some(
                    Removal {
                        rest: nodes.update(i, nodes[i].set_children(inner.rest)),
                        ..inner
                    },
                ),
                None => removal_below(nodes, i + 1, id),
            },
            None => removal_below(nodes, i + 1, id),
        }
    } else {
        None
    }
}

/// The forest with `node` as the last child of the first node with the id
/// `parent_id` in or below `nodes[i..]`. Where the node with that id is no
/// parent, the siblings behind it are not looked at.
pub open spec fn appended_from(
    nodes: Seq<Json>,
    i: int,
    node: Json,
    parent_id: Seq<char>,
) -> Option<Seq<Json>>
    decreases nodes, nodes.len() - i,
{
    if 0 <= i < nodes.len() {
        proof {
            lemma_children_smaller(nodes[i]);
        }
        match nodes[i].children() {
            Some(children) => if nodes[i].id() == Some(parent_id) {
                Some(nodes.update(i, nodes[i].set_children(children.push(node))))
            } else {
                match appended_from(children, 0, node, parent_id) {
                    Some(grown) => Some(nodes.update(i, nodes[i].set_children(grown))),
                    None => appended_from(nodes, i + 1, node, parent_id),
                }
            },
            None => if nodes[i].id() == Some(parent_id) {
                None
            } else {
                appended_from(nodes, i + 1, node, parent_id)
            },
        }
    } else {
        None
    }
}

/// The forest with `node` under the given parent, or at the end of the top
/// level where there is no such parent.
pub open spec fn inserted(
    nodes: Seq<Json>,
    node: Json,
    parent_id: Option<Seq<char>>,
) -> Seq<Json> {
    match parent_id {
        Some(parent_id) => match appended_from(nodes, 0, node, parent_id) {
            Some(grown) => grown,
            None => nodes.push(node),
        },
        None => nodes.push(node),
    }
}

/// The characters of an optional string slice.
pub open spec fn optional_text(text: Option<&str>) -> Option<Seq<char>> {
    match text {
        Some(s) => Some(s@),
        None => None,
    }
}

/// The characters of an optional string.
pub open spec fn optional_string(text: Option<String>) -> Option<Seq<char>> {
    match text {
        Some(s) => Some(s@),
        None => None,
    }
}

/// Remove a node by id. Returns the removed node plus the id of its
/// parent folder (`None` if it lived at the top level).
pub fn remove_node(nodes: &mut Vec<Value>, id: &str) -> (removed: Option<(Value, Option<String>)>)
    ensures
        match (removed, removal(forest(old(nodes)@), id@, None)) {
            (Some((node, parent)), Some(expected)) => {
                &&& node@ == expected.node
                &&& match parent {
                    Some(parent) => expected.parent == Some(parent@),
                    None => expected.parent is None,
                }
                &&& forest(final(nodes)@) == expected.rest
            },
            (None, None) => forest(final(nodes)@) == forest(old(nodes)@),
            _ => false,
        },
        match removed {
            Some((node, parent)) => exists|place: Seq<int>|
                {
                    &&& #[trigger] soonest_place(forest(old(nodes)@), place, id@)
                    &&& there(forest(old(nodes)@), place) == Some(node@)
                    &&& forest(final(nodes)@) == cut(forest(old(nodes)@), place)
                    &&& place.len() == 1 ==> parent is None
                    &&& place.len() > 1 ==> optional_string(parent) == id_text(
                        there(forest(old(nodes)@), place.drop_last())->0,
                    )
                },
            None => unnamed(forest(old(nodes)@), id@),
        },
{
    proof {
        law_remove_reports_the_parent(forest(nodes@), id@);
    }
    remove_node_inner(nodes, id, None)
}

fn remove_node_inner(nodes: &mut Vec<Value>, id: &str, parent_id: Option<&str>) -> (removed: Option<
    (Value, Option<String>),
>)
    ensures
        match (removed, removal(forest(old(nodes)@), id@, optional_text(parent_id))) {
            (Some((node, parent)), Some(expected)) => {
                &&& node@ == expected.node
                &&& match parent {
                    Some(parent) => expected.parent == Some(parent@),
                    None => expected.parent is None,
                }
                &&& forest(final(nodes)@) == expected.rest
            },
            (None, None) => forest(final(nodes)@) == forest(old(nodes)@),
            _ => false,
        },
    decreases forest(old(nodes)@),
{
    let ghost all = forest(nodes@);
    let mut i: usize = 0;
    while i < nodes.len()
        invariant
            nodes@ == old(nodes)@,
            all == forest(nodes@),
            i <= nodes@.len(),
            index_of_id(all, 0, id@) == index_of_id(all, i as int, id@),
        decreases nodes@.len() - i,
    {
        assert(all[i as int] == nodes@[i as int]@);
        if has_id(&nodes[i], id) {
            let ghost before = nodes@;
            let node = nodes.remove(i);
            assert(forest(before.remove(i as int)) =~= all.remove(i as int));
            let parent: Option<String> = match parent_id {
                Some(parent) => Some(parent.to_owned()),
                None => None,
            };
            return Some((node, parent));
        }
        i += 1;
    }
    let mut i: usize = 0;
    while i < nodes.len()
        invariant
            all == forest(old(nodes)@),
            forest(nodes@) == all,
            i <= nodes@.len(),
            index_of_id(all, 0, id@) == all.len(),
            removal_below(all, 0, id@) == removal_below(all, i as int, id@),
        decreases nodes@.len() - i,
    {
        let ghost node = all[i as int];
        let ghost before = nodes@;
        assert(nodes@[i as int]@ == node);
        proof {
            lemma_children_smaller(node);
            assert(decreases_to!(all => all[i as int]));
        }
        let this_id: Option<String> = match node_id(&nodes[i]) {
            Some(own) => Some(own.to_owned()),
            None => None,
        };
        if let Some(children) = node_children_mut(&mut nodes[i]) {
            let this: Option<&str> = match &this_id {
                Some(own) => Some(own.as_str()),
                None => None,
            };
            assert(optional_text(this) == node.id());
            let removed = remove_node_inner(children, id, this);
            proof {
                lemma_rewrite(node, "children"@);
            }
            if removed.is_some() {
                assert(forest(nodes@) =~= all.update(i as int, nodes@[i as int]@));
                return removed;
            }
        }
        assert(forest(nodes@) =~= all);
        i += 1;
    }
    None
}

/// Insert `node` at the top level or inside the folder with `parent_id`.
/// If `parent_id` is supplied but no matching folder exists, the node
/// is appended to the top level.
pub fn insert_node(nodes: &mut Vec<Value>, node: Value, parent_id: Option<&str>)
    ensures
        forest(final(nodes)@) == inserted(forest(old(nodes)@), node@, optional_text(parent_id)),
        match parent_id {
            None => forest(final(nodes)@) == forest(old(nodes)@).push(node@),
            Some(id) => {
                ||| exists|place: Seq<int>| #[trigger]
                    first_taker(forest(old(nodes)@), place, id@) && forest(final(nodes)@) == grown(
                        forest(old(nodes)@),
                        place,
                        node@,
                    )
                ||| {
                    &&& forall|place: Seq<int>| !(#[trigger] takes_in(
                        forest(old(nodes)@),
                        place,
                        id@,
                    ))
                    &&& forest(final(nodes)@) == forest(old(nodes)@).push(node@)
                }
            },
        },
{
    broadcast use lemma_forest_push;

    proof {
        law_insert_appends(forest(nodes@), node@, optional_text(parent_id));
    }
    if let Some(parent_id) = parent_id {
        if append_into_folder(nodes, &node, parent_id) {
            return;
        }
    }
    let ghost before = forest(nodes@);
    nodes.push(node);
    assert(forest(nodes@) == before.push(node@));
}

fn append_into_folder(nodes: &mut Vec<Value>, node: &Value, parent_id: &str) -> (done: bool)
    ensures
        match appended_from(forest(old(nodes)@), 0, node@, parent_id@) {
            Some(grown) => done && forest(final(nodes)@) == grown,
            None => !done && forest(final(nodes)@) == forest(old(nodes)@),
        },
    decreases forest(old(nodes)@),
{
    broadcast use lemma_forest_push;

    let ghost all = forest(nodes@);
    let mut i: usize = 0;
    while i < nodes.len()
        invariant
            all == forest(old(nodes)@),
            forest(nodes@) == all,
            i <= nodes@.len(),
            appended_from(all, 0, node@, parent_id@) == appended_from(
                all,
                i as int,
                node@,
                parent_id@,
            ),
        decreases nodes@.len() - i,
    {
        let ghost current = all[i as int];
        assert(nodes@[i as int]@ == current);
        proof {
            lemma_children_smaller(current);
            assert(decreases_to!(all => all[i as int]));
        }
        let matched: bool = has_id(&nodes[i], parent_id);
        if let Some(children) = node_children_mut(&mut nodes[i]) {
            proof {
                lemma_rewrite(current, "children"@);
            }
            if matched {
                let ghost before = forest(children@);
                children.push(node.clone());
                assert(forest(children@) == before.push(node@));
                assert(forest(nodes@) =~= all.update(i as int, nodes@[i as int]@));
                return true;
            }
            if append_into_folder(children, node, parent_id) {
                assert(forest(nodes@) =~= all.update(i as int, nodes@[i as int]@));
                return true;
            }
        } else if matched {
            assert(forest(nodes@) =~= all);
            return false;
        }
        assert(forest(nodes@) =~= all);
        i += 1;
    }
    false
}

} // verus!
