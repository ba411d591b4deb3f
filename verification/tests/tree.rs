use switchhosts::tree::{
    collect_content_ids, find_node, flatten_root, insert_node, node_at, node_at_mut, node_children,
    node_children_mut, node_id, node_type, path_of, remove_node, walk,
};
use switchhosts::value::Value;

fn object(members: Vec<(&str, Value)>) -> Value {
    let mut v = Value::object();
    for (key, value) in members {
        v.insert(key, value);
    }
    v
}

fn text(s: &str) -> Value {
    Value::String(s.to_string())
}

fn node(id: &str, kind: &str) -> Value {
    object(vec![("id", text(id)), ("type", text(kind))])
}

fn parent(id: &str, children: Vec<Value>) -> Value {
    object(vec![
        ("id", text(id)),
        ("type", text("folder")),
        ("children", Value::Array(children)),
    ])
}

fn forest() -> Vec<Value> {
    vec![
        node("a", "local"),
        parent(
            "f",
            vec![node("b", "remote"), parent("g", vec![node("c", "local")]), node("d", "group")],
        ),
        node("e", "remote"),
    ]
}

fn ids(nodes: &Vec<Value>) -> Vec<String> {
    let flat = flatten_root(nodes);
    flat.iter().map(|n| node_id(n).unwrap_or("?").to_string()).collect()
}

fn shown(nodes: &Vec<Value>) -> String {
    format!("{:?}", nodes)
}

// ---- removing ---------------------------------------------------------------

#[test]
fn removing_at_the_top_level_names_no_parent() {
    let mut nodes = forest();
    let (removed, parent_id) = remove_node(&mut nodes, "a").unwrap();
    assert_eq!(node_id(&removed), Some("a"));
    assert_eq!(parent_id, None);
    assert_eq!(ids(&nodes), vec!["f", "b", "g", "c", "d", "e"]);
}

#[test]
fn removing_below_names_the_parent() {
    let mut nodes = forest();
    let (removed, parent_id) = remove_node(&mut nodes, "c").unwrap();
    assert_eq!(node_id(&removed), Some("c"));
    assert_eq!(parent_id, Some("g".to_string()));
    assert_eq!(ids(&nodes), vec!["a", "f", "b", "g", "d", "e"]);
    assert!(find_node(&nodes, "c").is_none());
}

#[test]
fn removing_a_folder_takes_everything_below_it() {
    let mut nodes = forest();
    let (removed, parent_id) = remove_node(&mut nodes, "f").unwrap();
    assert_eq!(parent_id, None);
    assert_eq!(ids(&vec![removed]), vec!["f", "b", "g", "c", "d"]);
    assert_eq!(ids(&nodes), vec!["a", "e"]);
}

#[test]
fn removing_an_unknown_id_changes_nothing() {
    let mut nodes = forest();
    assert!(remove_node(&mut nodes, "nope").is_none());
    assert_eq!(shown(&nodes), shown(&forest()));
}

#[test]
fn removing_looks_at_siblings_before_it_looks_below_them() {
    let mut nodes = vec![parent("p", vec![node("x", "local")]), node("x", "remote")];
    let (removed, parent_id) = remove_node(&mut nodes, "x").unwrap();
    assert_eq!(node_type(&removed), Some("remote"));
    assert_eq!(parent_id, None);
    // A search finds the other one first.
    let found = find_node(&nodes, "x").unwrap();
    assert_eq!(node_type(&found), Some("local"));
}

#[test]
fn removing_from_a_parent_without_an_id_names_none() {
    let anonymous = object(vec![("children", Value::Array(vec![node("x", "local")]))]);
    let mut nodes = vec![anonymous];
    let (_, parent_id) = remove_node(&mut nodes, "x").unwrap();
    assert_eq!(parent_id, None);
    assert_eq!(node_children(&nodes[0]).unwrap().len(), 0);
}

// ---- inserting --------------------------------------------------------------

#[test]
fn inserting_without_a_parent_appends_to_the_top_level() {
    let mut nodes = forest();
    insert_node(&mut nodes, node("n", "local"), None);
    assert_eq!(ids(&nodes), vec!["a", "f", "b", "g", "c", "d", "e", "n"]);
    assert_eq!(nodes.len(), 4);
}

#[test]
fn inserting_into_a_folder_appends_to_its_children() {
    let mut nodes = forest();
    insert_node(&mut nodes, node("n", "local"), Some("g"));
    assert_eq!(ids(&nodes), vec!["a", "f", "b", "g", "c", "n", "d", "e"]);
    let found = find_node(&nodes, "n").unwrap();
    assert_eq!(node_type(&found), Some("local"));
}

#[test]
fn inserting_under_an_unknown_parent_falls_back_to_the_top_level() {
    let mut nodes = forest();
    insert_node(&mut nodes, node("n", "local"), Some("nope"));
    assert_eq!(nodes.len(), 4);
    assert_eq!(node_id(&nodes[3]), Some("n"));
}

#[test]
fn inserting_under_a_node_without_children_falls_back_to_the_top_level() {
    let mut nodes = forest();
    insert_node(&mut nodes, node("n", "local"), Some("b"));
    assert_eq!(ids(&nodes), vec!["a", "f", "b", "g", "c", "d", "e", "n"]);
}

#[test]
fn removing_undoes_inserting() {
    let mut nodes = forest();
    insert_node(&mut nodes, node("n", "local"), Some("f"));
    let (removed, parent_id) = remove_node(&mut nodes, "n").unwrap();
    assert_eq!(node_id(&removed), Some("n"));
    assert_eq!(parent_id, Some("f".to_string()));
    assert_eq!(shown(&nodes), shown(&forest()));

    insert_node(&mut nodes, node("n", "local"), Some("a"));
    let (_, parent_id) = remove_node(&mut nodes, "n").unwrap();
    assert_eq!(parent_id, None);
    assert_eq!(shown(&nodes), shown(&forest()));
}

// ---- reading ----------------------------------------------------------------

#[test]
fn content_ids_are_those_of_local_and_remote_nodes() {
    let mut out = vec!["before".to_string()];
    collect_content_ids(&forest(), &mut out);
    assert_eq!(out, vec!["before", "a", "b", "c", "e"]);
}

#[test]
fn a_node_without_an_id_has_no_content_id() {
    let mut out = Vec::new();
    collect_content_ids(&vec![object(vec![("type", text("local"))])], &mut out);
    assert!(out.is_empty());
}

#[test]
fn walk_appends_behind_what_is_there() {
    let mut out = vec![node("z", "local")];
    walk(&vec![parent("p", vec![node("q", "local")])], &mut out);
    let found: Vec<&str> = out.iter().filter_map(node_id).collect();
    assert_eq!(found, vec!["z", "p", "q"]);
}

#[test]
fn a_path_leads_to_what_a_search_finds() {
    let nodes = forest();
    assert_eq!(path_of(&nodes, "a"), Some(vec![0]));
    assert_eq!(path_of(&nodes, "c"), Some(vec![1, 1, 0]));
    assert_eq!(path_of(&nodes, "e"), Some(vec![2]));
    assert_eq!(path_of(&nodes, "nope"), None);
    for id in ["a", "f", "b", "g", "c", "d", "e"] {
        let path = path_of(&nodes, id).unwrap();
        let there = node_at(&nodes, &path).unwrap();
        let found = find_node(&nodes, id).unwrap();
        assert_eq!(format!("{:?}", there), format!("{:?}", found));
    }
}

#[test]
fn there_is_nothing_at_a_path_that_leaves_the_forest() {
    let mut nodes = forest();
    assert!(node_at(&nodes, &[]).is_none());
    assert!(node_at(&nodes, &[3]).is_none());
    assert!(node_at(&nodes, &[0, 0]).is_none());
    assert!(node_at(&nodes, &[1, 3]).is_none());
    assert!(node_at_mut(&mut nodes, &[]).is_none());
    assert!(node_at_mut(&mut nodes, &[0, 0]).is_none());
    assert_eq!(shown(&nodes), shown(&forest()));
}

#[test]
fn writing_at_a_path_changes_that_node_alone() {
    let mut nodes = forest();
    node_at_mut(&mut nodes, &[1, 1, 0]).unwrap().insert("id", text("C"));
    assert_eq!(ids(&nodes), vec!["a", "f", "b", "g", "C", "d", "e"]);
}

#[test]
fn a_search_prefers_a_parent_to_what_is_below_it() {
    let nodes = vec![parent("x", vec![node("x", "local")])];
    let found = find_node(&nodes, "x").unwrap();
    assert_eq!(node_type(&found), Some("folder"));
}

#[test]
fn ids_are_compared_as_a_whole() {
    let nodes = vec![node("abc", "local"), node("ab", "remote")];
    assert_eq!(node_type(&find_node(&nodes, "ab").unwrap()), Some("remote"));
    assert!(find_node(&nodes, "a").is_none());
    assert!(find_node(&nodes, "").is_none());
}

#[test]
fn only_an_array_makes_children() {
    let mut odd = object(vec![("children", text("no"))]);
    assert!(node_children(&odd).is_none());
    assert!(node_children_mut(&mut odd).is_none());
    assert_eq!(odd.get("children").and_then(Value::as_str), Some("no"));
    assert!(node_children(&Value::Null).is_none());
}
