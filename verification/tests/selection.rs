use switchhosts::selection::{
    folder_mode, is_folder, is_on, set_node_on, set_on_state_of_item, switch_folder_child,
    switch_item_parent_is_on,
};
use switchhosts::tree::{node_at, path_of};
use switchhosts::value::{Number, Value};

fn object(members: Vec<(&str, Value)>) -> Value {
    let mut v = Value::object();
    for (key, value) in members {
        v.insert(key, value);
    }
    v
}

fn text(s: &str) -> Value {
    Value::String(s.to_string())
}

fn leaf(id: &str, on: bool) -> Value {
    object(vec![
        ("id", text(id)),
        ("title", text(id)),
        ("type", text("local")),
        ("on", Value::Bool(on)),
    ])
}

fn folder(id: &str, on: bool, mode: u64, children: Vec<Value>) -> Value {
    object(vec![
        ("id", text(id)),
        ("title", text(id)),
        ("type", text("folder")),
        ("on", Value::Bool(on)),
        ("folder_mode", Value::Number(Number::PosInt(mode))),
        ("children", Value::Array(children)),
    ])
}

/// A folder that carries no `folder_mode` of its own.
fn folder_no_mode(id: &str, on: bool, children: Vec<Value>) -> Value {
    object(vec![
        ("id", text(id)),
        ("title", text(id)),
        ("type", text("folder")),
        ("on", Value::Bool(on)),
        ("children", Value::Array(children)),
    ])
}

fn on_of(root: &[Value], id: &str) -> bool {
    let path = path_of(root, id).expect("node must exist");
    node_at(root, &path)
        .and_then(|n| n.get("on"))
        .and_then(Value::as_bool)
        .unwrap_or(false)
}

fn shown(root: &Vec<Value>) -> String {
    format!("{:?}", root)
}

#[test]
fn sets_the_target_node_and_leaves_siblings_alone_in_multi_choice() {
    let mut root = vec![leaf("a", false), leaf("b", true)];
    set_on_state_of_item(&mut root, "a", true, 2, false);
    assert!(on_of(&root, "a"));
    assert!(on_of(&root, "b"), "multi-choice must not turn siblings off");
}

#[test]
fn single_choice_turns_other_top_level_nodes_off() {
    let mut root = vec![leaf("a", false), leaf("b", true), leaf("c", true)];
    set_on_state_of_item(&mut root, "a", true, 1, false);
    assert!(on_of(&root, "a"));
    assert!(!on_of(&root, "b"));
    assert!(!on_of(&root, "c"));
}

#[test]
fn turning_off_never_switches_anything_else_on() {
    let mut root = vec![leaf("a", true), leaf("b", false)];
    set_on_state_of_item(&mut root, "a", false, 1, false);
    assert!(!on_of(&root, "a"));
    assert!(!on_of(&root, "b"));
}

#[test]
fn folder_toggle_cascades_to_children_when_switch_all_is_set() {
    let mut root = vec![folder(
        "f",
        false,
        2,
        vec![leaf("c1", false), leaf("c2", false)],
    )];
    set_on_state_of_item(&mut root, "f", true, 2, true);
    assert!(on_of(&root, "f"));
    assert!(on_of(&root, "c1"));
    assert!(on_of(&root, "c2"));
}

#[test]
fn single_choice_folder_does_not_cascade_to_its_children() {
    let mut root = vec![folder("f", false, 1, vec![leaf("c1", false)])];
    set_on_state_of_item(&mut root, "f", true, 2, true);
    assert!(on_of(&root, "f"));
    assert!(
        !on_of(&root, "c1"),
        "children of a single-choice folder are mutually exclusive, so a \
         folder toggle must not switch them all on"
    );
}

#[test]
fn turning_one_child_off_turns_the_parent_off() {
    let mut root = vec![folder(
        "f",
        true,
        2,
        vec![leaf("c1", true), leaf("c2", true)],
    )];
    set_on_state_of_item(&mut root, "c1", false, 2, true);
    assert!(!on_of(&root, "c1"));
    assert!(on_of(&root, "c2"), "the other child stays on");
    assert!(!on_of(&root, "f"), "parent follows its children off");
}

#[test]
fn parent_turns_on_only_once_every_child_is_on() {
    let mut root = vec![folder(
        "f",
        false,
        2,
        vec![leaf("c1", false), leaf("c2", false)],
    )];
    set_on_state_of_item(&mut root, "c1", true, 2, true);
    assert!(
        !on_of(&root, "f"),
        "one of two children on: parent stays off"
    );
    set_on_state_of_item(&mut root, "c2", true, 2, true);
    assert!(on_of(&root, "f"), "all children on: parent turns on");
}

#[test]
fn folder_mode_overrides_the_global_choice_mode_for_its_children() {
    // Global mode is multi-choice, but this folder is single-choice.
    let mut root = vec![folder(
        "f",
        true,
        1,
        vec![leaf("c1", true), leaf("c2", false)],
    )];
    set_on_state_of_item(&mut root, "c2", true, 2, false);
    assert!(on_of(&root, "c2"));
    assert!(
        !on_of(&root, "c1"),
        "single-choice folder unsets the sibling"
    );
}

#[test]
fn nested_folders_reconcile_all_the_way_up() {
    let mut root = vec![folder(
        "outer",
        true,
        2,
        vec![folder("inner", true, 2, vec![leaf("c1", true)])],
    )];
    set_on_state_of_item(&mut root, "c1", false, 2, true);
    assert!(!on_of(&root, "inner"));
    assert!(
        !on_of(&root, "outer"),
        "the reconcile walk must not stop at the first parent"
    );
}

#[test]
fn unknown_id_is_a_no_op() {
    let mut root = vec![leaf("a", true)];
    set_on_state_of_item(&mut root, "nope", false, 1, true);
    assert!(on_of(&root, "a"));
}

#[test]
fn folder_without_its_own_mode_inherits_the_global_choice_mode() {
    let mut root = vec![folder_no_mode(
        "f",
        true,
        vec![leaf("c1", true), leaf("c2", false)],
    )];
    set_on_state_of_item(&mut root, "c2", true, 1, false);
    assert!(on_of(&root, "c2"));
    assert!(
        !on_of(&root, "c1"),
        "a folder with no mode of its own must fall back to the global \
         choice_mode, so single choice still applies to its children"
    );
}

#[test]
fn folder_mode_zero_inherits_the_global_choice_mode() {
    // `0` stands for a mode that is not set.
    let mut root = vec![folder(
        "f",
        true,
        0,
        vec![leaf("c1", true), leaf("c2", false)],
    )];
    set_on_state_of_item(&mut root, "c2", true, 1, false);
    assert!(on_of(&root, "c2"));
    assert!(
        !on_of(&root, "c1"),
        "folder_mode 0 means inherit, not multi-choice"
    );
}

#[test]
fn single_choice_takes_the_children_of_the_folders_it_switches_off() {
    let mut root = vec![
        folder("f", true, 2, vec![leaf("c1", true), leaf("c2", true)]),
        leaf("a", false),
    ];
    set_on_state_of_item(&mut root, "a", true, 1, true);
    assert!(on_of(&root, "a"));
    assert!(!on_of(&root, "f"));
    assert!(
        !on_of(&root, "c1") && !on_of(&root, "c2"),
        "switching a top-level folder off under single choice must cascade to its children"
    );
}

#[test]
fn a_single_choice_folder_does_not_follow_its_children_off() {
    // Its children are mutually exclusive, so the folder's own state is
    // not derived from them: the parent reconcile walk skips it.
    let mut root = vec![folder(
        "f",
        true,
        1,
        vec![leaf("c1", true), leaf("c2", false)],
    )];
    set_on_state_of_item(&mut root, "c1", false, 2, true);
    assert!(!on_of(&root, "c1"));
    assert!(on_of(&root, "f"));
}

#[test]
fn only_folders_cascade_even_if_another_node_type_carries_children() {
    let mut root = vec![object(vec![
        ("id", text("l")),
        ("title", text("l")),
        ("type", text("local")),
        ("on", Value::Bool(false)),
        ("children", Value::Array(vec![leaf("c1", false)])),
    ])];
    set_on_state_of_item(&mut root, "l", true, 2, true);
    assert!(on_of(&root, "l"));
    assert!(!on_of(&root, "c1"));
}

// ---- the whole forest, exactly ----------------------------------------------

#[test]
fn switching_gives_the_whole_forest_that_is_expected() {
    let mut root = vec![
        folder(
            "outer",
            false,
            2,
            vec![
                folder("inner", false, 0, vec![leaf("c1", false), leaf("c2", true)]),
                leaf("d", true),
            ],
        ),
        leaf("e", true),
    ];
    set_on_state_of_item(&mut root, "c1", true, 2, true);
    let expected = vec![
        folder(
            "outer",
            true,
            2,
            vec![
                folder("inner", true, 0, vec![leaf("c1", true), leaf("c2", true)]),
                leaf("d", true),
            ],
        ),
        leaf("e", true),
    ];
    assert_eq!(shown(&root), shown(&expected));
}

#[test]
fn an_unknown_id_leaves_the_forest_as_it_is() {
    let mut root = vec![folder("f", true, 1, vec![leaf("c1", true)]), leaf("a", false)];
    let before = shown(&root);
    set_on_state_of_item(&mut root, "nope", true, 1, true);
    assert_eq!(shown(&root), before);
}

#[test]
fn nothing_but_the_states_changes() {
    let mut root = vec![
        folder("f", true, 2, vec![leaf("c1", true)]),
        leaf("a", false),
    ];
    set_on_state_of_item(&mut root, "a", true, 1, true);
    let expected = vec![
        folder("f", false, 2, vec![leaf("c1", false)]),
        leaf("a", true),
    ];
    assert_eq!(shown(&root), shown(&expected));
}

#[test]
fn without_switch_all_neither_children_nor_parents_follow() {
    let mut root = vec![folder("f", false, 2, vec![leaf("c1", false)])];
    set_on_state_of_item(&mut root, "f", true, 2, false);
    assert!(on_of(&root, "f"));
    assert!(!on_of(&root, "c1"));

    let mut root = vec![folder("f", true, 2, vec![leaf("c1", true)])];
    set_on_state_of_item(&mut root, "c1", false, 2, false);
    assert!(on_of(&root, "f"));
    assert!(!on_of(&root, "c1"));
}

#[test]
fn single_choice_without_switch_all_leaves_the_children_of_a_sibling_alone() {
    let mut root = vec![folder("f", true, 2, vec![leaf("c1", true)]), leaf("a", false)];
    set_on_state_of_item(&mut root, "a", true, 1, false);
    assert!(!on_of(&root, "f"));
    assert!(on_of(&root, "c1"));
}

#[test]
fn single_choice_in_a_folder_leaves_other_levels_alone() {
    let mut root = vec![
        folder("f", true, 1, vec![leaf("c1", true), leaf("c2", false)]),
        leaf("a", true),
    ];
    set_on_state_of_item(&mut root, "c2", true, 2, true);
    assert!(!on_of(&root, "c1"));
    assert!(on_of(&root, "c2"));
    assert!(on_of(&root, "a"));
    assert!(on_of(&root, "f"));
}

#[test]
fn the_walk_up_ends_at_a_single_choice_folder() {
    let mut root = vec![folder(
        "outer",
        true,
        2,
        vec![folder("middle", true, 1, vec![leaf("c1", true)])],
    )];
    set_on_state_of_item(&mut root, "c1", false, 2, true);
    assert!(!on_of(&root, "c1"));
    assert!(on_of(&root, "middle"));
    assert!(on_of(&root, "outer"), "nothing above the single-choice folder is touched");
}

#[test]
fn a_cascade_stops_below_a_single_choice_folder() {
    let mut node = folder(
        "f",
        false,
        2,
        vec![
            folder("single", false, 1, vec![leaf("x", false)]),
            folder("multi", false, 2, vec![leaf("y", false)]),
        ],
    );
    switch_folder_child(&mut node, true);
    let root = vec![node];
    assert!(!on_of(&root, "f"), "the folder itself is left to the caller");
    assert!(on_of(&root, "single"));
    assert!(!on_of(&root, "x"));
    assert!(on_of(&root, "multi"));
    assert!(on_of(&root, "y"));
}

#[test]
fn the_first_of_two_nodes_with_an_id_is_switched() {
    let mut root = vec![leaf("a", false), leaf("a", false)];
    set_on_state_of_item(&mut root, "a", true, 2, true);
    assert!(is_on(&root[0]));
    assert!(!is_on(&root[1]));
}

#[test]
fn a_parent_without_a_path_to_it_changes_nothing() {
    let mut root = vec![leaf("a", true)];
    let before = shown(&root);
    switch_item_parent_is_on(&mut root, &[0], false);
    switch_item_parent_is_on(&mut root, &[0, 0, 0], false);
    switch_item_parent_is_on(&mut root, &[7, 0], false);
    assert_eq!(shown(&root), before);
}

#[test]
fn selecting_again_changes_nothing() {
    let mut root = vec![
        folder("f", false, 2, vec![leaf("c1", false), folder("g", true, 1, vec![leaf("x", true)])]),
        leaf("a", true),
    ];
    for (id, on) in [("c1", true), ("a", true), ("f", false), ("x", false)] {
        for mode in [1, 2] {
            for switch_all in [true, false] {
                set_on_state_of_item(&mut root, id, on, mode, switch_all);
                let once = shown(&root);
                set_on_state_of_item(&mut root, id, on, mode, switch_all);
                assert_eq!(shown(&root), once);
            }
        }
    }
}

#[test]
fn a_parent_lags_behind_the_children_that_single_choice_switches_off() {
    let mut root = vec![folder(
        "f",
        false,
        0,
        vec![leaf("c1", false), leaf("c2", true)],
    )];
    set_on_state_of_item(&mut root, "c1", true, 1, true);
    assert!(on_of(&root, "f"), "both children were on when the folder followed");
    assert!(!on_of(&root, "c2"));
    set_on_state_of_item(&mut root, "c1", true, 1, true);
    assert!(!on_of(&root, "f"));
}

#[test]
fn the_last_cascade_decides() {
    let make = || folder("f", false, 2, vec![folder("g", true, 2, vec![leaf("x", true)])]);
    let mut both = make();
    switch_folder_child(&mut both, false);
    switch_folder_child(&mut both, true);
    let mut last = make();
    switch_folder_child(&mut last, true);
    assert_eq!(format!("{:?}", both), format!("{:?}", last));
}

// ---- one node ---------------------------------------------------------------

#[test]
fn a_node_that_does_not_say_so_is_off() {
    assert!(!is_on(&Value::Null));
    assert!(!is_on(&object(vec![("on", text("true"))])));
    assert!(!is_on(&object(vec![])));
    assert!(is_on(&object(vec![("on", Value::Bool(true))])));
}

#[test]
fn only_a_positive_integer_is_a_mode() {
    let with = |v: Value| object(vec![("folder_mode", v)]);
    assert_eq!(folder_mode(&with(Value::Number(Number::PosInt(2)))), Some(2));
    assert_eq!(folder_mode(&with(Value::Number(Number::PosInt(0)))), None);
    assert_eq!(folder_mode(&with(Value::Number(Number::NegInt(-1)))), None);
    assert_eq!(
        folder_mode(&with(Value::Number(Number::Float(1.0f64.to_bits())))),
        None
    );
    assert_eq!(folder_mode(&with(text("1"))), None);
    assert_eq!(folder_mode(&Value::Null), None);
}

#[test]
fn only_the_type_makes_a_folder() {
    assert!(is_folder(&folder("f", true, 2, vec![])));
    assert!(!is_folder(&leaf("a", true)));
    assert!(!is_folder(&object(vec![("children", Value::Array(vec![]))])));
}

#[test]
fn setting_the_state_of_what_is_no_object_changes_nothing() {
    let mut v = text("x");
    set_node_on(&mut v, true);
    assert_eq!(v.as_str(), Some("x"));

    let mut v = object(vec![]);
    set_node_on(&mut v, true);
    assert_eq!(v.get("on").and_then(Value::as_bool), Some(true));
}
