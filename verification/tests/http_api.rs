use switchhosts::http_api::{
    address, api_list, bind_failure, home, remote_test, remote_test_body, set_nonblocking_failure,
    start, started, stop, ListenError, ServerHandle, StartStep, HTTP_API_PORT,
};
use switchhosts::manifest::Manifest;
use switchhosts::tree::{find_node, flatten_root};
use switchhosts::value::Value;

fn object(members: Vec<(&str, Value)>) -> Value {
    let mut v = Value::object();
    for (key, value) in members {
        v.insert(key, value);
    }
    v
}

fn text(s: &str) -> Value {
    Value::String(s.to_string())
}

fn local(id: &str, on: bool) -> Value {
    object(vec![
        ("id", text(id)),
        ("type", text("local")),
        ("on", Value::Bool(on)),
    ])
}

fn folder(id: &str, children: Vec<Value>) -> Value {
    object(vec![
        ("id", text(id)),
        ("type", text("folder")),
        ("children", Value::Array(children)),
    ])
}

fn tree_fixture() -> Vec<Value> {
    // root
    // |-- local-1
    // |-- folder-a
    // |   |-- local-2
    // |   `-- folder-b
    // |       `-- local-3
    // `-- local-4
    vec![
        local("local-1", true),
        folder(
            "folder-a",
            vec![
                local("local-2", false),
                folder("folder-b", vec![local("local-3", true)]),
            ],
        ),
        local("local-4", false),
    ]
}

#[test]
fn flatten_root_emits_parents_before_descendants_in_dfs_order() {
    let flat = flatten_root(&tree_fixture());
    let ids: Vec<&str> = flat.iter().filter_map(|n| n.get("id")?.as_str()).collect();
    assert_eq!(
        ids,
        vec!["local-1", "folder-a", "local-2", "folder-b", "local-3", "local-4"]
    );
}

#[test]
fn flatten_root_handles_empty_tree() {
    assert!(flatten_root(&[]).is_empty());
}

#[test]
fn find_node_locates_top_level_id() {
    let n = find_node(&tree_fixture(), "local-4").unwrap();
    assert_eq!(n.get("type").and_then(Value::as_str), Some("local"));
}

#[test]
fn find_node_recurses_into_nested_folders() {
    // Two levels deep: exercises the recursive arm.
    let n = find_node(&tree_fixture(), "local-3").unwrap();
    assert_eq!(n.get("on").and_then(Value::as_bool), Some(true));
}

#[test]
fn find_node_returns_none_for_missing_id() {
    assert!(find_node(&tree_fixture(), "does-not-exist").is_none());
}

#[test]
fn find_node_skips_folder_with_non_array_children_field() {
    // A malformed node whose `children` is not an array should not
    // panic and should not be treated as a parent.
    let nodes = vec![
        object(vec![("id", text("weird")), ("children", text("not-an-array"))]),
        object(vec![("id", text("real")), ("type", text("local"))]),
    ];
    assert!(find_node(&nodes, "real").is_some());
    assert!(find_node(&nodes, "missing").is_none());
}

#[test]
fn home_route_returns_static_greeting() {
    assert_eq!(home(), "Hello SwitchHosts!");
}

#[test]
fn remote_test_route_starts_with_marker_and_carries_timestamp() {
    let now = chrono::Local::now();
    let body = remote_test(now.timestamp(), now.offset().local_minus_utc()).unwrap();
    assert!(
        body.starts_with("# remote-test\n# "),
        "unexpected body prefix: {body:?}"
    );
    // Timestamp must be non-empty (the chrono format string is dynamic).
    let ts = &body["# remote-test\n# ".len()..];
    assert!(!ts.is_empty());
}

#[test]
fn remote_test_writes_the_time_at_the_offset() {
    assert_eq!(
        remote_test(0, 0).unwrap(),
        "# remote-test\n# Thu Jan  1 1970 00:00:00 GMT+0000"
    );
    assert_eq!(
        remote_test(1_700_000_000, 8 * 3600).unwrap(),
        "# remote-test\n# Wed Nov 15 2023 06:13:20 GMT+0800"
    );
    assert_eq!(
        remote_test(1_700_000_000, -5 * 3600).unwrap(),
        "# remote-test\n# Tue Nov 14 2023 17:13:20 GMT-0500"
    );
}

#[test]
fn remote_test_agrees_with_chrono_on_the_present() {
    let now = chrono::Local::now();
    let expected = format!(
        "# remote-test\n# {}",
        now.format("%a %b %e %Y %H:%M:%S GMT%z")
    );
    let body = remote_test(now.timestamp(), now.offset().local_minus_utc());
    assert_eq!(body, Some(expected));
}

#[test]
fn remote_test_has_nothing_for_a_time_that_cannot_be_written() {
    assert!(remote_test(i64::MAX, 0).is_none());
    assert!(remote_test(0, 86_400).is_none());
    assert!(remote_test(-8_000_000_000_000, 86_399).is_some());
    assert!(remote_test(8_000_000_000_000, -86_399).is_some());
}

#[test]
fn remote_test_body_carries_any_timestamp() {
    assert_eq!(remote_test_body("now"), "# remote-test\n# now");
    assert_eq!(remote_test_body(""), "# remote-test\n# ");
}

// ---- the list ---------------------------------------------------------------

#[test]
fn the_list_is_the_flat_tree() {
    let manifest = Manifest {
        root: tree_fixture(),
        ..Manifest::default()
    };
    let reply = api_list(Ok(manifest));
    let expected = object(vec![
        ("success", Value::Bool(true)),
        ("data", Value::Array(flatten_root(&tree_fixture()))),
    ]);
    assert_eq!(format!("{:?}", reply), format!("{:?}", expected));
    let data = reply.get("data").and_then(Value::as_array).unwrap();
    assert_eq!(data.len(), 6);
}

#[test]
fn the_list_says_why_there_is_none() {
    let reply = api_list(Err("broken".to_string()));
    let expected = object(vec![
        ("success", Value::Bool(false)),
        ("message", text("broken")),
    ]);
    assert_eq!(format!("{:?}", reply), format!("{:?}", expected));
}

// ---- the server -------------------------------------------------------------

#[test]
fn a_first_start_binds_and_aborts_nothing() {
    let mut slot: Option<ServerHandle<u32>> = None;
    match start(&mut slot, true) {
        StartStep::Bind { abort, ip, port } => {
            assert_eq!(abort, None);
            assert_eq!(ip, [127, 0, 0, 1]);
            assert_eq!(port, 50761);
            assert_eq!(port, HTTP_API_PORT);
        }
        StartStep::AlreadyRunning => panic!("nothing runs"),
    }
    assert!(slot.is_none());
}

#[test]
fn a_second_start_with_the_same_value_is_a_no_op() {
    let mut slot: Option<ServerHandle<u32>> = None;
    assert_eq!(started(&mut slot, Ok(7), false), Ok(()));
    assert!(matches!(start(&mut slot, false), StartStep::AlreadyRunning));
    let handle = slot.unwrap();
    assert_eq!(handle.task, 7);
    assert!(!handle.only_local);
}

#[test]
fn a_start_with_the_other_value_aborts_and_binds_anew() {
    let mut slot: Option<ServerHandle<u32>> = None;
    assert_eq!(started(&mut slot, Ok(7), true), Ok(()));
    match start(&mut slot, false) {
        StartStep::Bind { abort, ip, port } => {
            assert_eq!(abort, Some(7));
            assert_eq!(ip, [0, 0, 0, 0]);
            assert_eq!(port, 50761);
        }
        StartStep::AlreadyRunning => panic!("another server was asked for"),
    }
    assert!(slot.is_none(), "a failure to bind must not leave a dead handle");
    assert_eq!(started(&mut slot, Ok(8), false), Ok(()));
    assert!(matches!(start(&mut slot, false), StartStep::AlreadyRunning));
}

#[test]
fn stop_clears_the_slot_and_gives_the_task() {
    let mut slot: Option<ServerHandle<u32>> = None;
    assert_eq!(stop(&mut slot), None);
    assert_eq!(started(&mut slot, Ok(3), true), Ok(()));
    assert_eq!(stop(&mut slot), Some(3));
    assert!(slot.is_none());
    assert_eq!(stop(&mut slot), None);
}

#[test]
fn a_failure_to_bind_names_the_address_and_the_cause() {
    assert_eq!(
        bind_failure(true, "Address already in use (os error 98)"),
        "bind 127.0.0.1:50761: Address already in use (os error 98)"
    );
    assert_eq!(bind_failure(false, "denied"), "bind 0.0.0.0:50761: denied");
    assert_eq!(
        set_nonblocking_failure(true, "denied"),
        "set_nonblocking 127.0.0.1:50761: denied"
    );
    assert_eq!(
        set_nonblocking_failure(false, "denied"),
        "set_nonblocking 0.0.0.0:50761: denied"
    );
}

#[test]
fn the_address_in_words_is_the_address_that_is_bound_to() {
    for only_local in [true, false] {
        let mut slot: Option<ServerHandle<u32>> = None;
        match start(&mut slot, only_local) {
            StartStep::Bind { ip, port, .. } => {
                let [a, b, c, d] = ip;
                assert_eq!(address(only_local), format!("{a}.{b}.{c}.{d}:{port}"));
            }
            StartStep::AlreadyRunning => panic!("nothing runs"),
        }
    }
}

#[test]
fn a_start_that_fails_leaves_no_server_and_says_why() {
    let mut slot: Option<ServerHandle<u32>> = None;
    assert_eq!(started(&mut slot, Ok(7), true), Ok(()));
    match start(&mut slot, false) {
        StartStep::Bind { abort, .. } => assert_eq!(abort, Some(7)),
        StartStep::AlreadyRunning => panic!("another server was asked for"),
    }
    let failed = Err(ListenError::Bind("in use".to_string()));
    assert_eq!(
        started(&mut slot, failed, false),
        Err("bind 0.0.0.0:50761: in use".to_string())
    );
    assert!(slot.is_none());

    let failed = Err(ListenError::SetNonblocking("refused".to_string()));
    assert_eq!(
        started(&mut slot, failed, true),
        Err("set_nonblocking 127.0.0.1:50761: refused".to_string())
    );
    assert!(slot.is_none());
    assert!(matches!(start(&mut slot, true), StartStep::Bind { abort: None, .. }));
}
