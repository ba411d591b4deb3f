//! The local HTTP API: which server runs, and what the plain routes answer.
//!
//! | Method | Path           | Body |
//! |--------|----------------|------|
//! | GET    | `/`            | `Hello SwitchHosts!` |
//! | GET    | `/remote-test` | `# remote-test\n# <timestamp>` |
//! | GET    | `/api/list`    | `{success, data: flat_list}` JSON |
//! | GET    | `/api/toggle?id=<id>` | see [`crate::toggle`] |

use core::fmt::Write;

use chrono::{FixedOffset, TimeZone};
use vstd::prelude::*;

use crate::json::Json;
use crate::manifest::Manifest;
use crate::terms::{answers_failure, answers_list, lists};
use crate::tree::{flatten, flatten_root};
use crate::tree_promises::law_flat_list_holds_every_node;
use crate::value::{forest, lemma_array_view, Value};

verus! {

pub const HTTP_API_PORT: u16 = 50761;

// ---- the server -------------------------------------------------------------

/// A server that runs: its task, and whether it listens to this machine only.
#[derive(Debug)]
pub struct ServerHandle<T> {
    pub task: T,
    pub only_local: bool,
}

/// What a call to start the server asks for.
#[derive(Debug)]
pub enum StartStep<T> {
    /// The server that was asked for runs already.
    AlreadyRunning,
    /// Abort the server that runs, if any, bind to the address, and report what
    /// came of it with [`started`].
    Bind { abort: Option<T>, ip: [u8; 4], port: u16 },
}

/// Why no server listens: the step that failed, and the cause.
#[derive(Debug)]
pub enum ListenError {
    /// The address could not be bound to.
    Bind(String),
    /// The listener could not be made non-blocking.
    SetNonblocking(String),
}

/// The address that a server binds to: the loopback address if it is to listen
/// to this machine only, and otherwise the address that stands for all.
pub open spec fn bind_ip(only_local: bool) -> Seq<u8> {
    if only_local {
        seq![127u8, 0u8, 0u8, 1u8]
    } else {
        seq![0u8, 0u8, 0u8, 0u8]
    }
}

/// The address that a server binds to, in words.
pub open spec fn bind_address(only_local: bool) -> Seq<char> {
    if only_local {
        "127.0.0.1:50761"@
    } else {
        "0.0.0.0:50761"@
    }
}

/// What a start that failed answers: the step, the address and the cause.
pub open spec fn listen_failure(error: ListenError, only_local: bool) -> Seq<char> {
    match error {
        ListenError::Bind(cause) => "bind "@ + bind_address(only_local) + ": "@ + cause@,
        ListenError::SetNonblocking(cause) => "set_nonblocking "@ + bind_address(only_local)
            + ": "@ + cause@,
    }
}

/// Whether the server that was asked for runs already.
pub open spec fn runs<T>(slot: Option<ServerHandle<T>>, only_local: bool) -> bool {
    slot is Some && slot->0.only_local == only_local
}

/// The task of the server that runs, if one does.
pub open spec fn running_task<T>(slot: Option<ServerHandle<T>>) -> Option<T> {
    match slot {
        Some(handle) => Some(handle.task),
        None => None,
    }
}

/// The slot once a call to start the server has decided what to do.
pub open spec fn slot_after_start<T>(
    slot: Option<ServerHandle<T>>,
    only_local: bool,
) -> Option<ServerHandle<T>> {
    if runs(slot, only_local) {
        slot
    } else {
        None
    }
}

/// Start the HTTP server. Idempotent: a second call with the same
/// `only_local` value is a no-op; with a different value the existing
/// server is stopped and a new one is to be bound. Until it is, no server
/// runs, so that a failure to bind leaves none behind.
pub fn start<T>(slot: &mut Option<ServerHandle<T>>, only_local: bool) -> (step: StartStep<T>)
    ensures
        *final(slot) == slot_after_start(*old(slot), only_local),
        match step {
            StartStep::AlreadyRunning => runs(*old(slot), only_local),
            StartStep::Bind { abort, ip, port } => {
                &&& !runs(*old(slot), only_local)
                &&& abort == running_task(*old(slot))
                &&& ip@ == bind_ip(only_local)
                &&& port == HTTP_API_PORT
            },
        },
{
    match slot {
        Some(existing) => {
            if existing.only_local == only_local {
                return StartStep::AlreadyRunning;
            }
        },
        None => {},
    }
    let abort: Option<T> = stop(slot);
    let ip: [u8; 4] = if only_local {
        [127, 0, 0, 1]
    } else {
        [0, 0, 0, 0]
    };
    assert(ip@ =~= bind_ip(only_local));
    StartStep::Bind { abort, ip, port: HTTP_API_PORT }
}

/// The slot once the outcome of binding is known.
pub open spec fn slot_after_listening<T>(
    slot: Option<ServerHandle<T>>,
    outcome: Result<T, ListenError>,
    only_local: bool,
) -> Option<ServerHandle<T>> {
    match outcome {
        Ok(task) => Some(ServerHandle { task, only_local }),
        Err(_) => slot,
    }
}

/// The address that a server binds to, in words.
pub fn address(only_local: bool) -> (text: &'static str)
    ensures
        text@ == bind_address(only_local),
{
    if only_local {
        "127.0.0.1:50761"
    } else {
        "0.0.0.0:50761"
    }
}

/// A step of starting the server that failed, in words.
fn step_failure(step: &str, only_local: bool, cause: &str) -> (message: String)
    ensures
        message@ == step@ + bind_address(only_local) + ": "@ + cause@,
{
    let mut message = step.to_owned();
    message.append(address(only_local));
    message.append(": ");
    message.append(cause);
    message
}

/// What `start` answers where the address could not be bound to.
pub fn bind_failure(only_local: bool, cause: &str) -> (message: String)
    ensures
        message@ == "bind "@ + bind_address(only_local) + ": "@ + cause@,
{
    step_failure("bind ", only_local, cause)
}

/// What `start` answers where the listener could not be made non-blocking.
pub fn set_nonblocking_failure(only_local: bool, cause: &str) -> (message: String)
    ensures
        message@ == "set_nonblocking "@ + bind_address(only_local) + ": "@ + cause@,
{
    step_failure("set_nonblocking ", only_local, cause)
}

/// Ends a start that had to bind. A server that listens is noted with its
/// task. Otherwise nothing is noted, and the answer says which step failed at
/// which address and why.
pub fn started<T>(
    slot: &mut Option<ServerHandle<T>>,
    outcome: Result<T, ListenError>,
    only_local: bool,
) -> (answer: Result<(), String>)
    ensures
        *final(slot) == slot_after_listening(*old(slot), outcome, only_local),
        match (outcome, answer) {
            (Ok(_), Ok(_)) => true,
            (Err(error), Err(message)) => message@ == listen_failure(error, only_local),
            _ => false,
        },
        match (outcome, answer) {
            (Err(ListenError::Bind(cause)), Err(message)) => message@ == "bind "@ + bind_address(
                only_local,
            ) + ": "@ + cause@,
            (Err(ListenError::SetNonblocking(cause)), Err(message)) => message@
                == "set_nonblocking "@ + bind_address(only_local) + ": "@ + cause@,
            _ => true,
        },
{
    match outcome {
        Ok(task) => {
            *slot = Some(ServerHandle { task, only_local });
            Ok(())
        },
        Err(ListenError::Bind(cause)) => Err(bind_failure(only_local, cause.as_str())),
        Err(ListenError::SetNonblocking(cause)) => Err(
            set_nonblocking_failure(only_local, cause.as_str()),
        ),
    }
}

/// Stop the HTTP server if it's running: the task to abort, if there is one.
pub fn stop<T>(slot: &mut Option<ServerHandle<T>>) -> (task: Option<T>)
    ensures
        task == running_task(*old(slot)),
        *final(slot) is None,
{
    match slot.take() {
        Some(handle) => Some(handle.task),
        None => None,
    }
}

/// A server that was started is left alone by another start with the same
/// value, and a start with the other value puts it out of the slot.
pub proof fn law_start_is_idempotent<T>(task: T, only_local: bool)
    ensures
        runs(Some(ServerHandle { task, only_local }), only_local),
        slot_after_start(Some(ServerHandle { task, only_local }), only_local) == Some(
            ServerHandle { task, only_local },
        ),
        !runs(Some(ServerHandle { task, only_local }), !only_local),
        slot_after_start(Some(ServerHandle { task, only_local }), !only_local) is None,
        running_task(Some(ServerHandle { task, only_local })) == Some(task),
{
}

/// Starting the server leaves at most the server that was asked for in the
/// slot: one that is there afterwards was there before.
pub proof fn law_start_keeps_no_other_server<T>(slot: Option<ServerHandle<T>>, only_local: bool)
    ensures
        slot_after_start(slot, only_local) is Some ==> {
            &&& slot_after_start(slot, only_local) == slot
            &&& slot->0.only_local == only_local
        },
        slot_after_start(slot_after_start(slot, only_local), only_local) == slot_after_start(
            slot,
            only_local,
        ),
{
}

/// A start that has to bind and fails leaves no server in the slot, whatever
/// ran before; one that succeeds leaves the server that was asked for.
pub proof fn law_failed_start_leaves_no_server<T>(
    slot: Option<ServerHandle<T>>,
    outcome: Result<T, ListenError>,
    only_local: bool,
)
    requires
        !runs(slot, only_local),
    ensures
        ({
            let after = slot_after_listening(
                slot_after_start(slot, only_local),
                outcome,
                only_local,
            );
            match outcome {
                Ok(task) => runs(after, only_local) && running_task(after) == Some(task),
                Err(_) => after is None,
            }
        }),
{
}

/// Once the server has been stopped, the next start binds and aborts nothing.
pub proof fn law_start_after_stop<T>(only_local: bool)
    ensures
        !runs::<T>(None, only_local),
        running_task::<T>(None) is None,
{
}

// ---- the plain routes -------------------------------------------------------

pub fn home() -> (body: &'static str)
    ensures
        body@ == "Hello SwitchHosts!"@,
{
    "Hello SwitchHosts!"
}

/// How `/remote-test` writes the time.
pub const TIMESTAMP_FORMAT: &'static str = "%a %b %e %Y %H:%M:%S GMT%z";

/// The text that `chrono` gives for the second `secs` after the epoch, seen at
/// `offset` seconds east of UTC and written as `format` says; nothing if it
/// cannot hold that time.
pub uninterp spec fn formatted_time(secs: i64, offset: i32, format: Seq<char>) -> Option<Seq<char>>;

/// The times that `chrono` can hold whatever their offset, rounded to a number
/// that is easily read: about a quarter of a million years around the epoch.
pub open spec fn representable(secs: i64, offset: i32) -> bool {
    &&& -8_000_000_000_000 <= secs <= 8_000_000_000_000
    &&& -86_400 < offset < 86_400
}

/// Calls `chrono::DateTime::format` on the time that `TimeZone::timestamp_opt`
/// gives for `secs` in the zone that `FixedOffset::east_opt` gives for `offset`.
/// The claim: what is written depends on the time, the offset and the format
/// alone, and is not empty; the zone exists for an offset of less than a day
/// and the time for every second that `chrono` can represent. The format is
/// held to [`TIMESTAMP_FORMAT`], which is valid: an invalid one would fail in
/// the writing.
#[verifier::external_body]
fn format_time(secs: i64, offset: i32, format: &str) -> (text: Option<String>)
    requires
        format@ == TIMESTAMP_FORMAT@,
    ensures
        match text {
            Some(s) => formatted_time(secs, offset, format@) == Some(s@) && s@.len() > 0,
            None => formatted_time(secs, offset, format@) is None,
        },
        representable(secs, offset) ==> text is Some,
{
    let zone = FixedOffset::east_opt(offset)?;
    let time = zone.timestamp_opt(secs, 0).single()?;
    let mut text = String::new();
    match write!(text, "{}", time.format(format)) {
        Ok(()) => Some(text),
        Err(_) => None,
    }
}

/// The body of `/remote-test` at a time that is written as `timestamp`.
pub fn remote_test_body(timestamp: &str) -> (body: String)
    ensures
        body@ == "# remote-test\n# "@ + timestamp@,
{
    let mut body = "# remote-test\n# ".to_owned();
    body.append(timestamp);
    body
}

/// The body of `/remote-test` at the second `secs` after the epoch, where the
/// clocks are `offset` seconds ahead of UTC; nothing for a time that cannot be
/// written.
pub fn remote_test(secs: i64, offset: i32) -> (body: Option<String>)
    ensures
        match body {
            Some(text) => {
                let timestamp = formatted_time(secs, offset, TIMESTAMP_FORMAT@);
                &&& timestamp is Some
                &&& timestamp->0.len() > 0
                &&& text@ == "# remote-test\n# "@ + timestamp->0
            },
            None => formatted_time(secs, offset, TIMESTAMP_FORMAT@) is None,
        },
        representable(secs, offset) ==> body is Some,
{
    match format_time(secs, offset, TIMESTAMP_FORMAT) {
        Some(timestamp) => Some(remote_test_body(timestamp.as_str())),
        None => None,
    }
}

/// What `/api/list` answers with the nodes of a tree.
pub open spec fn list_reply(root: Seq<Json>) -> Json {
    Json::Object(
        map![
            "success"@ => Json::Bool(true),
            "data"@ => Json::Array(flatten(root)),
        ],
    )
}

/// What `/api/list` answers where the manifest could not be loaded.
pub open spec fn list_failure(message: Seq<char>) -> Json {
    Json::Object(
        map![
            "success"@ => Json::Bool(false),
            "message"@ => Json::String(message),
        ],
    )
}

/// The answer has a `data` member that holds every node of the forest, of
/// whatever type, once and depth first, next to the word of success.
pub proof fn law_list_answer_holds_every_node(nodes: Seq<Json>)
    ensures
        answers_list(nodes, list_reply(nodes)),
{
    law_flat_list_holds_every_node(nodes);
    reveal_strlit("success");
    reveal_strlit("data");
    assert("success"@.len() != "data"@.len());
    assert(lists(nodes, flatten(nodes)));
}

/// Where the manifest could not be loaded, the answer carries the reason as it
/// is, next to the word of failure.
pub proof fn law_failure_answer_says_why(message: Seq<char>)
    ensures
        answers_failure(message, list_failure(message)),
{
    reveal_strlit("success");
    reveal_strlit("message");
    assert("success"@[0] == 's');
    assert("message"@[0] == 'm');
}

/// What `/api/list` answers: all nodes of the tree as one flat list, or why
/// the manifest could not be loaded.
pub fn api_list(loaded: Result<Manifest, String>) -> (reply: Value)
    ensures
        reply@ == (match loaded {
            Ok(manifest) => list_reply(manifest@.root),
            Err(message) => list_failure(message@),
        }),
        match loaded {
            Ok(manifest) => answers_list(forest(manifest.root@), reply@),
            Err(message) => answers_failure(message@, reply@),
        },
{
    broadcast use lemma_array_view;


    let mut reply = Value::object();
    match loaded {
        Ok(manifest) => {
            proof {
                law_list_answer_holds_every_node(forest(manifest.root@));
            }
            let flat = flatten_root(manifest.root.as_slice());
            reply.insert("success", Value::Bool(true));
            reply.insert("data", Value::Array(flat));
            assert(reply@->Object_0 =~= list_reply(manifest@.root)->Object_0);
        },
        Err(message) => {
            let ghost text = message@;
            proof {
                law_failure_answer_says_why(text);
            }
            reply.insert("success", Value::Bool(false));
            reply.insert("message", Value::String(message));
            assert(reply@->Object_0 =~= list_failure(text)->Object_0);
        },
    }
    reply
}

} // verus!
