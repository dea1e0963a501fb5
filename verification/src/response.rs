//! The JSON documents that the tool operations answer with.
//!
//! A failure is always an object with the single member `error`, whose
//! text starts with the kind of the failure.

use crate::json::{Json, JsonValue, member, members_view, Number};
use vstd::prelude::*;

verus! {

/// The answer that reports a failure with the given text.
pub open spec fn error_value(message: Seq<char>) -> JsonValue {
    JsonValue::Object(seq![("error"@, JsonValue::Text(message))])
}

/// The text of a failure to take the manager's lock.
pub open spec fn lock_message(reason: Seq<char>) -> Seq<char> {
    "Lock error: "@ + reason
}

/// The text of a failure to allocate a port.
pub open spec fn port_message(reason: Seq<char>) -> Seq<char> {
    "Port allocation failed: "@ + reason
}

/// The text of a failure to find an unused session key.
pub open spec fn key_message() -> Seq<char> {
    "Session key allocation failed: no unused key found"@
}

/// The text that turns down a working directory.
pub open spec fn cwd_message(path: Seq<char>) -> Seq<char> {
    "Invalid cwd: "@ + path
}

/// The text of a failure to start the process.
pub open spec fn spawn_message(reason: Seq<char>) -> Seq<char> {
    "Failed to spawn process: "@ + reason
}

/// The text that answers an unknown session key.
pub open spec fn missing_message() -> Seq<char> {
    "Session not found"@
}

/// The text of a failure to stop a process.
pub open spec fn stop_message(reason: Seq<char>) -> Seq<char> {
    "Failed to stop server: "@ + reason
}

/// The answer to a start that succeeded.
pub open spec fn started_value(port: u16, session_key: Seq<char>) -> JsonValue {
    JsonValue::Object(
        seq![
            ("status"@, JsonValue::Text("started"@)),
            ("port"@, JsonValue::Number(Number::PosInt(port as u64))),
            ("session_key"@, JsonValue::Text(session_key)),
        ],
    )
}

/// The answer to a stop that succeeded.
pub open spec fn stopped_value(session_key: Seq<char>) -> JsonValue {
    JsonValue::Object(
        seq![
            ("status"@, JsonValue::Text("stopped"@)),
            ("session_key"@, JsonValue::Text(session_key)),
        ],
    )
}

/// The status of one session. The port is left out once it is released.
pub open spec fn session_value(session_key: Seq<char>, running: bool, port: u16) -> JsonValue {
    if port != 0 {
        JsonValue::Object(
            seq![
                ("session_key"@, JsonValue::Text(session_key)),
                ("running"@, JsonValue::Bool(running)),
                ("port"@, JsonValue::Number(Number::PosInt(port as u64))),
            ],
        )
    } else {
        JsonValue::Object(
            seq![
                ("session_key"@, JsonValue::Text(session_key)),
                ("running"@, JsonValue::Bool(running)),
            ],
        )
    }
}

/// The status of all sessions.
pub open spec fn sessions_value(sessions: Seq<JsonValue>) -> JsonValue {
    JsonValue::Object(seq![("sessions"@, JsonValue::List(sessions))])
}

/// The captured output of one session.
pub open spec fn tail_value(session_key: Seq<char>, stdout: Seq<char>, stderr: Seq<char>) -> JsonValue {
    JsonValue::Object(
        seq![
            ("session_key"@, JsonValue::Text(session_key)),
            ("stdout"@, JsonValue::Text(stdout)),
            ("stderr"@, JsonValue::Text(stderr)),
        ],
    )
}

/// `prefix` followed by `detail`.
pub fn prefixed(prefix: &str, detail: &str) -> (text: String)
    ensures
        text@ == prefix@ + detail@,
{
    let mut text = prefix.to_owned();
    text.append(detail);
    text
}

/// The answer that reports a failure with the given text.
pub fn error_json(message: String) -> (json: Json)
    ensures
        json@ == error_value(message@),
{
    let mut members: Vec<(String, Json)> = Vec::new();
    members.push(member("error", Json::Text(message)));
    assert(members_view(members@) =~= seq![("error"@, JsonValue::Text(message@))]);
    Json::object(members)
}

/// The answer to a call that could not take the manager's lock.
pub fn lock_error(reason: &str) -> (json: Json)
    ensures
        json@ == error_value(lock_message(reason@)),
{
    error_json(prefixed("Lock error: ", reason))
}

/// The answer to a start for which no port could be allocated.
pub fn port_error(reason: &str) -> (json: Json)
    ensures
        json@ == error_value(port_message(reason@)),
{
    error_json(prefixed("Port allocation failed: ", reason))
}

/// The answer to a start for which no unused session key was found.
pub fn key_error() -> (json: Json)
    ensures
        json@ == error_value(key_message()),
{
    error_json("Session key allocation failed: no unused key found".to_owned())
}

/// The answer to a start whose working directory is no directory.
pub fn cwd_error(path: &str) -> (json: Json)
    ensures
        json@ == error_value(cwd_message(path@)),
{
    error_json(prefixed("Invalid cwd: ", path))
}

/// The answer to a start whose process could not be started.
pub fn spawn_error(reason: &str) -> (json: Json)
    ensures
        json@ == error_value(spawn_message(reason@)),
{
    error_json(prefixed("Failed to spawn process: ", reason))
}

/// The answer to a call that names an unknown session.
pub fn missing_error() -> (json: Json)
    ensures
        json@ == error_value(missing_message()),
{
    error_json("Session not found".to_owned())
}

/// The answer to a stop that failed.
pub fn stop_error(reason: &str) -> (json: Json)
    ensures
        json@ == error_value(stop_message(reason@)),
{
    error_json(prefixed("Failed to stop server: ", reason))
}

/// The answer to a start that succeeded.
pub fn started_json(port: u16, session_key: &str) -> (json: Json)
    ensures
        json@ == started_value(port, session_key@),
{
    let mut members: Vec<(String, Json)> = Vec::new();
    members.push(member("status", Json::text("started")));
    members.push(member("port", Json::unsigned(port as u64)));
    members.push(member("session_key", Json::text(session_key)));
    assert(members_view(members@) =~= started_value(port, session_key@)->Object_0);
    Json::object(members)
}

/// The answer to a stop that succeeded.
pub fn stopped_json(session_key: &str) -> (json: Json)
    ensures
        json@ == stopped_value(session_key@),
{
    let mut members: Vec<(String, Json)> = Vec::new();
    members.push(member("status", Json::text("stopped")));
    members.push(member("session_key", Json::text(session_key)));
    assert(members_view(members@) =~= stopped_value(session_key@)->Object_0);
    Json::object(members)
}

/// The status of one session.
pub fn session_json(session_key: &str, running: bool, port: u16) -> (json: Json)
    ensures
        json@ == session_value(session_key@, running, port),
{
    let mut members: Vec<(String, Json)> = Vec::new();
    members.push(member("session_key", Json::text(session_key)));
    members.push(member("running", Json::Bool(running)));
    if port != 0 {
        members.push(member("port", Json::unsigned(port as u64)));
    }
    assert(members_view(members@) =~= session_value(session_key@, running, port)->Object_0);
    Json::object(members)
}

/// The status of all sessions.
pub fn sessions_json(sessions: Vec<Json>) -> (json: Json)
    ensures
        json@ == sessions_value(crate::json::items_view(sessions@)),
{
    let list = Json::list(sessions);
    let mut members: Vec<(String, Json)> = Vec::new();
    members.push(member("sessions", list));
    assert(members_view(members@) =~= seq![("sessions"@, list@)]);
    Json::object(members)
}

/// The captured output of one session.
pub fn tail_json(session_key: &str, stdout: String, stderr: String) -> (json: Json)
    ensures
        json@ == tail_value(session_key@, stdout@, stderr@),
{
    let mut members: Vec<(String, Json)> = Vec::new();
    members.push(member("session_key", Json::text(session_key)));
    members.push(member("stdout", Json::Text(stdout)));
    members.push(member("stderr", Json::Text(stderr)));
    assert(members_view(members@) =~= tail_value(session_key@, stdout@, stderr@)->Object_0);
    Json::object(members)
}

} // verus!
