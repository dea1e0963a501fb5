//! The rules of the stdio bridge.
//!
//! The bridge passes messages between a client on stdio and the daemon.
//! Every message passes unchanged, with one exception: a call of the tool
//! `start` that names no working directory is given the client's.

use crate::json::{find_member, Json, JsonValue, lemma_object_view, lookup, member, members_view};
use crate::keyed::{lemma_position, lemma_position_is, pair_keys, position};
use vstd::prelude::*;

verus! {

/// The message is a call of the tool `start` that names no working
/// directory: an object whose member `params` is an object, in which `name`
/// is the text `start` and `arguments` is an object without a member `cwd`.
pub open spec fn wants_cwd(msg: JsonValue) -> bool {
    &&& msg matches JsonValue::Object(top)
    &&& lookup(top, "params"@) matches Some(JsonValue::Object(params))
    &&& lookup(params, "name"@) == Some(JsonValue::Text("start"@))
    &&& lookup(params, "arguments"@) matches Some(JsonValue::Object(arguments))
    &&& lookup(arguments, "cwd"@) is None
}

/// The members of `members` with the value of the first member `key`
/// replaced by `value`.
pub open spec fn replaced(
    members: Seq<(Seq<char>, JsonValue)>,
    key: Seq<char>,
    value: JsonValue,
) -> Seq<(Seq<char>, JsonValue)> {
    members.update(position(pair_keys(members), key), (key, value))
}

/// A call of `start` with the member `cwd` added at the end of its
/// arguments.
pub open spec fn with_cwd(msg: JsonValue, cwd: Seq<char>) -> JsonValue {
    let top = msg->Object_0;
    let params = lookup(top, "params"@)->0->Object_0;
    let arguments = lookup(params, "arguments"@)->0->Object_0;
    let extended = JsonValue::Object(arguments.push(("cwd"@, JsonValue::Text(cwd))));
    JsonValue::Object(
        replaced(top, "params"@, JsonValue::Object(replaced(params, "arguments"@, extended))),
    )
}

/// The message that the bridge passes on for `msg`: the working directory
/// is added where it is known and the message wants it.
pub open spec fn injected(msg: JsonValue, cwd: Option<Seq<char>>) -> JsonValue {
    match cwd {
        Some(dir) => if wants_cwd(msg) {
            with_cwd(msg, dir)
        } else {
            msg
        },
        None => msg,
    }
}

/// The text of an optional string.
pub open spec fn text_of(text: Option<String>) -> Option<Seq<char>> {
    match text {
        Some(t) => Some(t@),
        None => None,
    }
}

/// Replacing the value of a member that is there keeps the keys, so every
/// member is still found where it was; the replaced one has the new value
/// and all others keep theirs.
pub proof fn lemma_replaced(
    members: Seq<(Seq<char>, JsonValue)>,
    key: Seq<char>,
    value: JsonValue,
)
    requires
        lookup(members, key) is Some,
    ensures
        replaced(members, key, value).len() == members.len(),
        pair_keys(replaced(members, key, value)) == pair_keys(members),
        lookup(replaced(members, key, value), key) == Some(value),
        forall|other: Seq<char>|
            other != key ==> lookup(replaced(members, key, value), other) == lookup(members, other),
{
    let after = replaced(members, key, value);
    lemma_position(pair_keys(members), key);
    assert(pair_keys(after) =~= pair_keys(members));
    assert forall|other: Seq<char>| other != key implies lookup(after, other) == lookup(
        members,
        other,
    ) by {
        lemma_position(pair_keys(members), other);
    }
}

/// A message that is given a working directory differs from the message
/// that came by that one member only. Its `params` differ only in
/// `arguments`, its `arguments` are those that came followed by `cwd`, and
/// every other member, at each of the three levels, is found with the value
/// it had.
pub proof fn lemma_injection_adds_only_cwd(msg: JsonValue, cwd: Seq<char>)
    requires
        wants_cwd(msg),
    ensures
        injected(msg, Some(cwd)) is Object,
        forall|key: Seq<char>|
            key != "params"@ ==> lookup(injected(msg, Some(cwd))->Object_0, key) == lookup(
                msg->Object_0,
                key,
            ),
        lookup(injected(msg, Some(cwd))->Object_0, "params"@) matches Some(
            JsonValue::Object(params),
        ) && (forall|key: Seq<char>|
            key != "arguments"@ ==> lookup(params, key) == lookup(
                lookup(msg->Object_0, "params"@)->0->Object_0,
                key,
            )) && (lookup(params, "arguments"@) matches Some(JsonValue::Object(arguments))
            && arguments == lookup(
            lookup(msg->Object_0, "params"@)->0->Object_0,
            "arguments"@,
        )->0->Object_0.push(("cwd"@, JsonValue::Text(cwd))) && lookup(arguments, "cwd"@) == Some(
            JsonValue::Text(cwd),
        ) && (forall|key: Seq<char>|
            key != "cwd"@ ==> lookup(arguments, key) == lookup(
                lookup(
                    lookup(msg->Object_0, "params"@)->0->Object_0,
                    "arguments"@,
                )->0->Object_0,
                key,
            ))),
{
    let top = msg->Object_0;
    let params = lookup(top, "params"@)->0->Object_0;
    let arguments = lookup(params, "arguments"@)->0->Object_0;
    let extended = arguments.push(("cwd"@, JsonValue::Text(cwd)));
    let new_params = replaced(params, "arguments"@, JsonValue::Object(extended));
    lemma_replaced(top, "params"@, JsonValue::Object(new_params));
    lemma_replaced(params, "arguments"@, JsonValue::Object(extended));
    lemma_pushed_member(arguments, "cwd"@, JsonValue::Text(cwd));
}

/// A member that is added at the end under a key that was not there is
/// found under that key, and every other key is found as before.
pub proof fn lemma_pushed_member(
    members: Seq<(Seq<char>, JsonValue)>,
    key: Seq<char>,
    value: JsonValue,
)
    requires
        lookup(members, key) is None,
    ensures
        lookup(members.push((key, value)), key) == Some(value),
        forall|other: Seq<char>|
            other != key ==> lookup(members.push((key, value)), other) == lookup(members, other),
{
    let after = members.push((key, value));
    let keys = pair_keys(members);
    assert(pair_keys(after) =~= keys.push(key));
    lemma_position(keys, key);
    assert forall|i: int| 0 <= i < keys.len() implies #[trigger] pair_keys(after)[i] != key by {
        assert(pair_keys(after)[i] == keys[i]);
        assert(keys.contains(keys[i]));
    }
    lemma_position_is(pair_keys(after), key, keys.len() as int);
    assert forall|other: Seq<char>| other != key implies lookup(after, other) == lookup(
        members,
        other,
    ) by {
        lemma_position(keys, other);
        lemma_position(pair_keys(after), other);
        let p = position(keys, other);
        let q = position(pair_keys(after), other);
        if p < keys.len() {
            assert(pair_keys(after)[p] == other);
            if q < p {
                assert(pair_keys(after)[q] == keys[q]);
            }
            if p < q {
            }
        } else {
            if q < after.len() {
                if q < keys.len() {
                    assert(pair_keys(after)[q] == keys[q]);
                    assert(keys.contains(other));
                }
            }
        }
    }
}

/// Where in a call of `start` without working directory the members
/// `params` and `arguments` stand.
fn start_call_path(msg: &Json) -> (path: Option<(usize, usize)>)
    ensures
        match path {
            Some((params_at, arguments_at)) => {
                &&& wants_cwd(msg@)
                &&& msg matches Json::Object(top)
                &&& params_at < top.len()
                &&& params_at == position(pair_keys(members_view(top@)), "params"@)
                &&& top[params_at as int].1 matches Json::Object(params)
                &&& arguments_at < params.len()
                &&& arguments_at == position(pair_keys(members_view(params@)), "arguments"@)
                &&& params[arguments_at as int].1 is Object
            },
            None => !wants_cwd(msg@),
        },
{
    let top = match msg.as_object() {
        Some(top) => top,
        None => {
            return None;
        },
    };
    let params_at = match find_member(top, "params") {
        Some(at) => at,
        None => {
            return None;
        },
    };
    let params = match top[params_at].1.as_object() {
        Some(params) => params,
        None => {
            return None;
        },
    };
    let name_at = match find_member(params, "name") {
        Some(at) => at,
        None => {
            return None;
        },
    };
    let is_start = match params[name_at].1.as_text() {
        Some(name) => {
            let wanted = "start".to_owned();
            *name == wanted
        },
        None => false,
    };
    if !is_start {
        return None;
    }
    let arguments_at = match find_member(params, "arguments") {
        Some(at) => at,
        None => {
            return None;
        },
    };
    let arguments = match params[arguments_at].1.as_object() {
        Some(arguments) => arguments,
        None => {
            return None;
        },
    };
    if find_member(arguments, "cwd").is_some() {
        return None;
    }
    Some((params_at, arguments_at))
}

/// The members of a document that is an object.
fn into_members(json: Json) -> (members: Vec<(String, Json)>)
    requires
        json is Object,
    ensures
        json == Json::Object(members),
{
    match json {
        Json::Object(members) => members,
        _ => Vec::new(),
    }
}

/// A list of members with the member at `at` given another value.
fn set_member(members: Vec<(String, Json)>, at: usize, value: Json) -> (out: Vec<(String, Json)>)
    requires
        at < members.len(),
    ensures
        members_view(out@) == members_view(members@).update(
            at as int,
            (members[at as int].0@, value@),
        ),
{
    let mut out = members;
    let pair = out.remove(at);
    out.insert(at, (pair.0, value));
    assert(members_view(out@) =~= members_view(members@).update(
        at as int,
        (members[at as int].0@, value@),
    ));
    out
}

/// The member at `at`, taken out of the list.
fn take_member(members: Vec<(String, Json)>, at: usize) -> (out: (Vec<(String, Json)>, Json))
    requires
        at < members.len(),
    ensures
        out.1 == members[at as int].1,
        out.0.len() == members.len(),
        forall|i: int| 0 <= i < members.len() && i != at ==> out.0[i] == members[i],
        out.0[at as int].0 == members[at as int].0,
{
    let mut rest = members;
    let pair = rest.remove(at);
    rest.insert(at, (pair.0, Json::Null));
    (rest, pair.1)
}

/// Adds the client's working directory to a call of the tool `start` that
/// names none. Every other message, and every message while the working
/// directory is not known, is returned as it came.
pub fn inject_cwd_if_start_tool(msg: Json, client_cwd: Option<String>) -> (out: Json)
    ensures
        out@ == injected(msg@, text_of(client_cwd)),
        (client_cwd is None || !wants_cwd(msg@)) ==> out == msg,
{
    let cwd = match client_cwd {
        Some(cwd) => cwd,
        None => {
            return msg;
        },
    };
    let (params_at, arguments_at) = match start_call_path(&msg) {
        Some(path) => path,
        None => {
            return msg;
        },
    };
    let top = into_members(msg);
    let ghost top_members = members_view(top@);
    proof {
        lemma_object_view(top);
        lemma_position(pair_keys(top_members), "params"@);
    }
    let (top, params_value) = take_member(top, params_at);
    let params = into_members(params_value);
    let ghost params_members = members_view(params@);
    proof {
        lemma_object_view(params);
        lemma_position(pair_keys(params_members), "arguments"@);
        assert(lookup(top_members, "params"@) == Some(JsonValue::Object(params_members)));
    }
    let (params, arguments_value) = take_member(params, arguments_at);
    let mut arguments = into_members(arguments_value);
    let ghost arguments_members = members_view(arguments@);
    proof {
        lemma_object_view(arguments);
        assert(lookup(params_members, "arguments"@) == Some(JsonValue::Object(arguments_members)));
    }
    arguments.push(member("cwd", Json::Text(cwd)));
    let ghost extended = JsonValue::Object(
        arguments_members.push(("cwd"@, JsonValue::Text(cwd@))),
    );
    assert(members_view(arguments@) =~= arguments_members.push(("cwd"@, JsonValue::Text(cwd@))));
    let new_arguments = Json::object(arguments);
    assert(new_arguments@ == extended);
    let params = set_member(params, arguments_at, new_arguments);
    assert(members_view(params@) =~= replaced(params_members, "arguments"@, extended));
    let new_params = Json::object(params);
    let top = set_member(top, params_at, new_params);
    assert(members_view(top@) =~= replaced(top_members, "params"@, new_params@));
    Json::object(top)
}

/// What one of the two loops of the bridge has just seen. `R` is the kind
/// of message that the loop's own transport delivers, `Q` the kind that
/// the queue from the other loop delivers.
#[derive(Debug)]
pub enum BridgeEvent<R, Q> {
    /// The loop's own transport delivered a message, or `None` at its end.
    Received(Option<R>),
    /// The queue from the other loop delivered a message.
    Queued(Q),
    /// A message was sent on the loop's own transport, or could not be.
    Sent(bool),
}

/// What a loop of the bridge does next.
#[derive(Debug)]
pub enum BridgeAction<R, Q> {
    /// Put the message into the queue to the other loop.
    Enqueue(R),
    /// Send the message on the loop's own transport.
    Send(Q),
    /// Wait for the next event.
    Continue,
    /// Leave the loop, which shuts the bridge down.
    Exit,
}

/// What a loop that looks into no message does on `event`: a message that
/// was received goes into the queue and a message from the queue is sent,
/// each as it is; the end of the transport and a failure to send end the
/// loop.
pub open spec fn relayed<R, Q>(event: BridgeEvent<R, Q>) -> BridgeAction<R, Q> {
    match event {
        BridgeEvent::Received(Some(msg)) => BridgeAction::Enqueue(msg),
        BridgeEvent::Received(None) => BridgeAction::Exit,
        BridgeEvent::Queued(msg) => BridgeAction::Send(msg),
        BridgeEvent::Sent(done) => if done {
            BridgeAction::Continue
        } else {
            BridgeAction::Exit
        },
    }
}

/// What the loop on the client's side does on `event`: as `relayed`, but
/// that a message that was received is first given the working directory
/// `cwd` where it wants one.
pub open spec fn bridge_step<Q>(
    event: BridgeEvent<Json, Q>,
    cwd: Option<Seq<char>>,
    action: BridgeAction<Json, Q>,
) -> bool {
    match event {
        BridgeEvent::Received(Some(msg)) => action matches BridgeAction::Enqueue(out) && out@
            == injected(msg@, cwd),
        _ => action == relayed(event),
    }
}

/// One step of the loop on the client's side. A message from the client is
/// given the working directory where it wants one, and goes into the queue
/// to the daemon; the end of the client's messages ends the loop. A message
/// from the daemon's queue is sent to the client as it is; a failure to
/// send ends the loop.
pub fn stdio_loop_step<Q>(event: BridgeEvent<Json, Q>, client_cwd: &Option<String>) -> (action:
    BridgeAction<Json, Q>)
    ensures
        bridge_step(event, text_of(*client_cwd), action),
        event matches BridgeEvent::Received(Some(msg)) ==> (*client_cwd is None || !wants_cwd(msg@)
            ==> action == relayed(event)),
{
    match event {
        BridgeEvent::Received(Some(msg)) => {
            let cwd = match client_cwd {
                Some(dir) => Some(dir.clone()),
                None => None,
            };
            BridgeAction::Enqueue(inject_cwd_if_start_tool(msg, cwd))
        },
        BridgeEvent::Received(None) => BridgeAction::Exit,
        BridgeEvent::Queued(msg) => BridgeAction::Send(msg),
        BridgeEvent::Sent(done) => if done {
            BridgeAction::Continue
        } else {
            BridgeAction::Exit
        },
    }
}

/// One step of the loop on the daemon's side. A message from the daemon
/// goes into the queue to the client as it is; the end of the daemon's
/// messages ends the loop. A message from the client's queue is sent to the
/// daemon as it is; a failure to send ends the loop.
pub fn sse_loop_step<R, Q>(event: BridgeEvent<R, Q>) -> (action: BridgeAction<R, Q>)
    ensures
        action == relayed(event),
{
    match event {
        BridgeEvent::Received(Some(msg)) => BridgeAction::Enqueue(msg),
        BridgeEvent::Received(None) => BridgeAction::Exit,
        BridgeEvent::Queued(msg) => BridgeAction::Send(msg),
        BridgeEvent::Sent(done) => if done {
            BridgeAction::Continue
        } else {
            BridgeAction::Exit
        },
    }
}

/// The messages that the transport delivered in the course of `events`,
/// in the order in which they came.
pub open spec fn arrived<R, Q>(events: Seq<BridgeEvent<R, Q>>) -> Seq<R>
    decreases events.len(),
{
    if events.len() == 0 {
        Seq::empty()
    } else {
        match events.last() {
            BridgeEvent::Received(Some(msg)) => arrived(events.drop_last()).push(msg),
            _ => arrived(events.drop_last()),
        }
    }
}

/// The messages that the queue delivered in the course of `events`, in the
/// order in which they came.
pub open spec fn dequeued<R, Q>(events: Seq<BridgeEvent<R, Q>>) -> Seq<Q>
    decreases events.len(),
{
    if events.len() == 0 {
        Seq::empty()
    } else {
        match events.last() {
            BridgeEvent::Queued(msg) => dequeued(events.drop_last()).push(msg),
            _ => dequeued(events.drop_last()),
        }
    }
}

/// The messages that `actions` put into the queue, in their order.
pub open spec fn enqueued<R, Q>(actions: Seq<BridgeAction<R, Q>>) -> Seq<R>
    decreases actions.len(),
{
    if actions.len() == 0 {
        Seq::empty()
    } else {
        match actions.last() {
            BridgeAction::Enqueue(msg) => enqueued(actions.drop_last()).push(msg),
            _ => enqueued(actions.drop_last()),
        }
    }
}

/// The messages that `actions` sent on the transport, in their order.
pub open spec fn sent<R, Q>(actions: Seq<BridgeAction<R, Q>>) -> Seq<Q>
    decreases actions.len(),
{
    if actions.len() == 0 {
        Seq::empty()
    } else {
        match actions.last() {
            BridgeAction::Send(msg) => sent(actions.drop_last()).push(msg),
            _ => sent(actions.drop_last()),
        }
    }
}

/// Over a whole run, the loop on the daemon's side skips, doubles and
/// reorders nothing: if each action is the step's answer to the event at
/// its place, then what went into the queue is what the transport
/// delivered, and what was sent is what the queue delivered, message by
/// message and in the same order.
pub proof fn lemma_relay_keeps_order<R, Q>(
    events: Seq<BridgeEvent<R, Q>>,
    actions: Seq<BridgeAction<R, Q>>,
)
    requires
        actions.len() == events.len(),
        forall|i: int| 0 <= i < events.len() ==> #[trigger] actions[i] == relayed(events[i]),
    ensures
        enqueued(actions) == arrived(events),
        sent(actions) == dequeued(events),
    decreases events.len(),
{
    if events.len() > 0 {
        let earlier = events.drop_last();
        let answers = actions.drop_last();
        assert forall|i: int| 0 <= i < earlier.len() implies #[trigger] answers[i] == relayed(
            earlier[i],
        ) by {
            assert(answers[i] == actions[i]);
        }
        lemma_relay_keeps_order(earlier, answers);
        assert(actions.last() == relayed(events.last()));
    }
}

/// Over a whole run, the loop on the client's side skips, doubles and
/// reorders nothing either. What was sent to the client is what the queue
/// delivered, message by message. What went into the queue to the daemon
/// has one message for each that the client sent, in the same order, and
/// each is the client's message with the working directory added where
/// it wants one.
pub proof fn lemma_bridge_keeps_order<Q>(
    events: Seq<BridgeEvent<Json, Q>>,
    actions: Seq<BridgeAction<Json, Q>>,
    cwd: Option<Seq<char>>,
)
    requires
        actions.len() == events.len(),
        forall|i: int| 0 <= i < events.len() ==> bridge_step(events[i], cwd, #[trigger] actions[i]),
    ensures
        sent(actions) == dequeued(events),
        enqueued(actions).len() == arrived(events).len(),
        forall|i: int|
            0 <= i < arrived(events).len() ==> (#[trigger] enqueued(actions)[i])@ == injected(
                arrived(events)[i]@,
                cwd,
            ),
    decreases events.len(),
{
    if events.len() > 0 {
        let earlier = events.drop_last();
        let answers = actions.drop_last();
        assert forall|i: int| 0 <= i < earlier.len() implies bridge_step(
            earlier[i],
            cwd,
            #[trigger] answers[i],
        ) by {
            assert(answers[i] == actions[i]);
            assert(bridge_step(events[i], cwd, actions[i]));
        }
        lemma_bridge_keeps_order(earlier, answers, cwd);
        assert(bridge_step(events.last(), cwd, actions.last()));
    }
}

} // verus!
