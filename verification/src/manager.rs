//! The session manager: the table of sessions, the port allocator and the
//! rules that tie them together.
//!
//! Starting and stopping a process take time and happen outside. Each of
//! the two operations therefore comes in two steps. The first step decides
//! what has to be done and hands out a ticket; the embedding program does
//! it; the second step takes the ticket back with the outcome.

use crate::consistency::{
    lemma_allocation_consistent, lemma_pruned_consistent, lemma_refusal_consistent,
    lemma_release_consistent, lemma_returned_consistent, lemma_started_consistent,
    lemma_swept_consistent, lemma_touched_all_consistent, lemma_touched_consistent,
    lemma_without_consistent,
};
use crate::json::{items_view, Json, JsonValue};
use crate::keyed::{find_key, lemma_position, lemma_position_is, owned_keys, pair_keys, position};
use crate::log_buffer::LogBuffer;
use crate::port_allocator::{
    allocated, lemma_allocated_is_step, overflow_message, PORT_START, PortAllocator,
    PortAllocatorView, refused,
};
use crate::response::{
    cwd_error, cwd_message, error_value, key_error, key_message, missing_error, missing_message,
    port_error, port_message, session_json, session_value, sessions_json, sessions_value,
    spawn_error, spawn_message, started_json, started_value, stop_error, stop_message,
    stopped_json, stopped_value, tail_json, tail_value,
};
use crate::server_entry::{EntryView, log_text, ProcessState, ServerEntry, StopOutcome};
use crate::session_key::{
    CHARSET_LENGTH, generate_session_key, is_session_key, key_of, lemma_session_key_indices,
    session_key_from_indices,
};
use vstd::prelude::*;

verus! {

/// A running session is stopped once no client has touched it for longer
/// than this, in milliseconds.
pub const IDLE_MS: u64 = 60000;

/// An exited session is forgotten once it has been exited for longer than
/// this, in milliseconds.
pub const RETENTION_MS: u64 = 600000;

/// The time between two sweeps, in milliseconds.
pub const SWEEP_INTERVAL_MS: u64 = 5000;

/// How many random session keys are tried before the unused keys are
/// looked through in order.
pub const KEY_ATTEMPTS: u32 = 1000;

/// The manager as a mathematical value.
pub struct ManagerView {
    /// The sessions with their keys, in the order of the table.
    pub sessions: Seq<(Seq<char>, EntryView)>,
    /// The port allocator.
    pub ports: PortAllocatorView,
}

impl ManagerView {
    /// The keys of the sessions, in the order of the table.
    pub open spec fn keys(self) -> Seq<Seq<char>> {
        pair_keys(self.sessions)
    }

    /// No key occurs twice, and the allocator is well formed.
    pub open spec fn wf(self) -> bool {
        &&& self.keys().no_duplicates()
        &&& self.ports.wf()
    }

    /// The index of the session with the given key; the number of sessions
    /// if there is none.
    pub open spec fn find(self, key: Seq<char>) -> int {
        position(self.keys(), key)
    }

    /// There is a session with the given key.
    pub open spec fn contains(self, key: Seq<char>) -> bool {
        self.find(key) < self.sessions.len()
    }

    /// The record of the session with the given key.
    pub open spec fn entry(self, key: Seq<char>) -> EntryView {
        self.sessions[self.find(key)].1
    }

    /// The manager without the session of the given key.
    pub open spec fn without(self, key: Seq<char>) -> ManagerView {
        if self.contains(key) {
            ManagerView { sessions: self.sessions.remove(self.find(key)), ..self }
        } else {
            self
        }
    }

    /// The manager with `entry` as the record of the session `key`: in the
    /// place of the record that was there, or else at the end of the table.
    pub open spec fn with(self, key: Seq<char>, entry: EntryView) -> ManagerView {
        if self.contains(key) {
            ManagerView { sessions: self.sessions.update(self.find(key), (key, entry)), ..self }
        } else {
            ManagerView { sessions: self.sessions.push((key, entry)), ..self }
        }
    }

    /// The manager after `port` has been given back to the allocator.
    pub open spec fn release(self, port: u16) -> ManagerView {
        ManagerView { ports: self.ports.released(port), ..self }
    }

    /// The manager with another state of the allocator.
    pub open spec fn with_ports(self, ports: PortAllocatorView) -> ManagerView {
        ManagerView { ports, ..self }
    }

    /// The manager after the record `entry`, which was out of the table
    /// for a stop that came to `outcome`, has returned under `key`. If the
    /// process is gone, or the record was not running, the record gives up
    /// its port, the port goes back to the allocator and the record
    /// returns exited. If the stop failed the record returns as it left,
    /// running and with its port.
    pub open spec fn returned(
        self,
        key: Seq<char>,
        entry: EntryView,
        outcome: StopOutcome,
        now: u64,
    ) -> ManagerView {
        if entry.stop_result(outcome) is None {
            self.release(entry.port).with(key, entry.stopped(outcome, now).without_port())
        } else {
            self.with(key, entry)
        }
    }
}

/// The sessions of a table as mathematical values.
pub open spec fn session_views(servers: Seq<(String, ServerEntry)>) -> Seq<(Seq<char>, EntryView)> {
    Seq::new(servers.len(), |i: int| (servers[i].0@, servers[i].1@))
}

/// Removing a session keeps the table well formed, and the session is gone.
pub proof fn lemma_without(manager: ManagerView, key: Seq<char>)
    requires
        manager.wf(),
    ensures
        manager.without(key).wf(),
        !manager.without(key).contains(key),
        forall|other: Seq<char>|
            other != key ==> manager.without(key).contains(other) == manager.contains(other),
        forall|other: Seq<char>|
            other != key && manager.contains(other) ==> manager.without(key).entry(other)
                == manager.entry(other),
{
    let keys = manager.keys();
    let after = manager.without(key);
    lemma_position(keys, key);
    if manager.contains(key) {
        let at = manager.find(key);
        assert(after.keys() =~= keys.remove(at));
        assert forall|i: int, j: int|
            0 <= i < after.keys().len() && 0 <= j < after.keys().len() && i != j implies after.keys()[i]
            != after.keys()[j] by {
            let a = if i < at { i } else { i + 1 };
            let b = if j < at { j } else { j + 1 };
            assert(after.keys()[i] == keys[a]);
            assert(after.keys()[j] == keys[b]);
        }
        lemma_position(after.keys(), key);
        if after.keys().contains(key) {
            let i = choose|i: int| 0 <= i < after.keys().len() && after.keys()[i] == key;
            let a = if i < at { i } else { i + 1 };
            assert(keys[a] == key);
        }
        assert forall|other: Seq<char>| other != key implies after.contains(other)
            == manager.contains(other) && (manager.contains(other) ==> after.entry(other)
            == manager.entry(other)) by {
            lemma_position(keys, other);
            lemma_position(after.keys(), other);
            let p = position(keys, other);
            if p < keys.len() {
                let q = if p < at { p } else { p - 1 };
                assert(after.keys()[q] == other);
                assert forall|i: int| 0 <= i < q implies #[trigger] after.keys()[i] != other by {
                    let a = if i < at { i } else { i + 1 };
                    assert(after.keys()[i] == keys[a]);
                }
                lemma_position_is(after.keys(), other, q);
            } else {
                if after.keys().contains(other) {
                    let i = choose|i: int| 0 <= i < after.keys().len() && after.keys()[i] == other;
                    let a = if i < at { i } else { i + 1 };
                    assert(keys[a] == other);
                }
            }
        }
    }
}

/// Putting a record in keeps the table well formed, and the record is
/// there under its key; the other sessions stay as they are.
pub proof fn lemma_with(manager: ManagerView, key: Seq<char>, entry: EntryView)
    requires
        manager.wf(),
    ensures
        manager.with(key, entry).wf(),
        manager.with(key, entry).contains(key),
        manager.with(key, entry).entry(key) == entry,
        forall|other: Seq<char>|
            other != key ==> manager.with(key, entry).contains(other) == manager.contains(other),
        forall|other: Seq<char>|
            other != key && manager.contains(other) ==> manager.with(key, entry).entry(other)
                == manager.entry(other),
{
    let keys = manager.keys();
    let after = manager.with(key, entry);
    lemma_position(keys, key);
    if manager.contains(key) {
        let at = manager.find(key);
        assert(after.keys() =~= keys);
    } else {
        assert(after.keys() =~= keys.push(key));
        assert forall|i: int, j: int|
            0 <= i < after.keys().len() && 0 <= j < after.keys().len() && i != j implies after.keys()[i]
            != after.keys()[j] by {
            if i < keys.len() {
                assert(after.keys()[i] == keys[i]);
                assert(keys.contains(keys[i]));
            }
            if j < keys.len() {
                assert(after.keys()[j] == keys[j]);
                assert(keys.contains(keys[j]));
            }
        }
        assert forall|i: int| 0 <= i < keys.len() implies #[trigger] after.keys()[i] != key by {
            assert(after.keys()[i] == keys[i]);
            assert(keys.contains(keys[i]));
        }
        lemma_position_is(after.keys(), key, keys.len() as int);
    }
    assert forall|other: Seq<char>| other != key implies after.contains(other) == manager.contains(
        other,
    ) && (manager.contains(other) ==> after.entry(other) == manager.entry(other)) by {
        lemma_position(keys, other);
        lemma_position(after.keys(), other);
        let p = position(keys, other);
        if p < keys.len() {
            assert(after.keys()[p] == other);
            assert forall|i: int| 0 <= i < p implies #[trigger] after.keys()[i] != other by {
                assert(after.keys()[i] == keys[i]);
            }
            lemma_position_is(after.keys(), other, p);
        } else {
            if after.keys().contains(other) {
                let i = choose|i: int| 0 <= i < after.keys().len() && after.keys()[i] == other;
                if i < keys.len() {
                    assert(keys[i] == other);
                }
            }
        }
    }
}

/// What a start has reserved, as a mathematical value.
pub struct StartTicketView {
    pub session_key: Seq<char>,
    pub port: u16,
}

/// What the first step of a start has reserved for a process that is yet
/// to be started: its session key and its port.
#[derive(Debug)]
pub struct StartTicket {
    session_key: String,
    port: u16,
}

impl View for StartTicket {
    type V = StartTicketView;

    closed spec fn view(&self) -> StartTicketView {
        StartTicketView { session_key: self.session_key@, port: self.port }
    }
}

impl StartTicket {
    /// The key under which the session will be known.
    pub fn session_key(&self) -> (key: &String)
        ensures
            key@ == self@.session_key,
    {
        &self.session_key
    }

    /// The port that the process is to listen on.
    pub fn port(&self) -> (port: u16)
        ensures
            port == self@.port,
    {
        self.port
    }
}

/// What the attempt to start a process came to.
#[derive(Debug)]
pub enum LaunchOutcome {
    /// The process runs.
    Spawned,
    /// The working directory that was asked for is no directory; the text
    /// is its path.
    InvalidCwd(String),
    /// The process could not be started; the text says why.
    SpawnFailed(String),
}

/// What a stop has taken out of the table, as a mathematical value.
pub struct StopTicketView {
    pub session_key: Seq<char>,
    pub entry: EntryView,
}

/// The record that the first step of a stop has taken out of the table,
/// with its key. While the ticket is out, the table does not know the
/// session.
#[derive(Debug)]
pub struct StopTicket {
    session_key: String,
    entry: ServerEntry,
}

impl View for StopTicket {
    type V = StopTicketView;

    closed spec fn view(&self) -> StopTicketView {
        StopTicketView { session_key: self.session_key@, entry: self.entry@ }
    }
}

impl StopTicket {
    /// The key of the session that is being stopped.
    pub fn session_key(&self) -> (key: &String)
        ensures
            key@ == self@.session_key,
    {
        &self.session_key
    }

    /// The record of the session that is being stopped.
    pub fn entry(&self) -> (entry: ServerEntry)
        ensures
            entry@ == self@.entry,
    {
        self.entry
    }

    /// Whether there is a process to kill: a record that is not running
    /// asks for nothing.
    pub fn is_running(&self) -> (running: bool)
        ensures
            running == self@.entry.is_running(),
    {
        self.entry.is_running()
    }
}

impl StopTicketView {
    /// The record that goes back into the table after a stop that did not
    /// fail: exited, and without its port.
    pub open spec fn settled(self, outcome: StopOutcome, now: u64) -> EntryView {
        self.entry.stopped(outcome, now).without_port()
    }
}

/// The sessions after a client has touched all of them.
pub open spec fn touched_all(sessions: Seq<(Seq<char>, EntryView)>, now: u64) -> Seq<
    (Seq<char>, EntryView),
> {
    Seq::new(sessions.len(), |i: int| (sessions[i].0, sessions[i].1.touched(now)))
}

/// The status of each session, in the order of the table.
pub open spec fn status_list(sessions: Seq<(Seq<char>, EntryView)>) -> Seq<JsonValue> {
    Seq::new(
        sessions.len(),
        |i: int| session_value(sessions[i].0, sessions[i].1.is_running(), sessions[i].1.port),
    )
}

/// What a buffer that was handed in holds, if one was.
pub open spec fn buffer_lines(buffer: Option<&LogBuffer>) -> Option<Seq<Seq<char>>> {
    match buffer {
        Some(b) => Some(b@),
        None => None,
    }
}

/// The time from `since` to `now`; nothing if `since` lies after `now`.
pub open spec fn elapsed(now: u64, since: u64) -> int {
    if now >= since {
        now - since
    } else {
        0
    }
}

/// The session runs and no client has touched it for longer than
/// `IDLE_MS`.
pub open spec fn idle_too_long(entry: EntryView, now: u64) -> bool {
    entry.is_running() && elapsed(now, entry.last_activity) > IDLE_MS
}

/// The session has been exited for longer than `RETENTION_MS`.
pub open spec fn kept_too_long(entry: EntryView, now: u64) -> bool {
    entry.state matches ProcessState::Exited { exited_at } && elapsed(now, exited_at)
        > RETENTION_MS
}

/// A list of strings as mathematical values.
pub open spec fn texts(list: Seq<String>) -> Seq<Seq<char>> {
    Seq::new(list.len(), |i: int| list[i]@)
}

/// The sessions after a look at their processes: `exited` names those
/// whose process was found to have exited.
pub open spec fn polled_all(
    sessions: Seq<(Seq<char>, EntryView)>,
    exited: Seq<Seq<char>>,
    now: u64,
) -> Seq<(Seq<char>, EntryView)> {
    Seq::new(
        sessions.len(),
        |i: int| (sessions[i].0, sessions[i].1.polled(exited.contains(sessions[i].0), now)),
    )
}

/// The record after a sweep has passed it: an exited record has given up
/// its port.
pub open spec fn settled(entry: EntryView) -> EntryView {
    if entry.is_running() {
        entry
    } else {
        entry.without_port()
    }
}

/// The sessions after every exited one has given up its port.
pub open spec fn settled_all(sessions: Seq<(Seq<char>, EntryView)>) -> Seq<(Seq<char>, EntryView)> {
    Seq::new(sessions.len(), |i: int| (sessions[i].0, settled(sessions[i].1)))
}

/// The allocator after it got back, in the order of the table, the port of
/// every exited session that still held one.
pub open spec fn ports_settled(
    ports: PortAllocatorView,
    sessions: Seq<(Seq<char>, EntryView)>,
) -> PortAllocatorView
    decreases sessions.len(),
{
    if sessions.len() == 0 {
        ports
    } else {
        let before = ports_settled(ports, sessions.drop_last());
        let entry = sessions.last().1;
        if !entry.is_running() && entry.port != 0 {
            before.released(entry.port)
        } else {
            before
        }
    }
}

/// The keys of the sessions that run, in the order of the table.
pub open spec fn running_keys(sessions: Seq<(Seq<char>, EntryView)>) -> Seq<Seq<char>>
    decreases sessions.len(),
{
    if sessions.len() == 0 {
        Seq::empty()
    } else if sessions.last().1.is_running() {
        running_keys(sessions.drop_last()).push(sessions.last().0)
    } else {
        running_keys(sessions.drop_last())
    }
}

/// The keys of the sessions that have been idle for too long, in the
/// order of the table.
pub open spec fn keys_to_stop(sessions: Seq<(Seq<char>, EntryView)>, now: u64) -> Seq<Seq<char>>
    decreases sessions.len(),
{
    if sessions.len() == 0 {
        Seq::empty()
    } else if idle_too_long(sessions.last().1, now) {
        keys_to_stop(sessions.drop_last(), now).push(sessions.last().0)
    } else {
        keys_to_stop(sessions.drop_last(), now)
    }
}

/// The keys of the sessions that have been kept for too long, in the
/// order of the table.
pub open spec fn keys_to_prune(sessions: Seq<(Seq<char>, EntryView)>, now: u64) -> Seq<Seq<char>>
    decreases sessions.len(),
{
    if sessions.len() == 0 {
        Seq::empty()
    } else if kept_too_long(sessions.last().1, now) {
        keys_to_prune(sessions.drop_last(), now).push(sessions.last().0)
    } else {
        keys_to_prune(sessions.drop_last(), now)
    }
}

impl ManagerView {
    /// The manager after a sweep at time `now`, for which `exited` names
    /// the sessions whose process was found to have exited.
    pub open spec fn swept(self, exited: Seq<Seq<char>>, now: u64) -> ManagerView {
        let polled = polled_all(self.sessions, exited, now);
        ManagerView { sessions: settled_all(polled), ports: ports_settled(self.ports, polled) }
    }

    /// The manager after the session `key` has been forgotten: its port,
    /// if it still held one, goes back to the allocator.
    pub open spec fn pruned(self, key: Seq<char>) -> ManagerView {
        if self.contains(key) && self.entry(key).port != 0 {
            self.without(key).release(self.entry(key).port)
        } else {
            self.without(key)
        }
    }
}

/// What a sweep found to be due.
#[derive(Debug)]
pub struct SweepPlan {
    /// The running sessions to stop, because they were idle for too long.
    pub to_stop: Vec<String>,
    /// The exited sessions to forget, because they were kept long enough.
    pub to_prune: Vec<String>,
}

/// Whether `wanted` is among `list`.
pub fn contains_text(list: &Vec<String>, wanted: &String) -> (found: bool)
    ensures
        found == texts(list@).contains(wanted@),
{
    let mut i: usize = 0;
    while i < list.len()
        invariant
            0 <= i <= list.len(),
            forall|j: int| 0 <= j < i ==> texts(list@)[j] != wanted@,
        decreases list.len() - i,
    {
        if list[i] == *wanted {
            assert(texts(list@)[i as int] == wanted@);
            return true;
        }
        i = i + 1;
    }
    false
}

/// Whether more time than `limit` has passed from `since` to `now`.
pub fn longer_than(now: u64, since: u64, limit: u64) -> (over: bool)
    ensures
        over == (elapsed(now, since) > limit),
{
    now > since && now - since > limit
}

/// Every session key there is belongs to a session.
pub open spec fn all_keys_taken(manager: ManagerView) -> bool {
    forall|key: Seq<char>| is_session_key(key) ==> #[trigger] manager.contains(key)
}

/// The order in which unused keys are looked for: by the numbers of their
/// characters, the first character counting most.
pub open spec fn comes_before(this: (int, int, int, int), that: (int, int, int, int)) -> bool {
    this.0 < that.0 || (this.0 == that.0 && (this.1 < that.1 || (this.1 == that.1 && (this.2 < that.2
        || (this.2 == that.2 && this.3 < that.3)))))
}

/// `key` is made of the characters with the numbers `at`, and every key
/// that comes before it belongs to a session.
pub open spec fn first_unused_at(manager: ManagerView, key: Seq<char>, at: (int, int, int, int)) -> bool {
    &&& 0 <= at.0 < CHARSET_LENGTH
    &&& 0 <= at.1 < CHARSET_LENGTH
    &&& 0 <= at.2 < CHARSET_LENGTH
    &&& 0 <= at.3 < CHARSET_LENGTH
    &&& key == key_of(at.0, at.1, at.2, at.3)
    &&& forall|a: int, b: int, c: int, d: int|
        0 <= a < CHARSET_LENGTH && 0 <= b < CHARSET_LENGTH && 0 <= c < CHARSET_LENGTH && 0 <= d
            < CHARSET_LENGTH && comes_before((a, b, c, d), at) ==> manager.contains(
            #[trigger] key_of(a, b, c, d),
        )
}

/// Every key that comes before `key` in the order of the character set
/// belongs to a session.
pub open spec fn is_first_unused(manager: ManagerView, key: Seq<char>) -> bool {
    exists|at: (int, int, int, int)| first_unused_at(manager, key, at)
}

/// The table of sessions and the port allocator.
///
/// The sessions are kept as a list of pairs in which each key occurs once;
/// a session is looked up by going through the list, and a new session
/// joins at the end.
pub struct Manager {
    servers: Vec<(String, ServerEntry)>,
    port_allocator: PortAllocator,
}

impl View for Manager {
    type V = ManagerView;

    closed spec fn view(&self) -> ManagerView {
        ManagerView { sessions: session_views(self.servers@), ports: self.port_allocator@ }
    }
}

impl Manager {
    /// See [`ManagerView::wf`].
    pub open spec fn wf(&self) -> bool {
        self@.wf()
    }

    /// A manager without sessions whose allocator starts at `PORT_START`.
    pub fn new() -> (manager: Self)
        ensures
            manager.wf(),
            manager@.sessions == Seq::<(Seq<char>, EntryView)>::empty(),
            manager@.ports == PortAllocator::new_view(PORT_START),
            manager@.consistent(),
    {
        let manager = Manager { servers: Vec::new(), port_allocator: PortAllocator::new(PORT_START) };
        assert(manager@.sessions =~= Seq::<(Seq<char>, EntryView)>::empty());
        assert(manager@.keys() =~= Seq::<Seq<char>>::empty());
        manager
    }

    /// The index of the session with the given key.
    fn find(&self, key: &str) -> (found: Option<usize>)
        ensures
            match found {
                Some(at) => at == self@.find(key@) && self@.contains(key@) && at
                    < self.servers.len(),
                None => !self@.contains(key@),
            },
    {
        assert(owned_keys(self.servers@) =~= self@.keys());
        find_key(&self.servers, key)
    }

    /// Whether there is a session with the given key.
    pub fn contains(&self, session_key: &str) -> (found: bool)
        ensures
            found == self@.contains(session_key@),
    {
        self.find(session_key).is_some()
    }

    /// The record of the session with the given key.
    pub fn get(&self, session_key: &str) -> (entry: Option<ServerEntry>)
        ensures
            match entry {
                Some(e) => self@.contains(session_key@) && e@ == self@.entry(session_key@),
                None => !self@.contains(session_key@),
            },
    {
        match self.find(session_key) {
            Some(at) => Some(self.servers[at].1),
            None => None,
        }
    }

    /// The number of sessions.
    pub fn session_count(&self) -> (count: usize)
        ensures
            count == self@.sessions.len(),
    {
        self.servers.len()
    }

    /// Whether the allocator has handed out `port` and not got it back.
    pub fn port_in_use(&self, port: u16) -> (used: bool)
        ensures
            used == self@.ports.in_use.contains(port),
    {
        self.port_allocator.is_in_use(port)
    }

    /// Takes the session with the given key out of the table.
    fn remove(&mut self, key: &str) -> (removed: Option<ServerEntry>)
        ensures
            final(self)@ == old(self)@.without(key@),
            match removed {
                Some(e) => old(self)@.contains(key@) && e@ == old(self)@.entry(key@),
                None => !old(self)@.contains(key@),
            },
    {
        match self.find(key) {
            Some(at) => {
                let pair = self.servers.remove(at);
                assert(self@.sessions =~= old(self)@.sessions.remove(at as int));
                Some(pair.1)
            },
            None => None,
        }
    }

    /// Puts `entry` into the table as the record of the session `key`.
    fn insert(&mut self, key: String, entry: ServerEntry)
        ensures
            final(self)@ == old(self)@.with(key@, entry@),
    {
        match self.find(key.as_str()) {
            Some(at) => {
                self.servers[at] = (key, entry);
                assert(self@.sessions =~= old(self)@.sessions.update(at as int, (key@, entry@)));
            },
            None => {
                self.servers.push((key, entry));
                assert(self@.sessions =~= old(self)@.sessions.push((key@, entry@)));
            },
        }
    }

    /// The first session key, in the order of the character set, that no
    /// session has.
    pub fn first_unused_key(&self) -> (found: Option<String>)
        ensures
            match found {
                Some(key) => is_session_key(key@) && !self@.contains(key@) && is_first_unused(
                    self@,
                    key@,
                ),
                None => all_keys_taken(self@),
            },
    {
        let mut first: usize = 0;
        let mut second: usize = 0;
        let mut third: usize = 0;
        let mut fourth: usize = 0;
        while first < CHARSET_LENGTH
            invariant
                first <= CHARSET_LENGTH,
                second < CHARSET_LENGTH,
                third < CHARSET_LENGTH,
                fourth < CHARSET_LENGTH,
                forall|a: int, b: int, c: int, d: int|
                    0 <= a < CHARSET_LENGTH && 0 <= b < CHARSET_LENGTH && 0 <= c < CHARSET_LENGTH
                        && 0 <= d < CHARSET_LENGTH && comes_before(
                        (a, b, c, d),
                        (first as int, second as int, third as int, fourth as int),
                    ) ==> self@.contains(#[trigger] key_of(a, b, c, d)),
            decreases CHARSET_LENGTH - first, CHARSET_LENGTH - second, CHARSET_LENGTH - third,
                CHARSET_LENGTH - fourth,
        {
            let key = session_key_from_indices(first, second, third, fourth);
            if !self.contains(key.as_str()) {
                assert(first_unused_at(
                    self@,
                    key@,
                    (first as int, second as int, third as int, fourth as int),
                ));
                return Some(key);
            }
            fourth = fourth + 1;
            if fourth == CHARSET_LENGTH {
                fourth = 0;
                third = third + 1;
                if third == CHARSET_LENGTH {
                    third = 0;
                    second = second + 1;
                    if second == CHARSET_LENGTH {
                        second = 0;
                        first = first + 1;
                    }
                }
            }
        }
        proof {
            assert forall|key: Seq<char>| is_session_key(key) implies self@.contains(key) by {
                let indices = lemma_session_key_indices(key);
                assert(comes_before(
                    indices,
                    (first as int, second as int, third as int, fourth as int),
                ));
            }
        }
        None
    }

    /// Picks a session key that no session has. Random keys are drawn, at
    /// most `KEY_ATTEMPTS` of them, and the first that is unused is taken.
    /// If all of them were taken, the first unused key in the order of the
    /// character set is. There is no key only if every session key is
    /// taken.
    pub fn pick_session_key(&self) -> (picked: Option<String>)
        ensures
            match picked {
                Some(key) => is_session_key(key@) && !self@.contains(key@),
                None => all_keys_taken(self@),
            },
    {
        let mut attempts: u32 = 0;
        while attempts < KEY_ATTEMPTS
            invariant
                attempts <= KEY_ATTEMPTS,
            decreases KEY_ATTEMPTS - attempts,
        {
            let key = generate_session_key();
            if !self.contains(key.as_str()) {
                return Some(key);
            }
            attempts = attempts + 1;
        }
        self.first_unused_key()
    }

    /// The first step of a start, for a session key that was picked
    /// before: allocates a port with `probe` and hands out the ticket.
    /// Without a key, or without a port, the start fails with the answer
    /// that reports it.
    pub fn start_with_key<F: Fn(u16) -> bool>(
        &mut self,
        session_key: Option<String>,
        probe: F,
    ) -> (result: Result<StartTicket, Json>)
        requires
            old(self).wf(),
            forall|port: u16| call_requires(probe, (port,)),
        ensures
            final(self).wf(),
            final(self)@.sessions == old(self)@.sessions,
            match session_key {
                None => final(self)@ == old(self)@ && (result matches Err(answer) && answer@
                    == error_value(key_message())),
                Some(key) => match result {
                    Ok(ticket) => ticket@.session_key == key@ && allocated(
                        old(self)@.ports,
                        final(self)@.ports,
                        ticket@.port,
                        probe,
                    ),
                    Err(answer) => answer@ == error_value(port_message(overflow_message()))
                        && refused(old(self)@.ports, final(self)@.ports, probe),
                },
            },
            old(self)@.consistent() ==> final(self)@.consistent(),
            old(self)@.consistent() ==> (result matches Ok(ticket) ==> final(self)@.reserved(
                ticket@.port,
            )),
    {
        let key = match session_key {
            Some(key) => key,
            None => {
                return Err(key_error());
            },
        };
        match self.port_allocator.allocate(probe) {
            Ok(port) => {
                proof {
                    if old(self)@.consistent() {
                        lemma_allocated_is_step(old(self)@.ports, self@.ports, port, probe);
                        lemma_allocation_consistent(old(self)@, self@, port);
                    }
                }
                Ok(StartTicket { session_key: key, port })
            },
            Err(e) => {
                proof {
                    if old(self)@.consistent() {
                        lemma_refusal_consistent(old(self)@);
                    }
                }
                Err(port_error(e.message().as_str()))
            },
        }
    }

    /// The first step of a start: picks an unused session key, allocates a
    /// port with `probe` and hands out the ticket. The process is then to
    /// be started with the port in its environment, and the ticket handed
    /// back to `finish_start`.
    pub fn start<F: Fn(u16) -> bool>(&mut self, probe: F) -> (result: Result<StartTicket, Json>)
        requires
            old(self).wf(),
            forall|port: u16| call_requires(probe, (port,)),
        ensures
            final(self).wf(),
            final(self)@.sessions == old(self)@.sessions,
            match result {
                Ok(ticket) => is_session_key(ticket@.session_key) && !old(self)@.contains(
                    ticket@.session_key,
                ) && allocated(old(self)@.ports, final(self)@.ports, ticket@.port, probe),
                Err(answer) => (answer@ == error_value(key_message()) && final(self)@ == old(
                    self,
                )@ && all_keys_taken(old(self)@)) || (answer@ == error_value(
                    port_message(overflow_message()),
                ) && refused(
                    old(self)@.ports,
                    final(self)@.ports,
                    probe,
                )),
            },
            old(self)@.consistent() ==> final(self)@.consistent(),
            old(self)@.consistent() ==> (result matches Ok(ticket) ==> final(self)@.reserved(
                ticket@.port,
            )),
    {
        let session_key = self.pick_session_key();
        self.start_with_key(session_key, probe)
    }

    /// The second step of a start. If the process runs, its record joins
    /// the table under the ticket's key. If it does not, the ticket's port
    /// goes back to the allocator and the answer says what went wrong.
    pub fn finish_start(&mut self, ticket: StartTicket, outcome: LaunchOutcome, now: u64) -> (answer:
        Json)
        requires
            old(self).wf(),
        ensures
            final(self).wf(),
            match outcome {
                LaunchOutcome::Spawned => final(self)@ == old(self)@.with(
                    ticket@.session_key,
                    EntryView::started(ticket@.port, now),
                ) && answer@ == started_value(ticket@.port, ticket@.session_key),
                LaunchOutcome::InvalidCwd(path) => final(self)@ == old(self)@.release(
                    ticket@.port,
                ) && answer@ == error_value(cwd_message(path@)),
                LaunchOutcome::SpawnFailed(reason) => final(self)@ == old(self)@.release(
                    ticket@.port,
                ) && answer@ == error_value(spawn_message(reason@)),
            },
            outcome is Spawned ==> final(self)@.contains(ticket@.session_key) && final(self)@.entry(
                ticket@.session_key,
            ) == EntryView::started(ticket@.port, now),
            outcome is Spawned ==> final(self)@.ports == old(self)@.ports,
            !(outcome is Spawned) ==> final(self)@.sessions == old(self)@.sessions && !final(self)@.ports.in_use.contains(ticket@.port),
            old(self)@.consistent() && old(self)@.reserved(ticket@.port) ==> final(self)@.consistent(),
    {
        proof {
            lemma_with(self@, ticket@.session_key, EntryView::started(ticket@.port, now));
            if self@.consistent() && self@.reserved(ticket@.port) {
                lemma_started_consistent(self@, ticket@.session_key, ticket@.port, now);
                lemma_release_consistent(self@, ticket@.port);
            }
        }
        match outcome {
            LaunchOutcome::Spawned => {
                let answer = started_json(ticket.port, ticket.session_key.as_str());
                self.insert(ticket.session_key, ServerEntry::new(ticket.port, now));
                answer
            },
            LaunchOutcome::InvalidCwd(path) => {
                self.port_allocator.free(ticket.port);
                cwd_error(path.as_str())
            },
            LaunchOutcome::SpawnFailed(reason) => {
                self.port_allocator.free(ticket.port);
                spawn_error(reason.as_str())
            },
        }
    }

    /// The first step of a stop: takes the session out of the table, so
    /// that nothing else works on it meanwhile, and notes that a client
    /// touched it. The process of the ticket is then to be killed and
    /// waited for, and the ticket handed back to `finish_stop`.
    pub fn stop(&mut self, session_key: String, now: u64) -> (result: Result<StopTicket, Json>)
        requires
            old(self).wf(),
        ensures
            final(self).wf(),
            final(self)@ == old(self)@.without(session_key@),
            match result {
                Ok(ticket) => old(self)@.contains(session_key@) && ticket@.session_key
                    == session_key@ && ticket@.entry == old(self)@.entry(session_key@).touched(now),
                Err(answer) => !old(self)@.contains(session_key@) && answer@ == error_value(
                    missing_message(),
                ),
            },
            !final(self)@.contains(session_key@),
            old(self)@.consistent() ==> final(self)@.consistent(),
            old(self)@.consistent() ==> (result matches Ok(ticket) ==> final(self)@.detached(
                ticket@.entry,
            )),
    {
        proof {
            lemma_without(self@, session_key@);
            if self@.consistent() {
                lemma_without_consistent(self@, session_key@);
            }
        }
        match self.remove(session_key.as_str()) {
            Some(entry) => {
                let mut entry = entry;
                entry.touch(now);
                Ok(StopTicket { session_key, entry })
            },
            None => Err(missing_error()),
        }
    }

    /// The second step of a stop. If the process is gone, or the record
    /// was not running in the first place, the record gives up its port,
    /// the port goes back to the allocator and the record returns to the
    /// table. If the stop failed, the answer says why and the record does
    /// not return.
    pub fn finish_stop(&mut self, ticket: StopTicket, outcome: StopOutcome, now: u64) -> (answer:
        Json)
        requires
            old(self).wf(),
        ensures
            final(self).wf(),
            match ticket@.entry.stop_result(outcome) {
                None => final(self)@ == old(self)@.returned(
                    ticket@.session_key,
                    ticket@.entry,
                    outcome,
                    now,
                ) && answer@ == stopped_value(ticket@.session_key),
                Some(reason) => final(self)@ == old(self)@ && answer@ == error_value(
                    stop_message(reason),
                ),
            },
            ticket@.entry.stop_result(outcome) is None ==> {
                &&& final(self)@.contains(ticket@.session_key)
                &&& final(self)@.entry(ticket@.session_key) == ticket@.settled(outcome, now)
                &&& final(self)@.entry(ticket@.session_key).state is Exited
                &&& final(self)@.entry(ticket@.session_key).port == 0
                &&& final(self)@.ports == old(self)@.ports.released(ticket@.entry.port)
                &&& !final(self)@.ports.in_use.contains(ticket@.entry.port)
            },
            old(self)@.consistent() && old(self)@.detached(ticket@.entry) ==> final(self)@.consistent(),
            old(self)@.consistent() && old(self)@.detached(ticket@.entry)
                && ticket@.entry.stop_result(outcome) is None && ticket@.entry.port != 0 ==> {
                &&& final(self)@.ports.free_list == old(self)@.ports.free_list.push(
                    ticket@.entry.port,
                )
                &&& final(self)@.ports.in_use == old(self)@.ports.in_use.remove(
                    ticket@.entry.port,
                )
            },
    {
        proof {
            if self@.consistent() && self@.detached(ticket@.entry) {
                lemma_returned_consistent(self@, ticket@.session_key, ticket@.entry, outcome, now);
            }
        }
        let mut entry = ticket.entry;
        let port = entry.port();
        match entry.stop(outcome, now) {
            Ok(_) => {
                entry.release_port();
                self.port_allocator.free(port);
                let answer = stopped_json(ticket.session_key.as_str());
                proof {
                    lemma_with(self@, ticket@.session_key, entry@);
                }
                self.insert(ticket.session_key, entry);
                answer
            },
            Err(reason) => stop_error(reason.as_str()),
        }
    }

    /// Notes that a client touched the session with the given key, and
    /// returns its record.
    fn touch(&mut self, key: &str, now: u64) -> (touched: Option<ServerEntry>)
        requires
            old(self).wf(),
        ensures
            final(self).wf(),
            match touched {
                Some(entry) => old(self)@.contains(key@) && entry@ == old(self)@.entry(
                    key@,
                ).touched(now) && final(self)@ == old(self)@.with(key@, entry@),
                None => !old(self)@.contains(key@) && final(self)@ == old(self)@,
            },
            old(self)@.consistent() ==> final(self)@.consistent(),
    {
        match self.find(key) {
            Some(at) => {
                self.servers[at].1.touch(now);
                proof {
                    let entry = old(self)@.entry(key@).touched(now);
                    lemma_position(old(self)@.keys(), key@);
                    assert(self@.sessions =~= old(self)@.with(key@, entry).sessions);
                    lemma_with(old(self)@, key@, entry);
                    if old(self)@.consistent() {
                        lemma_touched_consistent(old(self)@, key@, now);
                    }
                }
                Some(self.servers[at].1)
            },
            None => None,
        }
    }

    /// Answers with the status of every session, in the order of the
    /// table, and notes that a client touched them all.
    fn status_of_all(&mut self, now: u64) -> (answer: Json)
        requires
            old(self).wf(),
        ensures
            final(self).wf(),
            final(self)@.ports == old(self)@.ports,
            final(self)@.sessions == touched_all(old(self)@.sessions, now),
            answer@ == sessions_value(status_list(old(self)@.sessions)),
            old(self)@.consistent() ==> final(self)@.consistent(),
    {
        let mut sessions: Vec<Json> = Vec::new();
        let mut i: usize = 0;
        while i < self.servers.len()
            invariant
                0 <= i <= self.servers.len(),
                self.servers.len() == old(self).servers.len(),
                self.port_allocator == old(self).port_allocator,
                sessions.len() == i,
                forall|j: int|
                    0 <= j < i ==> (#[trigger] sessions[j])@ == status_list(
                        old(self)@.sessions,
                    )[j],
                forall|j: int|
                    0 <= j < i ==> (#[trigger] self.servers[j]).0@ == old(self).servers[j].0@
                        && self.servers[j].1@ == old(self).servers[j].1@.touched(now),
                forall|j: int|
                    i <= j < self.servers.len() ==> (#[trigger] self.servers[j]) == old(
                        self,
                    ).servers[j],
            decreases self.servers.len() - i,
        {
            let ghost before = self.servers@;
            self.servers[i].1.touch(now);
            assert(self.servers@.len() == before.len());
            assert(forall|j: int| 0 <= j < before.len() && j != i ==> self.servers@[j] == before[j]);
            assert(self.servers@[i as int].0 == before[i as int].0);
            let entry = self.servers[i].1;
            let status = session_json(self.servers[i].0.as_str(), entry.is_running(), entry.port());
            sessions.push(status);
            i = i + 1;
        }
        proof {
            assert(self@.sessions =~= touched_all(old(self)@.sessions, now));
            assert(self@.keys() =~= old(self)@.keys());
            assert(items_view(sessions@) =~= status_list(old(self)@.sessions));
            if old(self)@.consistent() {
                lemma_touched_all_consistent(old(self)@, now);
            }
        }
        sessions_json(sessions)
    }

    /// Answers with the status of one session, or of all sessions if no key
    /// is given, and notes that a client touched what it reports on.
    pub fn status(&mut self, session_key: Option<String>, now: u64) -> (answer: Json)
        requires
            old(self).wf(),
        ensures
            final(self).wf(),
            final(self)@.ports == old(self)@.ports,
            match session_key {
                Some(key) => if old(self)@.contains(key@) {
                    &&& final(self)@ == old(self)@.with(key@, old(self)@.entry(key@).touched(now))
                    &&& answer@ == session_value(
                        key@,
                        old(self)@.entry(key@).is_running(),
                        old(self)@.entry(key@).port,
                    )
                } else {
                    &&& final(self)@ == old(self)@
                    &&& answer@ == error_value(missing_message())
                },
                None => {
                    &&& final(self)@.sessions == touched_all(old(self)@.sessions, now)
                    &&& answer@ == sessions_value(status_list(old(self)@.sessions))
                },
            },
            old(self)@.consistent() ==> final(self)@.consistent(),
    {
        match session_key {
            Some(key) => match self.touch(key.as_str(), now) {
                Some(entry) => session_json(key.as_str(), entry.is_running(), entry.port()),
                None => missing_error(),
            },
            None => self.status_of_all(now),
        }
    }

    /// Answers with the captured output of one session and notes that a
    /// client touched it. The two buffers are those of the session; one
    /// that could not be had is given as `None`.
    pub fn tail(
        &mut self,
        session_key: String,
        now: u64,
        stdout: Option<&LogBuffer>,
        stderr: Option<&LogBuffer>,
    ) -> (answer: Json)
        requires
            old(self).wf(),
        ensures
            final(self).wf(),
            if old(self)@.contains(session_key@) {
                &&& final(self)@ == old(self)@.with(
                    session_key@,
                    old(self)@.entry(session_key@).touched(now),
                )
                &&& answer@ == tail_value(
                    session_key@,
                    log_text(buffer_lines(stdout)),
                    log_text(buffer_lines(stderr)),
                )
            } else {
                &&& final(self)@ == old(self)@
                &&& answer@ == error_value(missing_message())
            },
            old(self)@.consistent() ==> final(self)@.consistent(),
    {
        match self.touch(session_key.as_str(), now) {
            Some(entry) => {
                let logs = entry.get_logs(stdout, stderr);
                tail_json(session_key.as_str(), logs.0, logs.1)
            },
            None => missing_error(),
        }
    }

    /// The keys of the sessions that run, in the order of the table: the
    /// sessions whose processes a sweep has to look at.
    pub fn running_sessions(&self) -> (keys: Vec<String>)
        ensures
            texts(keys@) == running_keys(self@.sessions),
    {
        let mut keys: Vec<String> = Vec::new();
        let mut i: usize = 0;
        assert(self@.sessions.subrange(0, 0) =~= Seq::<(Seq<char>, EntryView)>::empty());
        while i < self.servers.len()
            invariant
                0 <= i <= self.servers.len(),
                texts(keys@) == running_keys(self@.sessions.subrange(0, i as int)),
            decreases self.servers.len() - i,
        {
            proof {
                let upto = self@.sessions.subrange(0, i as int + 1);
                assert(upto.drop_last() =~= self@.sessions.subrange(0, i as int));
                assert(upto.last() == self@.sessions[i as int]);
            }
            if self.servers[i].1.is_running() {
                let ghost before = texts(keys@);
                keys.push(self.servers[i].0.clone());
                assert(texts(keys@) =~= before.push(self.servers[i as int].0@));
            }
            i = i + 1;
        }
        assert(self@.sessions.subrange(0, i as int) =~= self@.sessions);
        keys
    }

    /// One sweep over the table at time `now`. `exited` names the sessions
    /// whose process was found to have exited; those records become
    /// exited. Every exited record gives up its port, which goes back to
    /// the allocator. The plan lists the running sessions that were idle
    /// for too long and the exited ones that were kept long enough.
    pub fn sweep(&mut self, exited: &Vec<String>, now: u64) -> (plan: SweepPlan)
        requires
            old(self).wf(),
        ensures
            final(self).wf(),
            final(self)@ == old(self)@.swept(texts(exited@), now),
            texts(plan.to_stop@) == keys_to_stop(
                polled_all(old(self)@.sessions, texts(exited@), now),
                now,
            ),
            texts(plan.to_prune@) == keys_to_prune(
                polled_all(old(self)@.sessions, texts(exited@), now),
                now,
            ),
            old(self)@.consistent() ==> final(self)@.consistent(),
    {
        proof {
            if self@.consistent() {
                lemma_swept_consistent(self@, texts(exited@), now);
            }
        }
        let ghost polled = polled_all(self@.sessions, texts(exited@), now);
        let mut to_stop: Vec<String> = Vec::new();
        let mut to_prune: Vec<String> = Vec::new();
        let mut i: usize = 0;
        assert(polled.subrange(0, 0) =~= Seq::<(Seq<char>, EntryView)>::empty());
        while i < self.servers.len()
            invariant
                0 <= i <= self.servers.len(),
                self.servers.len() == old(self).servers.len(),
                polled == polled_all(old(self)@.sessions, texts(exited@), now),
                self.port_allocator.wf(),
                self.port_allocator@ == ports_settled(
                    old(self)@.ports,
                    polled.subrange(0, i as int),
                ),
                texts(to_stop@) == keys_to_stop(polled.subrange(0, i as int), now),
                texts(to_prune@) == keys_to_prune(polled.subrange(0, i as int), now),
                forall|j: int|
                    0 <= j < i ==> (#[trigger] self.servers[j]).0@ == old(self).servers[j].0@
                        && self.servers[j].1@ == settled(polled[j].1),
                forall|j: int|
                    i <= j < self.servers.len() ==> (#[trigger] self.servers[j]) == old(
                        self,
                    ).servers[j],
            decreases self.servers.len() - i,
        {
            let ghost before = self.servers@;
            proof {
                let upto = polled.subrange(0, i as int + 1);
                assert(upto.drop_last() =~= polled.subrange(0, i as int));
                assert(upto.last() == polled[i as int]);
            }
            let gone = contains_text(exited, &self.servers[i].0);
            self.servers[i].1.poll_exit(gone, now);
            let entry = self.servers[i].1;
            assert(entry@ == polled[i as int].1);
            match entry.exited_at() {
                Some(at) => {
                    if entry.port() != 0 {
                        self.port_allocator.free(entry.port());
                        self.servers[i].1.release_port();
                    }
                    if longer_than(now, at, RETENTION_MS) {
                        let ghost listed = texts(to_prune@);
                        to_prune.push(self.servers[i].0.clone());
                        assert(texts(to_prune@) =~= listed.push(polled[i as int].0));
                    }
                },
                None => {
                    if longer_than(now, entry.last_activity(), IDLE_MS) {
                        let ghost listed = texts(to_stop@);
                        to_stop.push(self.servers[i].0.clone());
                        assert(texts(to_stop@) =~= listed.push(polled[i as int].0));
                    }
                },
            }
            assert(self.servers@.len() == before.len());
            assert(forall|j: int| 0 <= j < before.len() && j != i ==> self.servers@[j] == before[j]);
            assert(self.servers@[i as int].0 == before[i as int].0);
            i = i + 1;
        }
        proof {
            assert(polled.subrange(0, i as int) =~= polled);
            assert(self@.sessions =~= settled_all(polled));
            assert(self@.keys() =~= old(self)@.keys());
        }
        SweepPlan { to_stop, to_prune }
    }

    /// The first step of stopping an idle session: takes the session out of
    /// the table, if it is there. The process of the ticket is then to be
    /// killed and waited for, and the ticket handed back to
    /// `finish_idle_stop`.
    pub fn begin_idle_stop(&mut self, session_key: String) -> (ticket: Option<StopTicket>)
        requires
            old(self).wf(),
        ensures
            final(self).wf(),
            final(self)@ == old(self)@.without(session_key@),
            match ticket {
                Some(t) => old(self)@.contains(session_key@) && t@.session_key == session_key@
                    && t@.entry == old(self)@.entry(session_key@),
                None => !old(self)@.contains(session_key@),
            },
            old(self)@.consistent() ==> final(self)@.consistent(),
            !final(self)@.contains(session_key@),
            old(self)@.consistent() ==> (ticket matches Some(t) ==> final(self)@.detached(t@.entry)),
    {
        proof {
            lemma_without(self@, session_key@);
            if self@.consistent() {
                lemma_without_consistent(self@, session_key@);
            }
        }
        match self.remove(session_key.as_str()) {
            Some(entry) => Some(StopTicket { session_key, entry }),
            None => None,
        }
    }

    /// The second step of stopping an idle session: the record returns to
    /// the table. If the process is gone, or the record was not running,
    /// the record gives up its port, the port goes back to the allocator
    /// and the record returns exited. If the stop failed, the record
    /// returns as it left: running, and with its port still handed out, so
    /// that a later sweep finds it idle again.
    pub fn finish_idle_stop(&mut self, ticket: StopTicket, outcome: StopOutcome, now: u64)
        requires
            old(self).wf(),
        ensures
            final(self).wf(),
            final(self)@ == old(self)@.returned(
                ticket@.session_key,
                ticket@.entry,
                outcome,
                now,
            ),
            final(self)@.contains(ticket@.session_key),
            match ticket@.entry.stop_result(outcome) {
                None => {
                    &&& final(self)@.entry(ticket@.session_key) == ticket@.settled(outcome, now)
                    &&& final(self)@.entry(ticket@.session_key).state is Exited
                    &&& final(self)@.ports == old(self)@.ports.released(ticket@.entry.port)
                    &&& !final(self)@.ports.in_use.contains(ticket@.entry.port)
                },
                Some(_) => {
                    &&& final(self)@.entry(ticket@.session_key) == ticket@.entry
                    &&& final(self)@.ports == old(self)@.ports
                },
            },
            old(self)@.consistent() && old(self)@.detached(ticket@.entry) ==> final(self)@.consistent(),
    {
        proof {
            if self@.consistent() && self@.detached(ticket@.entry) {
                lemma_returned_consistent(self@, ticket@.session_key, ticket@.entry, outcome, now);
            }
        }
        let mut entry = ticket.entry;
        let port = entry.port();
        if entry.stop(outcome, now).is_ok() {
            entry.release_port();
            self.port_allocator.free(port);
        }
        proof {
            lemma_with(self@, ticket@.session_key, entry@);
        }
        self.insert(ticket.session_key, entry);
    }

    /// Forgets the session with the given key, if there is one. A port that
    /// the record still holds goes back to the allocator.
    pub fn prune(&mut self, session_key: &str)
        requires
            old(self).wf(),
        ensures
            final(self).wf(),
            final(self)@ == old(self)@.pruned(session_key@),
            !final(self)@.contains(session_key@),
            old(self)@.consistent() ==> final(self)@.consistent(),
    {
        proof {
            lemma_without(self@, session_key@);
            if self@.consistent() {
                lemma_pruned_consistent(self@, session_key@);
            }
        }
        if let Some(entry) = self.remove(session_key) {
            if entry.port() != 0 {
                self.port_allocator.free(entry.port());
            }
        }
    }
}

} // verus!
