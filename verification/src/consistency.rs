//! How the session table and the port allocator agree.
//!
//! A session that runs holds a port, a port that a session holds is handed
//! out by the allocator, and no two sessions hold the same port. The lemmas
//! here show that every step of the manager keeps that so.

use crate::keyed::lemma_position;
use crate::manager::{ManagerView, polled_all, ports_settled, touched_all};
use crate::port_allocator::{port_step, PortAllocatorView, PortEvent};
use crate::server_entry::{EntryView, StopOutcome};
use vstd::prelude::*;

verus! {

/// Port 0 is not handed out and never will be: the cursor is above it and
/// the queue of returned ports does not hold it.
pub open spec fn never_zero(ports: PortAllocatorView) -> bool {
    &&& ports.next_port > 0
    &&& !ports.in_use.contains(0)
    &&& forall|i: int| 0 <= i < ports.free_list.len() ==> #[trigger] ports.free_list[i] != 0
}

/// Every session of `sessions` that runs holds a port, every port that a
/// session holds is among `in_use`, and no two sessions hold the same
/// port.
pub open spec fn ports_agree(sessions: Seq<(Seq<char>, EntryView)>, in_use: Set<u16>) -> bool {
    &&& forall|i: int|
        0 <= i < sessions.len() && (#[trigger] sessions[i]).1.is_running() ==> sessions[i].1.port
            != 0
    &&& forall|i: int|
        0 <= i < sessions.len() && (#[trigger] sessions[i]).1.port != 0 ==> in_use.contains(
            sessions[i].1.port,
        )
    &&& forall|i: int, j: int|
        0 <= i < sessions.len() && 0 <= j < sessions.len() && i != j && (
        #[trigger] sessions[i]).1.port != 0 ==> sessions[i].1.port != (#[trigger] sessions[j]).1.port
}

/// No session of `sessions` holds `port`.
pub open spec fn unheld(sessions: Seq<(Seq<char>, EntryView)>, port: u16) -> bool {
    forall|i: int| 0 <= i < sessions.len() ==> (#[trigger] sessions[i]).1.port != port
}

impl ManagerView {
    /// The table and the allocator agree: see [`ports_agree`]. Besides,
    /// the allocator never hands out port 0.
    pub open spec fn consistent(self) -> bool {
        &&& ports_agree(self.sessions, self.ports.in_use)
        &&& never_zero(self.ports)
    }

    /// `port` is handed out and no session of the table holds it: it is
    /// set aside for a process that is being started, or belongs to a
    /// record that a stop has taken out of the table.
    pub open spec fn reserved(self, port: u16) -> bool {
        &&& port != 0
        &&& self.ports.in_use.contains(port)
        &&& unheld(self.sessions, port)
    }

    /// `entry` is a record that is out of the table and fits it: if it
    /// runs it holds a port, and a port that it holds is reserved.
    pub open spec fn detached(self, entry: EntryView) -> bool {
        &&& entry.is_running() ==> entry.port != 0
        &&& entry.port != 0 ==> self.reserved(entry.port)
    }
}

/// In a consistent manager every session that runs holds a port other
/// than 0, and the allocator has that port handed out.
pub proof fn lemma_running_sessions_hold_ports(manager: ManagerView, key: Seq<char>)
    requires
        manager.consistent(),
        manager.contains(key),
        manager.entry(key).is_running(),
    ensures
        manager.entry(key).port != 0,
        manager.ports.in_use.contains(manager.entry(key).port),
{
    lemma_position(manager.keys(), key);
    assert(manager.sessions[manager.find(key)].1.is_running());
}

/// Handing out a port keeps the manager consistent, and the port is then
/// reserved.
pub proof fn lemma_allocation_consistent(pre: ManagerView, post: ManagerView, port: u16)
    requires
        pre.wf(),
        pre.consistent(),
        post.sessions == pre.sessions,
        port_step(pre.ports, PortEvent::Allocated(port), post.ports),
    ensures
        post.consistent(),
        post.reserved(port),
{
    let k = choose|k: int|
        0 <= k < pre.ports.candidates().len() && #[trigger] pre.ports.candidates()[k] == port
            && post.ports == pre.ports.claimed(k);
    crate::port_allocator::lemma_port_step(pre.ports, PortEvent::Allocated(port), post.ports);
    if k < pre.ports.free_list.len() {
        assert(port == pre.ports.free_list[k]);
        assert forall|i: int| 0 <= i < post.ports.free_list.len() implies #[trigger] post.ports.free_list[i]
            != 0 by {
            assert(post.ports.free_list[i] == pre.ports.free_list[k + 1 + i]);
        }
    }
    assert forall|i: int| 0 <= i < post.sessions.len() implies (#[trigger] post.sessions[i]).1.port
        != port by {
        if pre.sessions[i].1.port != 0 {
            assert(pre.ports.in_use.contains(pre.sessions[i].1.port));
        }
    }
}

/// An allocation that found no port keeps the manager consistent.
pub proof fn lemma_refusal_consistent(pre: ManagerView)
    requires
        pre.consistent(),
    ensures
        pre.with_ports(pre.ports.exhausted()).consistent(),
{
}

/// A record that fits the table may join it.
pub proof fn lemma_joined_consistent(pre: ManagerView, key: Seq<char>, entry: EntryView)
    requires
        pre.wf(),
        pre.consistent(),
        pre.detached(entry),
    ensures
        pre.with(key, entry).consistent(),
{
    let post = pre.with(key, entry);
    lemma_position(pre.keys(), key);
    let at = pre.find(key);
    assert forall|i: int| 0 <= i < post.sessions.len() implies (i == at && post.sessions[i].1
        == entry) || (i != at && i < pre.sessions.len() && (#[trigger] post.sessions[i])
        == pre.sessions[i]) by {}
    assert forall|i: int, j: int|
        0 <= i < post.sessions.len() && 0 <= j < post.sessions.len() && i != j && (
        #[trigger] post.sessions[i]).1.port != 0 implies post.sessions[i].1.port != (
    #[trigger] post.sessions[j]).1.port by {
        if i != at && j != at {
            assert(post.sessions[i] == pre.sessions[i]);
            assert(post.sessions[j] == pre.sessions[j]);
        } else if i == at {
            assert(post.sessions[j] == pre.sessions[j]);
        } else {
            assert(post.sessions[i] == pre.sessions[i]);
        }
    }
}

/// A process that was started on a reserved port may join the table.
pub proof fn lemma_started_consistent(pre: ManagerView, key: Seq<char>, port: u16, now: u64)
    requires
        pre.wf(),
        pre.consistent(),
        pre.reserved(port),
    ensures
        pre.with(key, EntryView::started(port, now)).consistent(),
{
    lemma_joined_consistent(pre, key, EntryView::started(port, now));
}

/// A reserved port may go back to the allocator.
pub proof fn lemma_release_consistent(pre: ManagerView, port: u16)
    requires
        pre.consistent(),
        port == 0 || pre.reserved(port),
    ensures
        pre.release(port).consistent(),
        unheld(pre.release(port).sessions, port) || port == 0,
{
    let post = pre.release(port);
    if pre.ports.in_use.contains(port) {
        assert forall|i: int| 0 <= i < post.ports.free_list.len() implies #[trigger] post.ports.free_list[i]
            != 0 by {
            if i < pre.ports.free_list.len() {
                assert(post.ports.free_list[i] == pre.ports.free_list[i]);
            }
        }
    }
}

/// Taking a session out of the table keeps the manager consistent, and
/// the record that was taken out fits the table: a port that it held is
/// then reserved.
pub proof fn lemma_without_consistent(pre: ManagerView, key: Seq<char>)
    requires
        pre.wf(),
        pre.consistent(),
    ensures
        pre.without(key).consistent(),
        pre.contains(key) ==> pre.without(key).detached(pre.entry(key)),
        forall|now: u64|
            pre.contains(key) ==> #[trigger] pre.without(key).detached(
                pre.entry(key).touched(now),
            ),
{
    let post = pre.without(key);
    lemma_position(pre.keys(), key);
    if pre.contains(key) {
        let at = pre.find(key);
        assert forall|i: int| 0 <= i < post.sessions.len() implies #[trigger] post.sessions[i]
            == pre.sessions[if i < at {
            i
        } else {
            i + 1
        }] by {}
        assert forall|i: int, j: int|
            0 <= i < post.sessions.len() && 0 <= j < post.sessions.len() && i != j && (
            #[trigger] post.sessions[i]).1.port != 0 implies post.sessions[i].1.port != (
        #[trigger] post.sessions[j]).1.port by {
            let a = if i < at { i } else { i + 1 };
            let b = if j < at { j } else { j + 1 };
            assert(post.sessions[i] == pre.sessions[a]);
            assert(post.sessions[j] == pre.sessions[b]);
        }
        let port = pre.sessions[at].1.port;
        if port != 0 {
            assert forall|i: int| 0 <= i < post.sessions.len() implies (
            #[trigger] post.sessions[i]).1.port != port by {
                let a = if i < at { i } else { i + 1 };
                assert(post.sessions[i] == pre.sessions[a]);
            }
        }
    }
}

/// A touch changes nothing that the agreement speaks of.
pub proof fn lemma_touched_consistent(pre: ManagerView, key: Seq<char>, now: u64)
    requires
        pre.wf(),
        pre.consistent(),
        pre.contains(key),
    ensures
        pre.with(key, pre.entry(key).touched(now)).consistent(),
{
    let post = pre.with(key, pre.entry(key).touched(now));
    let at = pre.find(key);
    lemma_position(pre.keys(), key);
    assert forall|i: int| 0 <= i < post.sessions.len() implies (#[trigger] post.sessions[i]).1.port
        == pre.sessions[i].1.port && post.sessions[i].1.is_running()
        == pre.sessions[i].1.is_running() by {}
}

/// Touching every session changes nothing that the agreement speaks of.
pub proof fn lemma_touched_all_consistent(pre: ManagerView, now: u64)
    requires
        pre.consistent(),
    ensures
        (ManagerView { sessions: touched_all(pre.sessions, now), ..pre }).consistent(),
{
    let post = ManagerView { sessions: touched_all(pre.sessions, now), ..pre };
    assert forall|i: int| 0 <= i < post.sessions.len() implies (#[trigger] post.sessions[i]).1.port
        == pre.sessions[i].1.port && post.sessions[i].1.is_running()
        == pre.sessions[i].1.is_running() by {}
}

/// What a sweep does to the allocator: it stays well formed and never
/// hands out port 0, and a port stays handed out unless an exited session
/// held it.
pub proof fn lemma_ports_settled(
    ports: PortAllocatorView,
    sessions: Seq<(Seq<char>, EntryView)>,
)
    requires
        ports.wf(),
        never_zero(ports),
    ensures
        ports_settled(ports, sessions).wf(),
        never_zero(ports_settled(ports, sessions)),
        forall|port: u16| #[trigger]
            ports_settled(ports, sessions).in_use.contains(port) ==> ports.in_use.contains(port),
        forall|port: u16|
            ports.in_use.contains(port) && (forall|i: int|
                0 <= i < sessions.len() && !(#[trigger] sessions[i]).1.is_running()
                    ==> sessions[i].1.port != port) ==> #[trigger] ports_settled(
                ports,
                sessions,
            ).in_use.contains(port),
    decreases sessions.len(),
{
    if sessions.len() > 0 {
        let rest = sessions.drop_last();
        lemma_ports_settled(ports, rest);
        let before = ports_settled(ports, rest);
        let entry = sessions.last().1;
        let after = ports_settled(ports, sessions);
        if !entry.is_running() && entry.port != 0 {
            crate::port_allocator::lemma_port_step(before, PortEvent::Freed(entry.port), after);
            if before.in_use.contains(entry.port) {
                assert forall|i: int| 0 <= i < after.free_list.len() implies #[trigger] after.free_list[i]
                    != 0 by {
                    if i < before.free_list.len() {
                        assert(after.free_list[i] == before.free_list[i]);
                    }
                }
            }
        }
        assert forall|port: u16|
            ports.in_use.contains(port) && (forall|i: int|
                0 <= i < sessions.len() && !(#[trigger] sessions[i]).1.is_running()
                    ==> sessions[i].1.port != port) implies #[trigger] after.in_use.contains(
            port,
        ) by {
            assert forall|i: int|
                0 <= i < rest.len() && !(#[trigger] rest[i]).1.is_running() implies rest[i].1.port
                != port by {
                assert(rest[i] == sessions[i]);
            }
            assert(before.in_use.contains(port));
            assert(sessions[sessions.len() - 1] == sessions.last());
        }
    }
}

/// A sweep keeps the manager well formed and consistent.
pub proof fn lemma_swept_consistent(pre: ManagerView, exited: Seq<Seq<char>>, now: u64)
    requires
        pre.wf(),
        pre.consistent(),
    ensures
        pre.swept(exited, now).wf(),
        pre.swept(exited, now).consistent(),
{
    let polled = polled_all(pre.sessions, exited, now);
    let post = pre.swept(exited, now);
    lemma_ports_settled(pre.ports, polled);
    assert(post.keys() =~= pre.keys());
    assert forall|i: int| 0 <= i < post.sessions.len() implies ((
    #[trigger] post.sessions[i]).1.is_running() ==> post.sessions[i].1.port != 0) && (
    post.sessions[i].1.port != 0 ==> post.sessions[i].1.is_running() && post.sessions[i].1.port
        == pre.sessions[i].1.port && post.ports.in_use.contains(post.sessions[i].1.port)) by {
        let port = post.sessions[i].1.port;
        if port != 0 {
            assert(pre.sessions[i].1.port == port);
            assert(polled[i].1.is_running());
            assert forall|j: int|
                0 <= j < polled.len() && !(#[trigger] polled[j]).1.is_running() implies polled[j].1.port
                != port by {
                assert(polled[j].1.port == pre.sessions[j].1.port);
                assert(pre.sessions[i].1.port != 0);
            }
        }
    }
    assert forall|i: int, j: int|
        0 <= i < post.sessions.len() && 0 <= j < post.sessions.len() && i != j && (
        #[trigger] post.sessions[i]).1.port != 0 implies post.sessions[i].1.port != (
    #[trigger] post.sessions[j]).1.port by {
        assert(post.sessions[i].1.port == pre.sessions[i].1.port);
        assert(post.sessions[j].1.port == pre.sessions[j].1.port || post.sessions[j].1.port == 0);
    }
}

/// Forgetting a session keeps the manager well formed and consistent.
pub proof fn lemma_pruned_consistent(pre: ManagerView, key: Seq<char>)
    requires
        pre.wf(),
        pre.consistent(),
    ensures
        pre.pruned(key).wf(),
        pre.pruned(key).consistent(),
{
    crate::manager::lemma_without(pre, key);
    lemma_without_consistent(pre, key);
    if pre.contains(key) && pre.entry(key).port != 0 {
        let port = pre.entry(key).port;
        lemma_release_consistent(pre.without(key), port);
        crate::port_allocator::lemma_port_step(
            pre.ports,
            PortEvent::Freed(port),
            pre.ports.released(port),
        );
        assert(pre.pruned(key).keys() == pre.without(key).keys());
    }
}

/// A record that a stop took out of a consistent table may return,
/// whatever the stop came to. If the process is gone the record comes
/// back exited and without its port; if not, it comes back as it left.
pub proof fn lemma_returned_consistent(
    pre: ManagerView,
    key: Seq<char>,
    entry: EntryView,
    outcome: StopOutcome,
    now: u64,
)
    requires
        pre.wf(),
        pre.consistent(),
        pre.detached(entry),
    ensures
        pre.returned(key, entry, outcome, now).wf(),
        pre.returned(key, entry, outcome, now).consistent(),
{
    if entry.stop_result(outcome) is None {
        let released = pre.release(entry.port);
        let settled = entry.stopped(outcome, now).without_port();
        lemma_release_consistent(pre, entry.port);
        crate::port_allocator::lemma_port_step(
            pre.ports,
            PortEvent::Freed(entry.port),
            pre.ports.released(entry.port),
        );
        assert(released.keys() == pre.keys());
        lemma_joined_consistent(released, key, settled);
        crate::manager::lemma_with(released, key, settled);
    } else {
        lemma_joined_consistent(pre, key, entry);
        crate::manager::lemma_with(pre, key, entry);
    }
}

/// A reserved port stays reserved while another port is handed out.
pub proof fn lemma_reserved_across_allocation(
    pre: ManagerView,
    post: ManagerView,
    port: u16,
    other: u16,
)
    requires
        pre.ports.wf(),
        pre.reserved(other),
        post.sessions == pre.sessions,
        port_step(pre.ports, PortEvent::Allocated(port), post.ports),
    ensures
        post.reserved(other),
        port != other,
{
    crate::port_allocator::lemma_port_step(pre.ports, PortEvent::Allocated(port), post.ports);
}

/// A reserved port stays reserved when a record that does not hold it
/// joins the table.
pub proof fn lemma_reserved_across_with(
    pre: ManagerView,
    key: Seq<char>,
    entry: EntryView,
    other: u16,
)
    requires
        pre.reserved(other),
        entry.port != other,
    ensures
        pre.with(key, entry).reserved(other),
{
    let post = pre.with(key, entry);
    lemma_position(pre.keys(), key);
    let at = pre.find(key);
    assert forall|i: int| 0 <= i < post.sessions.len() implies (#[trigger] post.sessions[i]).1.port
        != other by {
        if i != at {
            assert(post.sessions[i] == pre.sessions[i]);
        }
    }
}

/// A reserved port stays reserved when a session leaves the table.
pub proof fn lemma_reserved_across_without(pre: ManagerView, key: Seq<char>, other: u16)
    requires
        pre.reserved(other),
    ensures
        pre.without(key).reserved(other),
{
    let post = pre.without(key);
    lemma_position(pre.keys(), key);
    if pre.contains(key) {
        let at = pre.find(key);
        assert forall|i: int| 0 <= i < post.sessions.len() implies (
        #[trigger] post.sessions[i]).1.port != other by {
            let a = if i < at { i } else { i + 1 };
            assert(post.sessions[i] == pre.sessions[a]);
        }
    }
}

/// A reserved port stays reserved when another port goes back to the
/// allocator.
pub proof fn lemma_reserved_across_release(pre: ManagerView, port: u16, other: u16)
    requires
        pre.reserved(other),
        port != other,
    ensures
        pre.release(port).reserved(other),
{
}

/// A reserved port stays reserved across a sweep.
pub proof fn lemma_reserved_across_sweep(
    pre: ManagerView,
    exited: Seq<Seq<char>>,
    now: u64,
    other: u16,
)
    requires
        pre.wf(),
        pre.consistent(),
        pre.reserved(other),
    ensures
        pre.swept(exited, now).reserved(other),
{
    let polled = polled_all(pre.sessions, exited, now);
    let post = pre.swept(exited, now);
    lemma_ports_settled(pre.ports, polled);
    assert forall|j: int|
        0 <= j < polled.len() && !(#[trigger] polled[j]).1.is_running() implies polled[j].1.port
        != other by {
        assert(polled[j].1.port == pre.sessions[j].1.port);
    }
    assert forall|i: int| 0 <= i < post.sessions.len() implies (#[trigger] post.sessions[i]).1.port
        != other by {
        assert(post.sessions[i].1.port == pre.sessions[i].1.port || post.sessions[i].1.port == 0);
    }
}

/// A reserved port stays reserved when a session is forgotten.
pub proof fn lemma_reserved_across_prune(pre: ManagerView, key: Seq<char>, other: u16)
    requires
        pre.wf(),
        pre.reserved(other),
    ensures
        pre.pruned(key).reserved(other),
{
    lemma_reserved_across_without(pre, key, other);
    lemma_position(pre.keys(), key);
}

/// A reserved port stays reserved when clients touch sessions.
pub proof fn lemma_reserved_across_touch(pre: ManagerView, now: u64, other: u16)
    requires
        pre.reserved(other),
    ensures
        (ManagerView { sessions: touched_all(pre.sessions, now), ..pre }).reserved(other),
        forall|key: Seq<char>|
            pre.contains(key) ==> #[trigger] pre.with(key, pre.entry(key).touched(now)).reserved(
                other,
            ),
{
    assert forall|key: Seq<char>| pre.contains(key) implies #[trigger] pre.with(
        key,
        pre.entry(key).touched(now),
    ).reserved(other) by {
        lemma_position(pre.keys(), key);
        lemma_reserved_across_with(pre, key, pre.entry(key).touched(now), other);
    }
}

} // verus!
