//! The manager and the tickets that are out, taken together.
//!
//! While a start or a stop is under way, a ticket holds a port that no
//! session of the table holds. The lemmas here follow those ports through
//! every step and show that the table and the allocator agree after each
//! of them, whatever happens in between to other sessions.

use crate::consistency::{
    lemma_allocation_consistent, lemma_pruned_consistent, lemma_refusal_consistent,
    lemma_release_consistent, lemma_reserved_across_allocation, lemma_reserved_across_prune,
    lemma_reserved_across_release, lemma_reserved_across_sweep, lemma_reserved_across_touch,
    lemma_reserved_across_with, lemma_reserved_across_without, lemma_started_consistent,
    lemma_returned_consistent, lemma_swept_consistent, lemma_touched_all_consistent,
    lemma_touched_consistent, lemma_without_consistent,
};
use crate::keyed::lemma_position;
use crate::manager::{lemma_with, lemma_without, touched_all, ManagerView};
use crate::port_allocator::{lemma_port_step, port_step, PortEvent};
use crate::server_entry::{EntryView, StopOutcome};
use vstd::prelude::*;

verus! {

/// A manager together with the ports that tickets hold at the moment.
pub struct SystemView {
    pub manager: ManagerView,
    /// The ports of the tickets that are out.
    pub held: Set<u16>,
}

impl SystemView {
    /// The manager is well formed, its table and its allocator agree, and
    /// every port that a ticket holds is reserved.
    pub open spec fn sound(self) -> bool {
        &&& self.manager.wf()
        &&& self.manager.consistent()
        &&& forall|port: u16| self.held.contains(port) ==> #[trigger] self.manager.reserved(port)
    }

    /// A start has allocated `port` and handed out its ticket.
    pub open spec fn ticket_issued(self, manager: ManagerView, port: u16) -> SystemView {
        SystemView { manager, held: self.held.insert(port) }
    }

    /// The process of a start runs: its record joins the table.
    pub open spec fn start_finished(self, key: Seq<char>, port: u16, now: u64) -> SystemView {
        SystemView {
            manager: self.manager.with(key, EntryView::started(port, now)),
            held: self.held.remove(port),
        }
    }

    /// The process of a start does not run: its port goes back.
    pub open spec fn start_abandoned(self, port: u16) -> SystemView {
        SystemView { manager: self.manager.release(port), held: self.held.remove(port) }
    }

    /// A stop has taken the session `key` out of the table.
    pub open spec fn stop_begun(self, key: Seq<char>) -> SystemView {
        SystemView {
            manager: self.manager.without(key),
            held: if self.manager.contains(key) && self.manager.entry(key).port != 0 {
                self.held.insert(self.manager.entry(key).port)
            } else {
                self.held
            },
        }
    }

    /// `entry` is the record of a ticket that is out: if it runs it holds
    /// a port, and a port that it holds is among those of the tickets.
    pub open spec fn holds(self, entry: EntryView) -> bool {
        &&& entry.is_running() ==> entry.port != 0
        &&& entry.port != 0 ==> self.held.contains(entry.port)
    }

    /// A stop has come to `outcome` and its record returns to the table:
    /// exited and without its port if the process is gone, as it left if
    /// not. (A client's stop that failed changes nothing: its record does
    /// not return and its port stays with the ticket.)
    pub open spec fn stop_finished(
        self,
        key: Seq<char>,
        entry: EntryView,
        outcome: StopOutcome,
        now: u64,
    ) -> SystemView {
        SystemView {
            manager: self.manager.returned(key, entry, outcome, now),
            held: self.held.remove(entry.port),
        }
    }
}

/// A manager without sessions and without tickets is sound.
pub proof fn lemma_initial_sound(manager: ManagerView)
    requires
        manager.wf(),
        manager.consistent(),
    ensures
        (SystemView { manager, held: Set::empty() }).sound(),
{
}

/// Handing out the ticket of a start keeps the system sound.
pub proof fn lemma_ticket_issued_sound(system: SystemView, manager: ManagerView, port: u16)
    requires
        system.sound(),
        manager.sessions == system.manager.sessions,
        port_step(system.manager.ports, PortEvent::Allocated(port), manager.ports),
    ensures
        system.ticket_issued(manager, port).sound(),
        !system.held.contains(port),
{
    lemma_allocation_consistent(system.manager, manager, port);
    lemma_port_step(system.manager.ports, PortEvent::Allocated(port), manager.ports);
    assert(manager.keys() == system.manager.keys());
    assert forall|other: u16| system.ticket_issued(manager, port).held.contains(
        other,
    ) implies #[trigger] manager.reserved(other) by {
        if other != port {
            assert(system.manager.reserved(other));
            lemma_reserved_across_allocation(system.manager, manager, port, other);
        }
    }
    if system.held.contains(port) {
        assert(system.manager.reserved(port));
    }
}

/// An allocation that found no port keeps the system sound.
pub proof fn lemma_refusal_sound(system: SystemView)
    requires
        system.sound(),
    ensures
        (SystemView {
            manager: system.manager.with_ports(system.manager.ports.exhausted()),
            ..system
        }).sound(),
{
    lemma_refusal_consistent(system.manager);
    lemma_port_step(system.manager.ports, PortEvent::Refused, system.manager.ports.exhausted());
    let after = system.manager.with_ports(system.manager.ports.exhausted());
    assert(after.keys() == system.manager.keys());
    assert forall|other: u16| system.held.contains(other) implies #[trigger] after.reserved(
        other,
    ) by {
        assert(system.manager.reserved(other));
    }
}

/// The second step of a start keeps the system sound, whether the
/// process runs or not.
pub proof fn lemma_start_finished_sound(system: SystemView, key: Seq<char>, port: u16, now: u64)
    requires
        system.sound(),
        system.held.contains(port),
    ensures
        system.start_finished(key, port, now).sound(),
        system.start_abandoned(port).sound(),
{
    assert(system.manager.reserved(port));
    lemma_started_consistent(system.manager, key, port, now);
    lemma_with(system.manager, key, EntryView::started(port, now));
    lemma_release_consistent(system.manager, port);
    lemma_port_step(
        system.manager.ports,
        PortEvent::Freed(port),
        system.manager.ports.released(port),
    );
    let started = system.start_finished(key, port, now);
    assert forall|other: u16| started.held.contains(other) implies #[trigger] started.manager.reserved(
        other,
    ) by {
        assert(system.manager.reserved(other));
        lemma_reserved_across_with(system.manager, key, EntryView::started(port, now), other);
    }
    let abandoned = system.start_abandoned(port);
    assert(abandoned.manager.keys() == system.manager.keys());
    assert forall|other: u16| abandoned.held.contains(
        other,
    ) implies #[trigger] abandoned.manager.reserved(other) by {
        assert(system.manager.reserved(other));
        lemma_reserved_across_release(system.manager, port, other);
    }
}

/// The first step of a stop keeps the system sound, and the record that
/// it takes out is then the record of a ticket.
pub proof fn lemma_stop_begun_sound(system: SystemView, key: Seq<char>)
    requires
        system.sound(),
    ensures
        system.stop_begun(key).sound(),
        system.manager.contains(key) ==> system.stop_begun(key).holds(system.manager.entry(key)),
{
    lemma_without(system.manager, key);
    lemma_without_consistent(system.manager, key);
    lemma_position(system.manager.keys(), key);
    let after = system.stop_begun(key);
    assert forall|other: u16| after.held.contains(other) implies #[trigger] after.manager.reserved(
        other,
    ) by {
        if system.held.contains(other) {
            assert(system.manager.reserved(other));
            lemma_reserved_across_without(system.manager, key, other);
        }
    }
}

/// The return of a stopped record keeps the system sound, whatever the
/// stop came to.
pub proof fn lemma_stop_finished_sound(
    system: SystemView,
    key: Seq<char>,
    entry: EntryView,
    outcome: StopOutcome,
    now: u64,
)
    requires
        system.sound(),
        system.holds(entry),
    ensures
        system.stop_finished(key, entry, outcome, now).sound(),
{
    if entry.port != 0 {
        assert(system.manager.reserved(entry.port));
    }
    lemma_returned_consistent(system.manager, key, entry, outcome, now);
    let after = system.stop_finished(key, entry, outcome, now);
    assert forall|other: u16| after.held.contains(other) implies #[trigger] after.manager.reserved(
        other,
    ) by {
        assert(system.manager.reserved(other));
        if entry.stop_result(outcome) is None {
            let settled = entry.stopped(outcome, now).without_port();
            let released = system.manager.release(entry.port);
            lemma_reserved_across_release(system.manager, entry.port, other);
            lemma_reserved_across_with(released, key, settled, other);
        } else {
            lemma_reserved_across_with(system.manager, key, entry, other);
        }
    }
}

/// A sweep keeps the system sound.
pub proof fn lemma_sweep_sound(system: SystemView, exited: Seq<Seq<char>>, now: u64)
    requires
        system.sound(),
    ensures
        (SystemView { manager: system.manager.swept(exited, now), ..system }).sound(),
{
    lemma_swept_consistent(system.manager, exited, now);
    let after = system.manager.swept(exited, now);
    assert forall|other: u16| system.held.contains(other) implies #[trigger] after.reserved(
        other,
    ) by {
        assert(system.manager.reserved(other));
        lemma_reserved_across_sweep(system.manager, exited, now, other);
    }
}

/// Forgetting a session keeps the system sound.
pub proof fn lemma_prune_sound(system: SystemView, key: Seq<char>)
    requires
        system.sound(),
    ensures
        (SystemView { manager: system.manager.pruned(key), ..system }).sound(),
{
    lemma_pruned_consistent(system.manager, key);
    let after = system.manager.pruned(key);
    assert forall|other: u16| system.held.contains(other) implies #[trigger] after.reserved(
        other,
    ) by {
        assert(system.manager.reserved(other));
        lemma_reserved_across_prune(system.manager, key, other);
    }
}

/// A client's touch, of one session or of all, keeps the system sound.
pub proof fn lemma_touch_sound(system: SystemView, key: Seq<char>, now: u64)
    requires
        system.sound(),
    ensures
        system.manager.contains(key) ==> (SystemView {
            manager: system.manager.with(key, system.manager.entry(key).touched(now)),
            ..system
        }).sound(),
        (SystemView {
            manager: ManagerView {
                sessions: touched_all(system.manager.sessions, now),
                ..system.manager
            },
            ..system
        }).sound(),
{
    lemma_touched_all_consistent(system.manager, now);
    let all = ManagerView { sessions: touched_all(system.manager.sessions, now), ..system.manager };
    assert(all.keys() =~= system.manager.keys());
    assert forall|other: u16| system.held.contains(other) implies #[trigger] all.reserved(
        other,
    ) by {
        assert(system.manager.reserved(other));
        lemma_reserved_across_touch(system.manager, now, other);
    }
    if system.manager.contains(key) {
        let one = system.manager.with(key, system.manager.entry(key).touched(now));
        lemma_touched_consistent(system.manager, key, now);
        lemma_with(system.manager, key, system.manager.entry(key).touched(now));
        assert forall|other: u16| system.held.contains(other) implies #[trigger] one.reserved(
            other,
        ) by {
            assert(system.manager.reserved(other));
            lemma_reserved_across_touch(system.manager, now, other);
        }
    }
}

} // verus!
