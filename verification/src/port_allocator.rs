//! A reclaimable allocator of loopback TCP ports.
//!
//! Ports are handed out from a queue of returned ports first and from a
//! rising cursor afterwards. Whether a candidate can actually be bound is
//! not known here: the caller supplies a probe, and a port is handed out
//! only if the probe accepted it.

use std::collections::{HashSet, VecDeque};
use vstd::prelude::*;

verus! {

/// First port of the cursor in a freshly made session manager.
pub const PORT_START: u16 = 3010;

/// Why no port could be allocated.
#[derive(Debug)]
pub enum AllocError {
    /// The cursor has reached the largest 16-bit value.
    Overflow,
}

impl AllocError {
    /// The text that describes the failure.
    pub fn message(&self) -> (text: String)
        ensures
            text@ == overflow_message(),
    {
        "Port allocation overflow - no more ports available".to_owned()
    }
}

/// The text of the one allocation failure there is.
pub open spec fn overflow_message() -> Seq<char> {
    "Port allocation overflow - no more ports available"@
}

/// The allocator as a mathematical value.
pub struct PortAllocatorView {
    /// The next port that the cursor will try.
    pub next_port: u16,
    /// Returned ports, in the order in which they came back.
    pub free_list: Seq<u16>,
    /// Ports that are handed out at the moment.
    pub in_use: Set<u16>,
}

impl PortAllocatorView {
    /// The queue holds no port twice and none that is handed out, and the
    /// cursor lies above every port that the allocator knows.
    pub open spec fn wf(self) -> bool {
        &&& self.in_use.finite()
        &&& self.free_list.no_duplicates()
        &&& forall|i: int|
            0 <= i < self.free_list.len() ==> !self.in_use.contains(#[trigger] self.free_list[i])
                && self.free_list[i] < self.next_port
        &&& forall|port: u16| #[trigger] self.in_use.contains(port) ==> port < self.next_port
    }

    /// The ports that an allocation tries, in the order in which it tries
    /// them: the queue of returned ports, then the cursor's ports up to,
    /// but not including, the largest 16-bit value.
    pub open spec fn candidates(self) -> Seq<u16> {
        self.free_list + Seq::new(
            (u16::MAX - self.next_port) as nat,
            |i: int| (self.next_port + i) as u16,
        )
    }

    /// The allocator after it has handed out its `k`-th candidate: every
    /// earlier candidate is gone for good.
    pub open spec fn claimed(self, k: int) -> PortAllocatorView {
        let port = self.candidates()[k];
        if k < self.free_list.len() {
            PortAllocatorView {
                next_port: self.next_port,
                free_list: self.free_list.subrange(k + 1, self.free_list.len() as int),
                in_use: self.in_use.insert(port),
            }
        } else {
            PortAllocatorView {
                next_port: (port + 1) as u16,
                free_list: Seq::empty(),
                in_use: self.in_use.insert(port),
            }
        }
    }

    /// The allocator after an allocation that found no port.
    pub open spec fn exhausted(self) -> PortAllocatorView {
        PortAllocatorView { next_port: u16::MAX, free_list: Seq::empty(), in_use: self.in_use }
    }

    /// The allocator after `port` has been given back.
    pub open spec fn released(self, port: u16) -> PortAllocatorView {
        if self.in_use.contains(port) {
            PortAllocatorView {
                next_port: self.next_port,
                free_list: self.free_list.push(port),
                in_use: self.in_use.remove(port),
            }
        } else {
            self
        }
    }
}

/// The probe answered `false` for each of the first `k` candidates.
pub open spec fn rejected<F: Fn(u16) -> bool>(probe: F, candidates: Seq<u16>, k: int) -> bool {
    forall|j: int| 0 <= j < k ==> call_ensures(probe, (#[trigger] candidates[j],), false)
}

/// An allocation that took the allocator from `pre` to `post` and handed
/// out `port`: `port` is the first candidate that the probe accepted.
pub open spec fn allocated<F: Fn(u16) -> bool>(
    pre: PortAllocatorView,
    post: PortAllocatorView,
    port: u16,
    probe: F,
) -> bool {
    exists|k: int|
        0 <= k < pre.candidates().len() && #[trigger] pre.candidates()[k] == port && rejected(
            probe,
            pre.candidates(),
            k,
        ) && call_ensures(probe, (port,), true) && post == pre.claimed(k)
}

/// An allocation that took the allocator from `pre` to `post` and found no
/// port: the probe turned every candidate down.
pub open spec fn refused<F: Fn(u16) -> bool>(
    pre: PortAllocatorView,
    post: PortAllocatorView,
    probe: F,
) -> bool {
    rejected(probe, pre.candidates(), pre.candidates().len() as int) && post == pre.exhausted()
}

/// One thing that happened to an allocator.
pub enum PortEvent {
    /// An allocation handed out this port.
    Allocated(u16),
    /// An allocation found no port.
    Refused,
    /// This port was given back.
    Freed(u16),
}

/// `event` takes the allocator from `pre` to `post`.
pub open spec fn port_step(pre: PortAllocatorView, event: PortEvent, post: PortAllocatorView) -> bool {
    match event {
        PortEvent::Allocated(port) => exists|k: int|
            0 <= k < pre.candidates().len() && #[trigger] pre.candidates()[k] == port && post
                == pre.claimed(k),
        PortEvent::Refused => post == pre.exhausted(),
        PortEvent::Freed(port) => post == pre.released(port),
    }
}

/// `states` and `events` record a run of an allocator that started well
/// formed: each event leads from one state to the next.
pub open spec fn port_history(states: Seq<PortAllocatorView>, events: Seq<PortEvent>) -> bool {
    &&& states.len() == events.len() + 1
    &&& states[0].wf()
    &&& forall|i: int|
        0 <= i < events.len() ==> port_step(states[i], #[trigger] events[i], states[i + 1])
}

/// What `allocate` promises on success is an `Allocated` step.
pub proof fn lemma_allocated_is_step<F: Fn(u16) -> bool>(
    pre: PortAllocatorView,
    post: PortAllocatorView,
    port: u16,
    probe: F,
)
    requires
        allocated(pre, post, port, probe),
    ensures
        port_step(pre, PortEvent::Allocated(port), post),
{
    let k = choose|k: int|
        0 <= k < pre.candidates().len() && #[trigger] pre.candidates()[k] == port && rejected(
            probe,
            pre.candidates(),
            k,
        ) && call_ensures(probe, (port,), true) && post == pre.claimed(k);
    assert(pre.candidates()[k] == port && post == pre.claimed(k));
}

/// Every step keeps the allocator well formed. A port that is handed out
/// was not handed out before the step and is handed out after it; a port
/// stays handed out across every step but its own release.
pub proof fn lemma_port_step(pre: PortAllocatorView, event: PortEvent, post: PortAllocatorView)
    requires
        pre.wf(),
        port_step(pre, event, post),
    ensures
        post.wf(),
        event matches PortEvent::Allocated(port) ==> !pre.in_use.contains(port)
            && post.in_use.contains(port),
        event matches PortEvent::Freed(port) ==> !post.in_use.contains(port),
        forall|held: u16|
            pre.in_use.contains(held) && event != PortEvent::Freed(held)
                ==> #[trigger] post.in_use.contains(held),
{
    match event {
        PortEvent::Allocated(port) => {
            let k = choose|k: int|
                0 <= k < pre.candidates().len() && #[trigger] pre.candidates()[k] == port && post
                    == pre.claimed(k);
            if k < pre.free_list.len() {
                assert(port == pre.free_list[k]);
                assert forall|i: int| 0 <= i < post.free_list.len() implies !post.in_use.contains(
                    #[trigger] post.free_list[i],
                ) && post.free_list[i] < post.next_port by {
                    assert(post.free_list[i] == pre.free_list[k + 1 + i]);
                }
                assert forall|a: int, b: int|
                    0 <= a < post.free_list.len() && 0 <= b < post.free_list.len() && a
                        != b implies post.free_list[a] != post.free_list[b] by {
                    assert(post.free_list[a] == pre.free_list[k + 1 + a]);
                    assert(post.free_list[b] == pre.free_list[k + 1 + b]);
                }
            } else {
                assert(port == pre.next_port + (k - pre.free_list.len()));
            }
        },
        PortEvent::Refused => {},
        PortEvent::Freed(port) => {
            if pre.in_use.contains(port) {
                assert forall|a: int, b: int|
                    0 <= a < post.free_list.len() && 0 <= b < post.free_list.len() && a
                        != b implies post.free_list[a] != post.free_list[b] by {
                    if a < pre.free_list.len() {
                        assert(post.free_list[a] == pre.free_list[a]);
                    }
                    if b < pre.free_list.len() {
                        assert(post.free_list[b] == pre.free_list[b]);
                    }
                }
                assert forall|i: int| 0 <= i < post.free_list.len() implies !post.in_use.contains(
                    #[trigger] post.free_list[i],
                ) && post.free_list[i] < post.next_port by {
                    if i < pre.free_list.len() {
                        assert(post.free_list[i] == pre.free_list[i]);
                    }
                }
            }
        },
    }
}

/// Every state of a run is well formed.
pub proof fn lemma_port_history_wf(
    states: Seq<PortAllocatorView>,
    events: Seq<PortEvent>,
    n: int,
)
    requires
        port_history(states, events),
        0 <= n <= events.len(),
    ensures
        states[n].wf(),
    decreases n,
{
    if n > 0 {
        lemma_port_history_wf(states, events, n - 1);
        assert(port_step(states[n - 1], events[n - 1], states[n]));
        lemma_port_step(states[n - 1], events[n - 1], states[n]);
    }
}

/// No port is handed out twice unless it was given back in between: if two
/// allocations of a run hand out the same port, a release of that port
/// lies between them.
pub proof fn lemma_no_port_handed_out_twice(
    states: Seq<PortAllocatorView>,
    events: Seq<PortEvent>,
    first: int,
    second: int,
    port: u16,
)
    requires
        port_history(states, events),
        0 <= first < second < events.len(),
        events[first] == PortEvent::Allocated(port),
        events[second] == PortEvent::Allocated(port),
    ensures
        exists|between: int|
            first < between < second && #[trigger] events[between] == PortEvent::Freed(port),
{
    if !exists|between: int|
        first < between < second && #[trigger] events[between] == PortEvent::Freed(port) {
        lemma_port_held(states, events, first, second, port);
        lemma_port_history_wf(states, events, second);
        assert(port_step(states[second], events[second], states[second + 1]));
        lemma_port_step(states[second], events[second], states[second + 1]);
    }
}

/// A port that was handed out stays handed out for as long as no release
/// of it occurs.
pub proof fn lemma_port_held(
    states: Seq<PortAllocatorView>,
    events: Seq<PortEvent>,
    first: int,
    until: int,
    port: u16,
)
    requires
        port_history(states, events),
        0 <= first < until <= events.len(),
        events[first] == PortEvent::Allocated(port),
        forall|between: int|
            first < between < until ==> #[trigger] events[between] != PortEvent::Freed(port),
    ensures
        states[until].in_use.contains(port),
    decreases until,
{
    lemma_port_history_wf(states, events, until - 1);
    assert(port_step(states[until - 1], events[until - 1], states[until]));
    lemma_port_step(states[until - 1], events[until - 1], states[until]);
    if until - 1 > first {
        lemma_port_held(states, events, first, until - 1, port);
    }
}

/// Hands out loopback ports and takes them back.
pub struct PortAllocator {
    next_port: u16,
    free_list: VecDeque<u16>,
    in_use: HashSet<u16>,
}

impl View for PortAllocator {
    type V = PortAllocatorView;

    closed spec fn view(&self) -> PortAllocatorView {
        PortAllocatorView {
            next_port: self.next_port,
            free_list: self.free_list@,
            in_use: self.in_use@,
        }
    }
}

impl PortAllocator {
    /// See [`PortAllocatorView::wf`].
    pub open spec fn wf(&self) -> bool {
        self@.wf()
    }

    /// The allocator that `new` makes.
    pub open spec fn new_view(start_port: u16) -> PortAllocatorView {
        PortAllocatorView { next_port: start_port, free_list: Seq::empty(), in_use: Set::empty() }
    }

    /// An allocator whose cursor starts at `start_port`, with nothing
    /// handed out and nothing returned.
    pub fn new(start_port: u16) -> (allocator: Self)
        ensures
            allocator.wf(),
            allocator@ == Self::new_view(start_port),
    {
        PortAllocator { next_port: start_port, free_list: VecDeque::new(), in_use: HashSet::new() }
    }

    /// Hands out the first candidate port that `probe` accepts.
    ///
    /// Returned ports are tried first, oldest first; each one tried leaves
    /// the queue whether or not it is accepted. After that the cursor rises
    /// port by port. When the cursor has reached the largest 16-bit value
    /// the allocation fails.
    pub fn allocate<F: Fn(u16) -> bool>(&mut self, probe: F) -> (result: Result<u16, AllocError>)
        requires
            old(self).wf(),
            forall|port: u16| call_requires(probe, (port,)),
        ensures
            final(self).wf(),
            match result {
                Ok(port) => allocated(old(self)@, final(self)@, port, probe),
                Err(_) => refused(old(self)@, final(self)@, probe),
            },
    {
        let ghost pre = self@;
        let ghost cands = pre.candidates();
        let ghost mut k: int = 0;
        while self.free_list.len() > 0
            invariant
                pre == old(self)@,
                pre.wf(),
                cands == pre.candidates(),
                0 <= k <= pre.free_list.len(),
                self.free_list@ == pre.free_list.subrange(k, pre.free_list.len() as int),
                self.next_port == pre.next_port,
                self.in_use@ == pre.in_use,
                rejected(probe, cands, k),
                forall|port: u16| call_requires(probe, (port,)),
            decreases self.free_list.len(),
        {
            let popped = self.free_list.pop_front();
            if let Some(port) = popped {
                assert(port == cands[k]);
                if probe(port) {
                    self.in_use.insert(port);
                    proof {
                        assert(self.free_list@ =~= pre.free_list.subrange(
                            k + 1,
                            pre.free_list.len() as int,
                        ));
                        assert(self@.in_use =~= pre.claimed(k).in_use);
                        assert(self@.free_list =~= pre.claimed(k).free_list);
                        assert(self@ == pre.claimed(k));
                    }
                    return Ok(port);
                }
                proof {
                    assert(self.free_list@ =~= pre.free_list.subrange(
                        k + 1,
                        pre.free_list.len() as int,
                    ));
                    k = k + 1;
                }
            }
        }
        assert(self.free_list@ =~= Seq::<u16>::empty());
        assert(k == pre.free_list.len());
        loop
            invariant
                pre == old(self)@,
                pre.wf(),
                cands == pre.candidates(),
                self.free_list@ == Seq::<u16>::empty(),
                pre.next_port <= self.next_port,
                k == pre.free_list.len() + (self.next_port - pre.next_port),
                self.in_use@ == pre.in_use,
                rejected(probe, cands, k),
                forall|port: u16| call_requires(probe, (port,)),
            decreases u16::MAX - self.next_port,
        {
            if self.next_port == u16::MAX {
                proof {
                    assert(k == cands.len());
                    assert(self@.free_list =~= pre.exhausted().free_list);
                    assert(self@.in_use =~= pre.exhausted().in_use);
                    assert(self@ == pre.exhausted());
                }
                return Err(AllocError::Overflow);
            }
            let port = self.next_port;
            self.next_port = port + 1;
            assert(port == cands[k]);
            assert(!self.in_use@.contains(port));
            if !self.in_use.contains(&port) && probe(port) {
                self.in_use.insert(port);
                proof {
                    assert(self@.in_use =~= pre.claimed(k).in_use);
                    assert(self@.free_list =~= pre.claimed(k).free_list);
                    assert(self@.next_port == pre.claimed(k).next_port);
                    assert(self@ == pre.claimed(k));
                }
                return Ok(port);
            }
            proof {
                k = k + 1;
            }
        }
    }

    /// Whether `port` is handed out at the moment.
    pub fn is_in_use(&self, port: u16) -> (used: bool)
        ensures
            used == self@.in_use.contains(port),
    {
        self.in_use.contains(&port)
    }

    /// Takes `port` back: if it was handed out it joins the back of the
    /// queue of returned ports, otherwise nothing changes.
    pub fn free(&mut self, port: u16)
        requires
            old(self).wf(),
        ensures
            final(self).wf(),
            final(self)@ == old(self)@.released(port),
    {
        if self.in_use.remove(&port) {
            self.free_list.push_back(port);
        }
        proof {
            let post = old(self)@.released(port);
            assert(self@.in_use =~= post.in_use);
            assert(self@.free_list =~= post.free_list);
        }
    }
}

} // verus!
