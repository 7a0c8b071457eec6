//! The events that bound and fill one scan cycle.

use vstd::prelude::*;

verus! {

/// One event of a scan cycle, as the scan emits it and the monitor consumes it.
#[derive(Clone, Copy, Debug, PartialEq, Eq, Structural)]
pub enum CycleEvent {
    /// A cycle begins; no probe of it has been issued yet.
    CycleStart,
    /// The host at this address answered a probe of the running cycle.
    HostReachable(u32),
    /// Every probe of the cycle has completed.
    CycleEnd,
}

/// The events that report the hosts of `hosts` as reachable, in the same order.
pub open spec fn reachable_events(hosts: Seq<u32>) -> Seq<CycleEvent> {
    Seq::new(hosts.len(), |i: int| CycleEvent::HostReachable(hosts[i]))
}

/// The cycle that has begun and reported the hosts of `hosts`, in that
/// order, and has not ended.
pub open spec fn open_cycle_of(hosts: Seq<u32>) -> Seq<CycleEvent> {
    seq![CycleEvent::CycleStart] + reachable_events(hosts)
}

/// The complete cycle in which exactly the hosts of `hosts` are reported, in that order.
pub open spec fn cycle_of(hosts: Seq<u32>) -> Seq<CycleEvent> {
    open_cycle_of(hosts).push(CycleEvent::CycleEnd)
}

/// `events` is the beginning of a cycle that has not ended: a `CycleStart`
/// followed by nothing but `HostReachable` events.
pub open spec fn is_open_cycle(events: Seq<CycleEvent>) -> bool {
    &&& events.len() >= 1
    &&& events[0] == CycleEvent::CycleStart
    &&& forall|i: int| 1 <= i < events.len() ==> (#[trigger] events[i]) is HostReachable
}

/// `events` is one complete cycle: it starts with its only `CycleStart`,
/// ends with its only `CycleEnd`, and every event strictly between the two
/// is a `HostReachable`.
pub open spec fn is_cycle(events: Seq<CycleEvent>) -> bool {
    &&& events.len() >= 2
    &&& events[0] == CycleEvent::CycleStart
    &&& events[events.len() - 1] == CycleEvent::CycleEnd
    &&& forall|i: int| 1 <= i < events.len() - 1 ==> (#[trigger] events[i]) is HostReachable
}

/// The number of events of `events` that equal `event`.
pub open spec fn occurrences(events: Seq<CycleEvent>, event: CycleEvent) -> nat
    decreases events.len(),
{
    if events.len() == 0 {
        0
    } else {
        occurrences(events.drop_last(), event) + if events.last() == event {
            1nat
        } else {
            0nat
        }
    }
}

/// A sequence of nothing but `HostReachable` events holds neither boundary event.
pub proof fn lemma_reachable_events_hold_no_boundary(events: Seq<CycleEvent>)
    requires
        forall|i: int| 0 <= i < events.len() ==> (#[trigger] events[i]) is HostReachable,
    ensures
        occurrences(events, CycleEvent::CycleStart) == 0,
        occurrences(events, CycleEvent::CycleEnd) == 0,
    decreases events.len(),
{
    if events.len() > 0 {
        lemma_reachable_events_hold_no_boundary(events.drop_last());
    }
}

/// Counting over a concatenation adds the counts of its parts.
pub proof fn lemma_occurrences_concat(
    front: Seq<CycleEvent>,
    back: Seq<CycleEvent>,
    event: CycleEvent,
)
    ensures
        occurrences(front + back, event) == occurrences(front, event) + occurrences(back, event),
    decreases back.len(),
{
    if back.len() == 0 {
        assert(front + back =~= front);
    } else {
        assert((front + back).drop_last() =~= front + back.drop_last());
        lemma_occurrences_concat(front, back.drop_last(), event);
    }
}

/// A complete cycle holds exactly one `CycleStart` and exactly one
/// `CycleEnd`, the first as its first event and the second as its last.
pub proof fn lemma_cycle_has_one_start_and_one_end(events: Seq<CycleEvent>)
    requires
        is_cycle(events),
    ensures
        occurrences(events, CycleEvent::CycleStart) == 1,
        occurrences(events, CycleEvent::CycleEnd) == 1,
        events.first() == CycleEvent::CycleStart,
        events.last() == CycleEvent::CycleEnd,
{
    let n: int = events.len() as int;
    let head: Seq<CycleEvent> = events.subrange(0, 1);
    let middle: Seq<CycleEvent> = events.subrange(1, n - 1);
    let tail: Seq<CycleEvent> = events.subrange(n - 1, n);
    assert(events =~= head + middle + tail);
    assert forall|i: int| 0 <= i < middle.len() implies (#[trigger] middle[i]) is HostReachable by {
        assert(middle[i] == events[i + 1]);
    }
    lemma_reachable_events_hold_no_boundary(middle);
    assert(head.drop_last() =~= Seq::<CycleEvent>::empty());
    assert(tail.drop_last() =~= Seq::<CycleEvent>::empty());
    assert(occurrences(head.drop_last(), CycleEvent::CycleStart) == 0);
    assert(occurrences(tail.drop_last(), CycleEvent::CycleEnd) == 0);
    assert(occurrences(head.drop_last(), CycleEvent::CycleEnd) == 0);
    assert(occurrences(tail.drop_last(), CycleEvent::CycleStart) == 0);
    lemma_occurrences_concat(head, middle, CycleEvent::CycleStart);
    lemma_occurrences_concat(head + middle, tail, CycleEvent::CycleStart);
    lemma_occurrences_concat(head, middle, CycleEvent::CycleEnd);
    lemma_occurrences_concat(head + middle, tail, CycleEvent::CycleEnd);
}

/// The cycle built from any sequence of hosts is a complete cycle, and
/// without its last event it is a cycle that has not ended.
pub proof fn lemma_cycle_of_is_cycle(hosts: Seq<u32>)
    ensures
        is_open_cycle(open_cycle_of(hosts)),
        is_cycle(cycle_of(hosts)),
        cycle_of(hosts).len() == hosts.len() + 2,
        forall|i: int|
            0 <= i < hosts.len() ==> #[trigger] cycle_of(hosts)[i + 1] == CycleEvent::HostReachable(
                hosts[i],
            ),
{
}

} // verus!
