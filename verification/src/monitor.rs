//! The consumer of cycle events: it gathers the hosts of the running cycle
//! and, when the cycle ends, reports them together with the hosts that
//! appeared and the hosts that vanished since the cycle before.

use crate::event::{cycle_of, open_cycle_of, CycleEvent};
use vstd::prelude::*;
use vstd::relations::{sorted_by, total_ordering};
use vstd::seq_lib::lemma_sorted_unique;

verus! {

/// The order in which a finished cycle lists its hosts: ascending by the
/// 32-bit value of the address.
pub open spec fn ascending_order() -> spec_fn(u32, u32) -> bool {
    |a: u32, b: u32| a <= b
}

/// `hosts` is in ascending order.
pub open spec fn is_ascending(hosts: Seq<u32>) -> bool {
    forall|i: int, j: int| 0 <= i < j < hosts.len() ==> hosts[i] <= hosts[j]
}

/// The hosts of `hosts`, each as often as it occurs there, in ascending order.
pub open spec fn sorted_hosts(hosts: Seq<u32>) -> Seq<u32> {
    hosts.sort_by(ascending_order())
}

/// The test that a host does not occur in `others`.
pub open spec fn absent_from(others: Seq<u32>) -> spec_fn(u32) -> bool {
    |host: u32| !others.contains(host)
}

/// The hosts of `hosts` that do not occur in `others`, in the order of `hosts`.
pub open spec fn only_in(hosts: Seq<u32>, others: Seq<u32>) -> Seq<u32> {
    hosts.filter(absent_from(others))
}

/// What the monitor reports when a cycle ends, as mathematical sequences.
pub struct ReportModel {
    /// The hosts of the finished cycle, ascending.
    pub current: Seq<u32>,
    /// The hosts of the finished cycle that the cycle before did not have.
    pub newly_connected: Seq<u32>,
    /// The hosts of the cycle before that the finished cycle does not have.
    pub disconnected: Seq<u32>,
}

/// Where the monitor stands with respect to the cycles.
#[derive(Clone, Copy, Debug, PartialEq, Eq, Structural)]
pub enum Phase {
    /// Between cycles: the last event was a `CycleEnd`, or there was none.
    Idle,
    /// Inside a cycle: a `CycleStart` was observed, and no `CycleEnd` since.
    Collecting,
}

/// The monitor's state, as mathematical sequences.
pub struct MonitorModel {
    /// Whether a cycle is running.
    pub phase: Phase,
    /// The hosts of the last finished cycle, as that cycle reported them.
    pub previous: Seq<u32>,
    /// The hosts gathered since the last `CycleStart`.
    pub current: Seq<u32>,
}

impl MonitorModel {
    /// The state of a monitor that has seen no event.
    pub open spec fn initial() -> MonitorModel {
        MonitorModel { phase: Phase::Idle, previous: Seq::empty(), current: Seq::empty() }
    }

    /// The state after `event` was observed in state `self`.
    pub open spec fn step(self, event: CycleEvent) -> MonitorModel {
        match event {
            CycleEvent::CycleStart => MonitorModel {
                phase: Phase::Collecting,
                previous: self.previous,
                current: Seq::empty(),
            },
            CycleEvent::HostReachable(host) => MonitorModel {
                phase: self.phase,
                previous: self.previous,
                current: self.current.push(host),
            },
            CycleEvent::CycleEnd => MonitorModel {
                phase: Phase::Idle,
                previous: sorted_hosts(self.current),
                current: sorted_hosts(self.current),
            },
        }
    }

    /// What observing `event` in state `self` reports: nothing, unless the
    /// event ends a cycle.
    pub open spec fn report(self, event: CycleEvent) -> Option<ReportModel> {
        match event {
            CycleEvent::CycleEnd => Some(
                ReportModel {
                    current: sorted_hosts(self.current),
                    newly_connected: only_in(sorted_hosts(self.current), self.previous),
                    disconnected: only_in(self.previous, sorted_hosts(self.current)),
                },
            ),
            _ => None,
        }
    }

    /// The state after all of `events` were observed, one after the other.
    pub open spec fn run(self, events: Seq<CycleEvent>) -> MonitorModel
        decreases events.len(),
    {
        if events.len() == 0 {
            self
        } else {
            self.run(events.drop_last()).step(events.last())
        }
    }
}

/// The outcome of one finished cycle.
#[derive(Debug, PartialEq, Eq)]
pub struct Report {
    /// The hosts of the finished cycle, ascending.
    pub current: Vec<u32>,
    /// The hosts of the finished cycle that the cycle before did not have.
    pub newly_connected: Vec<u32>,
    /// The hosts of the cycle before that the finished cycle does not have.
    pub disconnected: Vec<u32>,
}

impl View for Report {
    type V = ReportModel;

    open spec fn view(&self) -> ReportModel {
        ReportModel {
            current: self.current@,
            newly_connected: self.newly_connected@,
            disconnected: self.disconnected@,
        }
    }
}

/// The view of an optional report.
pub open spec fn report_view(report: Option<Report>) -> Option<ReportModel> {
    match report {
        Some(r) => Some(r@),
        None => None,
    }
}

/// Tells whether `host` occurs in `hosts`.
pub fn contains_host(hosts: &Vec<u32>, host: u32) -> (found: bool)
    ensures
        found == hosts@.contains(host),
{
    let mut i: usize = 0;
    while i < hosts.len()
        invariant
            i <= hosts.len(),
            forall|k: int| 0 <= k < i ==> hosts@[k] != host,
        decreases hosts.len() - i,
    {
        if hosts[i] == host {
            return true;
        }
        i = i + 1;
    }
    false
}

/// The hosts of `hosts` that do not occur in `others`, in the order of `hosts`.
pub fn hosts_only_in(hosts: &Vec<u32>, others: &Vec<u32>) -> (kept: Vec<u32>)
    ensures
        kept@ == only_in(hosts@, others@),
{
    let mut kept: Vec<u32> = Vec::new();
    let mut i: usize = 0;
    proof {
        reveal(Seq::filter);
        assert(hosts@.take(0) =~= Seq::<u32>::empty());
    }
    while i < hosts.len()
        invariant
            i <= hosts.len(),
            kept@ == only_in(hosts@.take(i as int), others@),
        decreases hosts.len() - i,
    {
        let host: u32 = hosts[i];
        let known: bool = contains_host(others, host);
        proof {
            reveal(Seq::filter);
            assert(hosts@.take(i + 1).drop_last() =~= hosts@.take(i as int));
            assert(hosts@.take(i + 1).last() == host);
        }
        if !known {
            kept.push(host);
        }
        i = i + 1;
    }
    proof {
        assert(hosts@.take(i as int) =~= hosts@);
    }
    kept
}

/// The hosts of `hosts`, each as often as it occurs there, in ascending order.
pub fn sort_hosts(hosts: &Vec<u32>) -> (sorted: Vec<u32>)
    ensures
        sorted@ == sorted_hosts(hosts@),
        is_ascending(sorted@),
        sorted@.to_multiset() == hosts@.to_multiset(),
{
    let mut sorted: Vec<u32> = Vec::new();
    let mut i: usize = 0;
    proof {
        assert(hosts@.take(0) =~= sorted@);
    }
    while i < hosts.len()
        invariant
            i <= hosts.len(),
            is_ascending(sorted@),
            sorted@.to_multiset() == hosts@.take(i as int).to_multiset(),
        decreases hosts.len() - i,
    {
        let host: u32 = hosts[i];
        let mut at: usize = 0;
        while at < sorted.len() && sorted[at] <= host
            invariant
                at <= sorted.len(),
                forall|k: int| 0 <= k < at ==> sorted@[k] <= host,
            decreases sorted.len() - at,
        {
            at = at + 1;
        }
        proof {
            vstd::seq_lib::to_multiset_insert(sorted@, at as int, host);
            vstd::seq_lib::to_multiset_build(hosts@.take(i as int), host);
            assert(hosts@.take(i + 1) =~= hosts@.take(i as int).push(host));
        }
        sorted.insert(at, host);
        i = i + 1;
    }
    proof {
        assert(hosts@.take(i as int) =~= hosts@);
        lemma_sorted_hosts_unique(hosts@, sorted@);
    }
    sorted
}

/// `sorted_hosts(hosts)` is the one ascending arrangement of `hosts`: it is
/// ascending, it holds every host as often as `hosts` does, and it holds
/// exactly the hosts that `hosts` holds.
pub proof fn lemma_sorted_hosts(hosts: Seq<u32>)
    ensures
        total_ordering(ascending_order()),
        sorted_by(sorted_hosts(hosts), ascending_order()),
        is_ascending(sorted_hosts(hosts)),
        sorted_hosts(hosts).to_multiset() == hosts.to_multiset(),
        sorted_hosts(hosts).len() == hosts.len(),
        forall|host: u32| sorted_hosts(hosts).contains(host) <==> hosts.contains(host),
{
    hosts.lemma_sort_by_ensures(ascending_order());
    let sorted: Seq<u32> = sorted_hosts(hosts);
    assert forall|i: int, j: int| 0 <= i < j < sorted.len() implies sorted[i] <= sorted[j] by {
        assert(ascending_order()(sorted[i], sorted[j]));
    }
    vstd::seq_lib::to_multiset_len(hosts);
    vstd::seq_lib::to_multiset_len(sorted);
    assert forall|host: u32| sorted.contains(host) <==> hosts.contains(host) by {
        vstd::seq_lib::to_multiset_contains(hosts, host);
        vstd::seq_lib::to_multiset_contains(sorted, host);
    }
}

/// An ascending sequence that holds every host as often as `hosts` does is
/// `sorted_hosts(hosts)`.
pub proof fn lemma_sorted_hosts_unique(hosts: Seq<u32>, arranged: Seq<u32>)
    requires
        is_ascending(arranged),
        arranged.to_multiset() == hosts.to_multiset(),
    ensures
        arranged == sorted_hosts(hosts),
{
    lemma_sorted_hosts(hosts);
    lemma_sorted_unique(arranged, sorted_hosts(hosts), ascending_order());
}

/// Sorting keeps a duplicate-free sequence of hosts duplicate-free.
pub proof fn lemma_sorted_hosts_distinct(hosts: Seq<u32>)
    requires
        hosts.no_duplicates(),
    ensures
        sorted_hosts(hosts).no_duplicates(),
        forall|i: int, j: int|
            0 <= i < j < sorted_hosts(hosts).len() ==> sorted_hosts(hosts)[i] < sorted_hosts(
                hosts,
            )[j],
{
    lemma_sorted_hosts(hosts);
    hosts.lemma_multiset_has_no_duplicates();
    sorted_hosts(hosts).lemma_multiset_has_no_duplicates_conv();
}

/// A host is in `only_in(hosts, others)` exactly if it is in `hosts` and
/// not in `others`.
pub proof fn lemma_only_in_contains(hosts: Seq<u32>, others: Seq<u32>, host: u32)
    ensures
        only_in(hosts, others).contains(host) <==> hosts.contains(host) && !others.contains(host),
    decreases hosts.len(),
{
    reveal(Seq::filter);
    if hosts.len() > 0 {
        let front: Seq<u32> = hosts.drop_last();
        lemma_only_in_contains(front, others, host);
        assert(hosts =~= front.push(hosts.last()));
        if absent_from(others)(hosts.last()) {
            assert(only_in(hosts, others) == only_in(front, others).push(hosts.last()));
            lemma_push_contains(only_in(front, others), hosts.last(), host);
        }
        lemma_push_contains(front, hosts.last(), host);
    }
}

/// A host is in `hosts.push(last)` exactly if it is `last` or in `hosts`.
proof fn lemma_push_contains(hosts: Seq<u32>, last: u32, host: u32)
    ensures
        hosts.push(last).contains(host) <==> host == last || hosts.contains(host),
{
    let pushed: Seq<u32> = hosts.push(last);
    if hosts.contains(host) {
        let i: int = choose|i: int| 0 <= i < hosts.len() && hosts[i] == host;
        assert(pushed[i] == host);
    }
    if host == last {
        assert(pushed[hosts.len() as int] == host);
    }
    if pushed.contains(host) {
        let i: int = choose|i: int| 0 <= i < pushed.len() && pushed[i] == host;
        if i < hosts.len() {
            assert(hosts[i] == host);
        }
    }
}

/// Where every host of `hosts` occurs in `others`, nothing is only in `hosts`.
pub proof fn lemma_only_in_empty(hosts: Seq<u32>, others: Seq<u32>)
    requires
        forall|host: u32| hosts.contains(host) ==> others.contains(host),
    ensures
        only_in(hosts, others) == Seq::<u32>::empty(),
{
    let kept: Seq<u32> = only_in(hosts, others);
    if kept.len() > 0 {
        assert(kept.contains(kept[0]));
        lemma_only_in_contains(hosts, others, kept[0]);
    }
    assert(kept =~= Seq::<u32>::empty());
}

/// Observing a concatenation of events is observing its parts one after the other.
pub proof fn lemma_run_concat(model: MonitorModel, front: Seq<CycleEvent>, back: Seq<CycleEvent>)
    ensures
        model.run(front + back) == model.run(front).run(back),
    decreases back.len(),
{
    if back.len() == 0 {
        assert(front + back =~= front);
    } else {
        assert((front + back).drop_last() =~= front + back.drop_last());
        lemma_run_concat(model, front, back.drop_last());
    }
}

/// A cycle that has begun and reported `hosts` leaves exactly `hosts`
/// gathered, in the order reported, whatever was gathered before it began,
/// and does not touch the hosts of the last finished cycle.
pub proof fn lemma_run_open_cycle(model: MonitorModel, hosts: Seq<u32>)
    ensures
        model.run(open_cycle_of(hosts)) == (MonitorModel {
            phase: Phase::Collecting,
            previous: model.previous,
            current: hosts,
        }),
    decreases hosts.len(),
{
    if hosts.len() == 0 {
        assert(open_cycle_of(hosts) =~= seq![CycleEvent::CycleStart]);
        assert(open_cycle_of(hosts).drop_last() =~= Seq::<CycleEvent>::empty());
        assert(model.run(open_cycle_of(hosts).drop_last()) == model);
        assert(hosts =~= Seq::<u32>::empty());
    } else {
        let front: Seq<u32> = hosts.drop_last();
        lemma_run_open_cycle(model, front);
        assert(open_cycle_of(hosts).drop_last() =~= open_cycle_of(front));
        assert(open_cycle_of(hosts).last() == CycleEvent::HostReachable(hosts.last()));
        assert(front.push(hosts.last()) =~= hosts);
    }
}

/// One complete cycle that reports `hosts`, observed in any state: its
/// `CycleEnd` reports the hosts in ascending order, those of them that the
/// cycle before did not have, and the hosts of the cycle before that are
/// gone; afterwards the sorted hosts are the cycle to compare the next with.
pub proof fn lemma_run_cycle(model: MonitorModel, hosts: Seq<u32>)
    ensures
        model.run(open_cycle_of(hosts)).report(CycleEvent::CycleEnd) == Some(
            ReportModel {
                current: sorted_hosts(hosts),
                newly_connected: only_in(sorted_hosts(hosts), model.previous),
                disconnected: only_in(model.previous, sorted_hosts(hosts)),
            },
        ),
        model.run(cycle_of(hosts)) == (MonitorModel {
            phase: Phase::Idle,
            previous: sorted_hosts(hosts),
            current: sorted_hosts(hosts),
        }),
{
    lemma_run_open_cycle(model, hosts);
    assert(cycle_of(hosts).drop_last() =~= open_cycle_of(hosts));
}

/// Two consecutive cycles that find the same set of hosts: the second one
/// reports no newly connected host and no disconnected host.
pub proof fn lemma_same_hosts_report_no_change(
    model: MonitorModel,
    first: Seq<u32>,
    second: Seq<u32>,
)
    requires
        first.to_set() == second.to_set(),
    ensures
        model.run(cycle_of(first) + open_cycle_of(second)).report(CycleEvent::CycleEnd) == Some(
            ReportModel {
                current: sorted_hosts(second),
                newly_connected: Seq::empty(),
                disconnected: Seq::empty(),
            },
        ),
{
    lemma_run_concat(model, cycle_of(first), open_cycle_of(second));
    lemma_run_cycle(model, first);
    let between: MonitorModel = model.run(cycle_of(first));
    lemma_run_cycle(between, second);
    lemma_sorted_hosts(first);
    lemma_sorted_hosts(second);
    assert forall|host: u32| first.contains(host) <==> second.contains(host) by {
        assert(first.to_set().contains(host) <==> first.contains(host));
        assert(second.to_set().contains(host) <==> second.contains(host));
    }
    assert forall|host: u32|
        sorted_hosts(first).contains(host) <==> sorted_hosts(second).contains(host) by {
        assert(sorted_hosts(first).contains(host) <==> first.contains(host));
        assert(sorted_hosts(second).contains(host) <==> second.contains(host));
    }
    lemma_only_in_empty(sorted_hosts(second), sorted_hosts(first));
    lemma_only_in_empty(sorted_hosts(first), sorted_hosts(second));
}

/// The monitor: the single owner of the hosts of the last finished cycle
/// and of the hosts gathered in the running one.
pub struct Monitor {
    phase: Phase,
    previous: Vec<u32>,
    current: Vec<u32>,
}

impl View for Monitor {
    type V = MonitorModel;

    closed spec fn view(&self) -> MonitorModel {
        MonitorModel { phase: self.phase, previous: self.previous@, current: self.current@ }
    }
}

impl Monitor {
    /// A monitor that has seen no event: no cycle has finished, and no host
    /// has been gathered.
    pub fn new() -> (monitor: Monitor)
        ensures
            monitor@ == MonitorModel::initial(),
    {
        Monitor { phase: Phase::Idle, previous: Vec::new(), current: Vec::new() }
    }

    /// The hosts of the last finished cycle, ascending; empty before the
    /// first cycle has finished.
    pub fn previous(&self) -> (hosts: Vec<u32>)
        ensures
            hosts@ == self@.previous,
    {
        self.previous.clone()
    }

    /// Tells whether a cycle is running.
    pub fn is_collecting(&self) -> (collecting: bool)
        ensures
            collecting == (self@.phase == Phase::Collecting),
    {
        match self.phase {
            Phase::Collecting => true,
            Phase::Idle => false,
        }
    }

    /// The hosts gathered since the last `CycleStart`.
    pub fn current(&self) -> (hosts: Vec<u32>)
        ensures
            hosts@ == self@.current,
    {
        self.current.clone()
    }

    /// Takes one event of the stream. `CycleStart` forgets the hosts
    /// gathered so far, `HostReachable` adds one host to them, and
    /// `CycleEnd` sorts them, reports them with the difference to the
    /// cycle before, and keeps them as the cycle to compare the next with.
    pub fn observe(&mut self, event: CycleEvent) -> (report: Option<Report>)
        ensures
            final(self)@ == old(self)@.step(event),
            report_view(report) == old(self)@.report(event),
    {
        match event {
            CycleEvent::CycleStart => {
                self.phase = Phase::Collecting;
                self.current.clear();
                None
            },
            CycleEvent::HostReachable(host) => {
                self.current.push(host);
                None
            },
            CycleEvent::CycleEnd => {
                let current: Vec<u32> = sort_hosts(&self.current);
                let disconnected: Vec<u32> = hosts_only_in(&self.previous, &current);
                let newly_connected: Vec<u32> = hosts_only_in(&current, &self.previous);
                self.phase = Phase::Idle;
                self.previous = current.clone();
                self.current = current.clone();
                Some(Report { current, newly_connected, disconnected })
            },
        }
    }
}

} // verus!
