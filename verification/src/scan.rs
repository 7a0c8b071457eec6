//! One scan cycle: which addresses are probed, and which events the
//! verdicts of the probes give rise to.
//!
//! A scan begins by emitting `CycleStart` and naming the addresses to
//! probe. The caller probes them, in any order and as concurrently as it
//! likes, and hands each verdict back. A reachable host gives rise to one
//! `HostReachable`; the verdict that leaves no probe outstanding gives rise
//! to `CycleEnd`, and to nothing after it.

use crate::event::{
    cycle_of, is_cycle, is_open_cycle, lemma_cycle_has_one_start_and_one_end,
    lemma_cycle_of_is_cycle, occurrences, open_cycle_of, CycleEvent,
};
use crate::monitor::{
    lemma_run_cycle, lemma_sorted_hosts, lemma_sorted_hosts_distinct, only_in, sorted_hosts,
    MonitorModel, Phase, ReportModel,
};
use crate::range::{usable_count, usable_range, usable_span};
use vstd::prelude::*;

verus! {

/// The number of entries of `answered` that are still `false`.
pub open spec fn unanswered(answered: Seq<bool>) -> nat
    decreases answered.len(),
{
    if answered.len() == 0 {
        0
    } else {
        unanswered(answered.drop_last()) + if answered.last() {
            0nat
        } else {
            1nat
        }
    }
}

/// Answering an entry that was unanswered leaves one unanswered entry fewer.
proof fn lemma_unanswered_update(answered: Seq<bool>, at: int)
    requires
        0 <= at < answered.len(),
        !answered[at],
    ensures
        unanswered(answered) >= 1,
        unanswered(answered.update(at, true)) == unanswered(answered) - 1,
    decreases answered.len(),
{
    let updated: Seq<bool> = answered.update(at, true);
    if at == answered.len() - 1 {
        assert(updated.drop_last() =~= answered.drop_last());
    } else {
        lemma_unanswered_update(answered.drop_last(), at);
        assert(updated.drop_last() =~= answered.drop_last().update(at, true));
    }
}

/// No entry is unanswered exactly if every entry is answered.
proof fn lemma_unanswered_zero(answered: Seq<bool>)
    ensures
        unanswered(answered) == 0 <==> forall|i: int| 0 <= i < answered.len() ==> answered[i],
        unanswered(answered) <= answered.len(),
    decreases answered.len(),
{
    if answered.len() > 0 {
        lemma_unanswered_zero(answered.drop_last());
        if unanswered(answered) == 0 {
            assert forall|i: int| 0 <= i < answered.len() implies answered[i] by {
                if i < answered.len() - 1 {
                    assert(answered.drop_last()[i]);
                }
            }
        }
        if forall|i: int| 0 <= i < answered.len() ==> answered[i] {
            assert forall|i: int| 0 <= i < answered.drop_last().len() implies answered.drop_last()[i] by {
                assert(answered[i]);
            }
        }
    }
}

/// The state of one scan cycle.
pub struct Scan {
    /// The first address to probe; zero where there is none.
    first: u32,
    /// For each address to probe, in ascending order, whether its verdict came in.
    answered: Vec<bool>,
    /// The number of addresses whose verdict has not come in.
    outstanding: usize,
    /// The hosts reported as reachable so far, in the order of their verdicts.
    reported: Ghost<Seq<u32>>,
}

impl Scan {
    /// The addresses that this cycle probes, ascending.
    pub closed spec fn targets(&self) -> Seq<u32> {
        Seq::new(self.answered@.len(), |i: int| (self.first + i) as u32)
    }

    /// The cycle probes `address` and has not had its verdict.
    pub closed spec fn awaits(&self, address: u32) -> bool {
        &&& self.first <= address < self.first + self.answered@.len()
        &&& !self.answered@[address - self.first]
    }

    /// The number of addresses whose verdict has not come in.
    pub closed spec fn outstanding(&self) -> nat {
        self.outstanding as nat
    }

    /// The hosts reported as reachable so far, in the order of their verdicts.
    pub closed spec fn reported(&self) -> Seq<u32> {
        self.reported@
    }

    /// Every probe of the cycle has completed.
    pub open spec fn finished(&self) -> bool {
        self.outstanding() == 0
    }

    /// Every event that the cycle has emitted so far, in order.
    pub open spec fn emitted(&self) -> Seq<CycleEvent> {
        if self.finished() {
            cycle_of(self.reported())
        } else {
            open_cycle_of(self.reported())
        }
    }

    /// What the verdict `reachable` on `address` makes the cycle emit: nothing
    /// if the cycle does not await a verdict on `address`; else a
    /// `HostReachable` if the host is reachable, and after it a `CycleEnd` if
    /// this was the last verdict outstanding.
    pub open spec fn reaction(&self, address: u32, reachable: bool) -> Seq<CycleEvent> {
        if !self.awaits(address) {
            Seq::empty()
        } else {
            (if reachable {
                seq![CycleEvent::HostReachable(address)]
            } else {
                Seq::empty()
            }) + (if self.outstanding() == 1 {
                seq![CycleEvent::CycleEnd]
            } else {
                Seq::empty()
            })
        }
    }

    /// The state is consistent: the outstanding verdicts are counted
    /// rightly, and the hosts reported are distinct addresses of the cycle
    /// whose verdict came in.
    pub closed spec fn wf(&self) -> bool {
        &&& self.first + self.answered@.len() <= u32::MAX
        &&& self.outstanding == unanswered(self.answered@)
        &&& self.reported@.no_duplicates()
        &&& forall|i: int|
            0 <= i < self.reported@.len() ==> {
                &&& self.first <= #[trigger] self.reported@[i] < self.first + self.answered@.len()
                &&& self.answered@[self.reported@[i] - self.first]
            }
    }

    /// Begins the cycle for the subnet of `network_address` under
    /// `subnet_mask`. The events returned are to be emitted before any probe
    /// is issued: `CycleStart`, and `CycleEnd` right after it where the subnet
    /// has no usable address.
    pub fn begin(network_address: u32, subnet_mask: u32) -> (started: (Scan, Vec<CycleEvent>))
        ensures
            started.0.wf(),
            started.0.targets() == usable_range(network_address, subnet_mask),
            started.0.outstanding() == usable_count(network_address, subnet_mask),
            started.0.reported() == Seq::<u32>::empty(),
            forall|address: u32|
                started.0.awaits(address) <==> usable_range(network_address, subnet_mask).contains(
                    address,
                ),
            started.1@ == started.0.emitted(),
            started.1@ == if usable_count(network_address, subnet_mask) == 0 {
                seq![CycleEvent::CycleStart, CycleEvent::CycleEnd]
            } else {
                seq![CycleEvent::CycleStart]
            },
    {
        let span: (u32, u32) = usable_span(network_address, subnet_mask);
        let first: u32 = span.0;
        let count: usize = span.1 as usize;
        let mut answered: Vec<bool> = Vec::new();
        let mut filled: usize = 0;
        while filled < count
            invariant
                filled <= count,
                answered@.len() == filled,
                unanswered(answered@) == filled,
                forall|i: int| 0 <= i < filled ==> !answered@[i],
            decreases count - filled,
        {
            proof {
                assert(answered@.push(false).drop_last() =~= answered@);
            }
            answered.push(false);
            filled = filled + 1;
        }
        let mut events: Vec<CycleEvent> = Vec::new();
        events.push(CycleEvent::CycleStart);
        if count == 0 {
            events.push(CycleEvent::CycleEnd);
        }
        let scan: Scan = Scan { first, answered, outstanding: count, reported: Ghost(Seq::empty()) };
        proof {
            assert(scan.targets() =~= usable_range(network_address, subnet_mask));
            assert forall|address: u32| scan.awaits(address) <==> usable_range(
                network_address,
                subnet_mask,
            ).contains(address) by {
                let range: Seq<u32> = usable_range(network_address, subnet_mask);
                if scan.awaits(address) {
                    assert(range[address - first] == address);
                }
            }
            assert(events@ =~= scan.emitted());
        }
        (scan, events)
    }

    /// The addresses that this cycle probes, ascending.
    pub fn probe_targets(&self) -> (targets: Vec<u32>)
        requires
            self.wf(),
        ensures
            targets@ == self.targets(),
    {
        let mut targets: Vec<u32> = Vec::new();
        let mut done: usize = 0;
        while done < self.answered.len()
            invariant
                done <= self.answered@.len(),
                self.first + self.answered@.len() <= u32::MAX,
                targets@.len() == done,
                forall|i: int| 0 <= i < done ==> #[trigger] targets@[i] == self.first + i,
            decreases self.answered@.len() - done,
        {
            targets.push(self.first + done as u32);
            done = done + 1;
        }
        assert(targets@ =~= self.targets());
        targets
    }

    /// Tells whether every probe of the cycle has completed.
    pub fn is_finished(&self) -> (finished: bool)
        ensures
            finished == self.finished(),
    {
        self.outstanding == 0
    }

    /// The number of addresses whose verdict has not come in.
    pub fn outstanding_probes(&self) -> (outstanding: usize)
        ensures
            outstanding == self.outstanding(),
    {
        self.outstanding
    }

    /// Takes the verdict of the probe of `address` and returns the events to
    /// emit for it, in order. A verdict that the cycle does not await (on an
    /// address that it does not probe, on one whose verdict it has had, or
    /// after the cycle has finished) changes nothing and emits nothing.
    pub fn record(&mut self, address: u32, reachable: bool) -> (events: Vec<CycleEvent>)
        requires
            old(self).wf(),
        ensures
            final(self).wf(),
            final(self).targets() == old(self).targets(),
            events@ == old(self).reaction(address, reachable),
            final(self).emitted() == old(self).emitted() + events@,
            forall|other: u32|
                final(self).awaits(other) <==> old(self).awaits(other) && other != address,
            final(self).outstanding() == if old(self).awaits(address) {
                (old(self).outstanding() - 1) as nat
            } else {
                old(self).outstanding()
            },
            final(self).reported() == if old(self).awaits(address) && reachable {
                old(self).reported().push(address)
            } else {
                old(self).reported()
            },
    {
        let mut events: Vec<CycleEvent> = Vec::new();
        proof {
            assert(old(self).emitted() + events@ =~= old(self).emitted());
        }
        if address < self.first {
            return events;
        }
        let offset: usize = (address - self.first) as usize;
        if offset >= self.answered.len() {
            return events;
        }
        if self.answered[offset] {
            return events;
        }
        proof {
            lemma_unanswered_update(self.answered@, offset as int);
        }
        self.answered.set(offset, true);
        self.outstanding = self.outstanding - 1;
        if reachable {
            events.push(CycleEvent::HostReachable(address));
            proof {
                assert forall|i: int| 0 <= i < self.reported@.len() implies self.reported@[i]
                    != address by {
                    assert(old(self).answered@[old(self).reported@[i] - old(self).first]);
                }
            }
            self.reported = Ghost(self.reported@.push(address));
        }
        if self.outstanding == 0 {
            events.push(CycleEvent::CycleEnd);
        }
        proof {
            assert(events@ =~= old(self).reaction(address, reachable));
            assert(self.emitted() =~= old(self).emitted() + events@);
        }
        events
    }

    /// What a consistent scan has emitted is the beginning of one cycle, and
    /// the whole of one once the scan has finished: one `CycleStart` first,
    /// then nothing but `HostReachable` events, and one `CycleEnd` last,
    /// which is there exactly if no verdict is outstanding. The hosts
    /// reported are distinct addresses of the cycle that are no longer awaited.
    pub proof fn lemma_emitted_is_one_cycle(self)
        requires
            self.wf(),
        ensures
            self.finished() ==> {
                &&& is_cycle(self.emitted())
                &&& occurrences(self.emitted(), CycleEvent::CycleStart) == 1
                &&& occurrences(self.emitted(), CycleEvent::CycleEnd) == 1
            },
            !self.finished() ==> is_open_cycle(self.emitted()),
            self.finished() <==> forall|address: u32| !self.awaits(address),
            self.emitted() == if self.finished() {
                cycle_of(self.reported())
            } else {
                open_cycle_of(self.reported())
            },
            self.reported().no_duplicates(),
            forall|i: int|
                0 <= i < self.reported().len() ==> self.targets().contains(
                    #[trigger] self.reported()[i],
                ) && !self.awaits(self.reported()[i]),
            self.outstanding() <= self.targets().len(),
    {
        lemma_cycle_of_is_cycle(self.reported());
        if self.finished() {
            lemma_cycle_has_one_start_and_one_end(self.emitted());
        }
        lemma_unanswered_zero(self.answered@);
        if !self.finished() {
            let at: int = choose|at: int| 0 <= at < self.answered@.len() && !self.answered@[at];
            assert(self.awaits((self.first + at) as u32));
        }
        assert forall|i: int| 0 <= i < self.reported().len() implies self.targets().contains(
            #[trigger] self.reported()[i],
        ) by {
            let host: u32 = self.reported()[i];
            assert(self.targets()[host - self.first] == host);
        }
    }

    /// What a monitor makes of a finished scan. Having observed, in any
    /// state, every event that the scan emitted, it has reported the hosts
    /// that the scan found reachable, ascending, with the difference to the
    /// cycle before, and keeps them as the cycle to compare the next with.
    /// These hosts are distinct, and each is an address that the scan probed.
    pub proof fn lemma_finished_scan_is_reported(self, model: MonitorModel)
        requires
            self.wf(),
            self.finished(),
        ensures
            model.run(self.emitted().drop_last()).report(CycleEvent::CycleEnd) == Some(
                ReportModel {
                    current: sorted_hosts(self.reported()),
                    newly_connected: only_in(sorted_hosts(self.reported()), model.previous),
                    disconnected: only_in(model.previous, sorted_hosts(self.reported())),
                },
            ),
            model.run(self.emitted()) == (MonitorModel {
                phase: Phase::Idle,
                previous: sorted_hosts(self.reported()),
                current: sorted_hosts(self.reported()),
            }),
            sorted_hosts(self.reported()).no_duplicates(),
            forall|host: u32|
                sorted_hosts(self.reported()).contains(host) ==> self.targets().contains(host),
    {
        self.lemma_emitted_is_one_cycle();
        lemma_run_cycle(model, self.reported());
        lemma_sorted_hosts(self.reported());
        lemma_sorted_hosts_distinct(self.reported());
        assert(cycle_of(self.reported()).drop_last() =~= open_cycle_of(self.reported()));
        assert forall|host: u32| sorted_hosts(self.reported()).contains(host) implies self.targets().contains(
            host,
        ) by {
            assert(self.reported().contains(host));
            let i: int = choose|i: int| 0 <= i < self.reported().len() && self.reported()[i] == host;
            assert(self.targets().contains(self.reported()[i]));
        }
    }

    /// An address is awaited only if it is one of the addresses that the cycle probes.
    pub proof fn lemma_awaited_is_target(self, address: u32)
        requires
            self.wf(),
            self.awaits(address),
        ensures
            self.targets().contains(address),
            self.outstanding() >= 1,
    {
        assert(self.targets()[address - self.first] == address);
        lemma_unanswered_zero(self.answered@);
    }
}

} // verus!
