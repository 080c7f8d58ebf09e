//! The decisions of the refresh loop, and the answer to a lookup against the
//! table currently published (if any).
use vstd::prelude::*;
use crate::addr::{Addr, key};
use crate::index::{Database, Record, lookup_map};

verus! {

/// Seconds to wait after a failed cycle before trying again.
pub const RETRY_DELAY_SECS: u64 = 15;

/// What the refresh loop does once a fetch-decode-parse cycle has ended.
#[derive(Clone, Copy, Debug, PartialEq, Eq, Structural)]
pub enum Decision {
    /// Keep the published table, wait `delay_secs` seconds and run a cycle again.
    Retry { delay_secs: u64 },
    /// Publish the new table, wait `delay_secs` seconds and run a cycle again.
    PublishAndWait { delay_secs: u64 },
    /// Publish the new table and run no further cycle.
    PublishAndStop,
}

/// The decision after a cycle that succeeded or failed, for a refresh
/// frequency in seconds (zero: load once).
pub open spec fn decision_for(frequency: u64, succeeded: bool) -> Decision {
    if !succeeded {
        Decision::Retry { delay_secs: RETRY_DELAY_SECS }
    } else if frequency == 0 {
        Decision::PublishAndStop
    } else {
        Decision::PublishAndWait { delay_secs: frequency }
    }
}

/// Whether a decision publishes the table that the cycle produced.
pub open spec fn publishes(d: Decision) -> bool {
    !(d is Retry)
}

/// The state of the refresh loop as a value: whether a table was published,
/// whether the loop has stopped, how many cycles ran and how many published.
pub struct LoopState {
    pub ready: bool,
    pub finished: bool,
    pub cycles: nat,
    pub publications: nat,
}

pub open spec fn initial_state() -> LoopState {
    LoopState { ready: false, finished: false, cycles: 0, publications: 0 }
}

/// The state after one more cycle that succeeded or failed; a stopped loop
/// runs no cycle and stays as it is.
pub open spec fn step(frequency: u64, s: LoopState, succeeded: bool) -> LoopState {
    if s.finished {
        s
    } else {
        let d = decision_for(frequency, succeeded);
        LoopState {
            ready: s.ready || publishes(d),
            finished: d is PublishAndStop,
            cycles: s.cycles + 1,
            publications: s.publications + if publishes(d) { 1nat } else { 0nat },
        }
    }
}

/// The state after cycles with the given outcomes, from the start.
pub open spec fn run(frequency: u64, outcomes: Seq<bool>) -> LoopState
    decreases outcomes.len(),
{
    if outcomes.len() == 0 {
        initial_state()
    } else {
        step(frequency, run(frequency, outcomes.drop_last()), outcomes.last())
    }
}

/// The refresh loop's own state, from which it decides what follows a cycle.
pub struct Refresher {
    pub frequency: u64,
    pub ready: bool,
    pub finished: bool,
}

impl Refresher {
    /// A loop that has run no cycle, for a refresh frequency in seconds.
    pub fn new(frequency: u64) -> (r: Self)
        ensures
            r.frequency == frequency,
            !r.ready,
            !r.finished,
    {
        Refresher { frequency, ready: false, finished: false }
    }

    /// Records the outcome of a cycle and says what to do next.
    pub fn after_cycle(&mut self, succeeded: bool) -> (d: Decision)
        requires
            !old(self).finished,
        ensures
            d == decision_for(old(self).frequency, succeeded),
            final(self).frequency == old(self).frequency,
            final(self).ready == (old(self).ready || succeeded),
            final(self).finished == (succeeded && old(self).frequency == 0),
    {
        if succeeded {
            self.ready = true;
            if self.frequency == 0 {
                self.finished = true;
                Decision::PublishAndStop
            } else {
                Decision::PublishAndWait { delay_secs: self.frequency }
            }
        } else {
            Decision::Retry { delay_secs: RETRY_DELAY_SECS }
        }
    }
}

/// The outcome of resolving an address.
#[derive(Debug)]
pub enum Resolution<'a> {
    /// No table has been published yet.
    NotReady,
    /// The published table has no record whose range holds the address.
    NoMatch,
    /// The record whose range holds the address.
    Found(&'a Record),
}

/// Resolves `address` against the published table, if one is.
pub fn resolve<'a>(current: Option<&'a Database>, address: Addr) -> (r: Resolution<'a>)
    requires
        current matches Some(d) ==> d.well_formed(),
    ensures
        match current {
            None => r is NotReady,
            Some(d) => match lookup_map(d.view(), key(address)) {
                None => r is NoMatch,
                Some(v) => r matches Resolution::Found(rec) && rec@ == v,
            },
        },
{
    match current {
        None => Resolution::NotReady,
        Some(d) => match d.get(address) {
            None => Resolution::NoMatch,
            Some(rec) => Resolution::Found(rec),
        },
    }
}

} // verus!

verus! {

/// As long as no cycle has succeeded, nothing is published: the loop is not
/// ready, and a lookup without a published table answers that it is not ready.
pub proof fn lemma_not_ready_before_success(frequency: u64, outcomes: Seq<bool>)
    requires
        forall|i: int| 0 <= i < outcomes.len() ==> !#[trigger] outcomes[i],
    ensures
        !run(frequency, outcomes).ready,
        run(frequency, outcomes).publications == 0,
        !run(frequency, outcomes).finished,
    decreases outcomes.len(),
{
    if outcomes.len() > 0 {
        let p = outcomes.drop_last();
        assert forall|i: int| 0 <= i < p.len() implies !#[trigger] p[i] by {
            assert(p[i] == outcomes[i]);
        }
        lemma_not_ready_before_success(frequency, p);
        assert(!outcomes[outcomes.len() - 1]);
    }
}

/// Failed cycles followed by one that succeeds: each failure waits the fixed
/// retry delay and publishes nothing, and the success publishes, after which
/// the table is available.
pub proof fn lemma_ready_after_retries(frequency: u64, outcomes: Seq<bool>)
    requires
        outcomes.len() > 0,
        outcomes.last(),
        forall|i: int| 0 <= i < outcomes.len() - 1 ==> !#[trigger] outcomes[i],
    ensures
        decision_for(frequency, false) == (Decision::Retry { delay_secs: RETRY_DELAY_SECS }),
        !run(frequency, outcomes.drop_last()).ready,
        run(frequency, outcomes).ready,
        run(frequency, outcomes).publications == 1,
        run(frequency, outcomes).cycles == outcomes.len(),
{
    let p = outcomes.drop_last();
    assert forall|i: int| 0 <= i < p.len() implies !#[trigger] p[i] by {
        assert(p[i] == outcomes[i]);
    }
    lemma_not_ready_before_success(frequency, p);
    lemma_cycles_before_finish(frequency, p);
}

proof fn lemma_cycles_before_finish(frequency: u64, outcomes: Seq<bool>)
    requires
        forall|i: int| 0 <= i < outcomes.len() ==> !#[trigger] outcomes[i],
    ensures
        run(frequency, outcomes).cycles == outcomes.len(),
    decreases outcomes.len(),
{
    if outcomes.len() > 0 {
        let p = outcomes.drop_last();
        assert forall|i: int| 0 <= i < p.len() implies !#[trigger] p[i] by {
            assert(p[i] == outcomes[i]);
        }
        lemma_cycles_before_finish(frequency, p);
        lemma_not_ready_before_success(frequency, p);
    }
}

/// With a refresh frequency of zero the loop stops after its first successful
/// cycle: that cycle publishes, and whatever would follow changes nothing, so
/// exactly one table is ever published.
pub proof fn lemma_one_shot(outcomes: Seq<bool>, later: Seq<bool>)
    requires
        outcomes.len() > 0,
        outcomes.last(),
        forall|i: int| 0 <= i < outcomes.len() - 1 ==> !#[trigger] outcomes[i],
    ensures
        run(0, outcomes).finished,
        run(0, outcomes).publications == 1,
        run(0, outcomes + later) == run(0, outcomes),
    decreases later.len(),
{
    lemma_ready_after_retries(0, outcomes);
    if later.len() > 0 {
        lemma_one_shot(outcomes, later.drop_last());
        assert((outcomes + later).drop_last() =~= outcomes + later.drop_last());
    } else {
        assert(outcomes + later =~= outcomes);
    }
}

} // verus!
