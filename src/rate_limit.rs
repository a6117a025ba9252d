//! Admission control: a cheap sharded pre-filter, an exact per-client
//! limiter, and the two combined.

pub mod conventional;
pub mod pre;
pub mod xor_hash;

use crate::rate_limit::conventional::{count_in, ExactCounters, RateLimiter};
use crate::rate_limit::pre::{
    client_hash, lemma_rejection_persists, lemma_request_keeps_wf, FastPreRateLimiter, PreCounters,
};
use vstd::prelude::*;

verus! {

/// Both stages' state as numbers.
pub struct AdmissionCounters {
    pub pre: PreCounters,
    pub exact: ExactCounters,
}

impl AdmissionCounters {
    /// The next request from `client` is turned away by either stage.
    pub open spec fn rejects(self, client: u128) -> bool {
        self.pre.rejects(client_hash(client)) || self.exact.rejects(client)
    }

    /// The state after a request from `client`. The pre-filter sees every
    /// request; the exact stage only those that the pre-filter lets through.
    pub open spec fn after_request(self, client: u128) -> AdmissionCounters {
        if self.pre.rejects(client_hash(client)) {
            self
        } else {
            AdmissionCounters {
                pre: self.pre.after_request(client_hash(client)),
                exact: self.exact.after_request(client),
            }
        }
    }
}

/// What reaches the limiter: a request from a client, or a tick of the exact
/// stage's timer.
pub enum Event {
    Request(u128),
    ExactTick,
}

/// The decisions of the pre-filter alone, from `s`, on `events` in turn:
/// `true` where a request is turned away, `false` for anything else.
pub open spec fn pre_decisions(s: PreCounters, events: Seq<Event>) -> Seq<bool>
    decreases events.len(),
{
    if events.len() == 0 {
        Seq::empty()
    } else {
        match events[0] {
            Event::Request(c) => {
                let h = client_hash(c);
                seq![s.rejects(h)] + pre_decisions(s.after_request(h), events.drop_first())
            },
            Event::ExactTick => seq![false] + pre_decisions(s, events.drop_first()),
        }
    }
}

/// The decisions of the exact stage alone, from `s`, on `events` in turn.
pub open spec fn exact_decisions(s: ExactCounters, events: Seq<Event>) -> Seq<bool>
    decreases events.len(),
{
    if events.len() == 0 {
        Seq::empty()
    } else {
        match events[0] {
            Event::Request(c) => seq![s.rejects(c)] + exact_decisions(
                s.after_request(c),
                events.drop_first(),
            ),
            Event::ExactTick => seq![false] + exact_decisions(s.after_tick(), events.drop_first()),
        }
    }
}

/// The decisions of both stages combined, from `s`, on `events` in turn.
pub open spec fn admission_decisions(s: AdmissionCounters, events: Seq<Event>) -> Seq<bool>
    decreases events.len(),
{
    if events.len() == 0 {
        Seq::empty()
    } else {
        match events[0] {
            Event::Request(c) => seq![s.rejects(c)] + admission_decisions(
                s.after_request(c),
                events.drop_first(),
            ),
            Event::ExactTick => seq![false] + admission_decisions(
                AdmissionCounters { pre: s.pre, exact: s.exact.after_tick() },
                events.drop_first(),
            ),
        }
    }
}

/// The exact stage behind the pre-filter and the exact stage on its own hold
/// the same counts for every client that the pre-filter does not turn away.
pub open spec fn shadows(pre: PreCounters, behind: ExactCounters, alone: ExactCounters) -> bool {
    &&& behind.threshold == alone.threshold
    &&& forall|c: u128|
        #![trigger count_in(behind.current, c)]
        #![trigger count_in(alone.current, c)]
        !pre.rejects(client_hash(c)) ==> count_in(behind.current, c) == count_in(alone.current, c)
            && count_in(behind.previous, c) == count_in(alone.previous, c)
}

proof fn lemma_decisions(pre: PreCounters, behind: ExactCounters, alone: ExactCounters, events: Seq<Event>)
    requires
        pre.wf(),
        shadows(pre, behind, alone),
    ensures
        admission_decisions(AdmissionCounters { pre, exact: behind }, events).len() == events.len(),
        pre_decisions(pre, events).len() == events.len(),
        exact_decisions(alone, events).len() == events.len(),
        forall|i: int|
            0 <= i < events.len() ==> #[trigger] admission_decisions(
                AdmissionCounters { pre, exact: behind },
                events,
            )[i] == (pre_decisions(pre, events)[i] || exact_decisions(alone, events)[i]),
    decreases events.len(),
{
    if events.len() > 0 {
        let rest = events.drop_first();
        let both = AdmissionCounters { pre, exact: behind };
        match events[0] {
            Event::Request(c) => {
                let h = client_hash(c);
                let next = both.after_request(c);
                let alone2 = alone.after_request(c);
                assert(!pre.rejects(h) ==> count_in(behind.current, c) == count_in(
                    alone.current,
                    c,
                ));
                assert(shadows(next.pre, next.exact, alone2)) by {
                    assert forall|d: u128| !next.pre.rejects(client_hash(d)) implies count_in(
                        next.exact.current,
                        d,
                    ) == count_in(alone2.current, d) && count_in(next.exact.previous, d)
                        == count_in(alone2.previous, d) by {
                        if pre.rejects(client_hash(d)) {
                            lemma_rejection_persists(pre, client_hash(d), h);
                        }
                        assert(count_in(behind.current, d) == count_in(alone.current, d));
                    }
                }
                lemma_request_keeps_wf(pre, h);
                lemma_decisions(next.pre, next.exact, alone2, rest);
                assert forall|i: int| 0 <= i < events.len() implies #[trigger] admission_decisions(
                    both,
                    events,
                )[i] == (pre_decisions(pre, events)[i] || exact_decisions(alone, events)[i]) by {
                    if i > 0 {
                        assert(admission_decisions(both, events)[i] == admission_decisions(
                            next,
                            rest,
                        )[i - 1]);
                        assert(pre_decisions(pre, events)[i] == pre_decisions(next.pre, rest)[i
                            - 1]);
                        assert(exact_decisions(alone, events)[i] == exact_decisions(alone2, rest)[i
                            - 1]);
                    }
                }
            },
            Event::ExactTick => {
                let next = AdmissionCounters { pre, exact: behind.after_tick() };
                let alone2 = alone.after_tick();
                assert(shadows(pre, next.exact, alone2)) by {
                    assert forall|d: u128| !pre.rejects(client_hash(d)) implies count_in(
                        next.exact.current,
                        d,
                    ) == count_in(alone2.current, d) && count_in(next.exact.previous, d)
                        == count_in(alone2.previous, d) by {
                        assert(count_in(behind.current, d) == count_in(alone.current, d));
                    }
                }
                lemma_decisions(pre, next.exact, alone2, rest);
                assert forall|i: int| 0 <= i < events.len() implies #[trigger] admission_decisions(
                    both,
                    events,
                )[i] == (pre_decisions(pre, events)[i] || exact_decisions(alone, events)[i]) by {
                    if i > 0 {
                        assert(admission_decisions(both, events)[i] == admission_decisions(
                            next,
                            rest,
                        )[i - 1]);
                        assert(pre_decisions(pre, events)[i] == pre_decisions(pre, rest)[i - 1]);
                        assert(exact_decisions(alone, events)[i] == exact_decisions(alone2, rest)[i
                            - 1]);
                    }
                }
            },
        }
    }
}

/// Composition: replaying the same requests, from the same counts, against
/// the combined limiter and against each stage on its own, the combined
/// limiter turns a request away exactly where either stage on its own does.
/// Ticks of the exact stage's timer may come between the requests; a tick of
/// the pre-filter's timer may not, since a request that the pre-filter turned
/// away was never counted by the exact stage behind it.
pub proof fn lemma_combined_rejects_when_either_does(
    pre: PreCounters,
    exact: ExactCounters,
    events: Seq<Event>,
)
    requires
        pre.wf(),
    ensures
        forall|i: int|
            0 <= i < events.len() ==> (#[trigger] admission_decisions(
                AdmissionCounters { pre, exact },
                events,
            )[i] <==> pre_decisions(pre, events)[i] || exact_decisions(exact, events)[i]),
{
    lemma_decisions(pre, exact, exact, events);
}

/// The two stages together: a request is turned away where the pre-filter
/// turns it away, and otherwise where the exact stage does.
pub struct AdmissionLimiter {
    pre: FastPreRateLimiter,
    exact: RateLimiter,
}

impl AdmissionLimiter {
    /// Both stages' counts.
    pub closed spec fn counters(&self) -> AdmissionCounters {
        AdmissionCounters { pre: self.pre.counters(), exact: self.exact.counters() }
    }

    pub closed spec fn wf(&self) -> bool {
        self.pre.wf()
    }

    /// A limiter of two stages: the pre-filter with `pre_threshold` requests
    /// per `pre_window_secs` seconds, and the exact stage with `threshold`
    /// requests per `window_secs` seconds.
    pub fn new(pre_threshold: usize, pre_window_secs: u64, threshold: usize, window_secs: u64) -> (r:
        Self)
        ensures
            r.wf(),
            r.counters().pre.threshold == pre_threshold,
            forall|i: int| 0 <= i < pre::CELL_COUNT ==> r.counters().pre.cells[i] == 0,
            r.counters().exact.threshold == threshold,
            r.counters().exact.current == Map::<u128, usize>::empty(),
            r.counters().exact.previous == Map::<u128, usize>::empty(),
            r.pre_stage().interval() == pre_window_secs / 4 + 1,
            r.exact_stage().interval() == window_secs / 2 + 1,
    {
        AdmissionLimiter {
            pre: FastPreRateLimiter::new(pre_threshold, pre_window_secs),
            exact: RateLimiter::new(threshold, window_secs),
        }
    }

    /// The pre-filter.
    pub closed spec fn pre_stage(&self) -> FastPreRateLimiter {
        self.pre
    }

    /// The exact stage.
    pub closed spec fn exact_stage(&self) -> RateLimiter {
        self.exact
    }

    /// Decides on a request from `client`: `true` turns it away. The
    /// pre-filter decides first; the exact stage is asked only where the
    /// pre-filter lets the request through.
    pub fn should_reject(&mut self, client: u128) -> (reject: bool)
        requires
            old(self).wf(),
        ensures
            final(self).wf(),
            reject == old(self).counters().rejects(client),
            final(self).counters() == old(self).counters().after_request(client),
            final(self).pre_stage().interval() == old(self).pre_stage().interval(),
            final(self).exact_stage().interval() == old(self).exact_stage().interval(),
    {
        self.pre.rate_limit(client) || self.exact.rate_limit(client)
    }

    /// The pre-filter's timer tick: clears its next shard.
    pub fn tick_pre(&mut self)
        requires
            old(self).wf(),
        ensures
            final(self).wf(),
            final(self).counters().pre == old(self).counters().pre.after_clear(
                old(self).pre_stage().next_shard(),
            ),
            final(self).counters().exact == old(self).counters().exact,
            final(self).pre_stage().next_shard() == (old(self).pre_stage().next_shard() + 1) % 4,
    {
        self.pre.tick();
    }

    /// The exact stage's timer tick: starts a new generation.
    pub fn tick_exact(&mut self)
        requires
            old(self).wf(),
        ensures
            final(self).wf(),
            final(self).counters().pre == old(self).counters().pre,
            final(self).counters().exact == old(self).counters().exact.after_tick(),
    {
        self.exact.tick();
    }

    /// Seconds between two ticks of the pre-filter's timer.
    pub fn pre_tick_secs(&self) -> (r: u64)
        ensures
            r == self.pre_stage().interval(),
    {
        self.pre.tick_secs()
    }

    /// Seconds between two ticks of the exact stage's timer.
    pub fn exact_tick_secs(&self) -> (r: u64)
        ensures
            r == self.exact_stage().interval(),
    {
        self.exact.tick_secs()
    }
}

} // verus!
