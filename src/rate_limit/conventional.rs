//! An exact rate limiter: one count per client, kept in two generations
//! that the timer rotates.

use std::collections::HashMap;
use vstd::prelude::*;

verus! {

broadcast use vstd::std_specs::hash::group_hash_axioms;

/// The count that `m` holds for `client`, zero where it holds none.
pub open spec fn count_in(m: Map<u128, usize>, client: u128) -> int {
    if m.contains_key(client) {
        m[client] as int
    } else {
        0
    }
}

/// The exact stage's state as numbers: its threshold and the counts of the
/// current and of the previous generation.
pub struct ExactCounters {
    pub threshold: nat,
    pub current: Map<u128, usize>,
    pub previous: Map<u128, usize>,
}

impl ExactCounters {
    /// The requests of `client` counted over both generations.
    pub open spec fn count(self, client: u128) -> int {
        count_in(self.current, client) + count_in(self.previous, client)
    }

    /// The next request from `client` is turned away.
    pub open spec fn rejects(self, client: u128) -> bool {
        self.count(client) >= self.threshold
    }

    /// The state after a request from `client`: the current generation holds
    /// an entry for it, one higher where the request was let through.
    pub open spec fn after_request(self, client: u128) -> ExactCounters {
        let added: int = if self.rejects(client) {
            0
        } else {
            1
        };
        ExactCounters {
            current: self.current.insert(client, (count_in(self.current, client) + added) as usize),
            ..self
        }
    }

    /// The state after a tick of the timer: the current generation becomes
    /// the previous one, and a new, empty one starts.
    pub open spec fn after_tick(self) -> ExactCounters {
        ExactCounters { threshold: self.threshold, current: Map::empty(), previous: self.current }
    }
}

/// The exact stage after `n` requests from `client`, with no tick between.
pub open spec fn repeated(s: ExactCounters, client: u128, n: nat) -> ExactCounters
    decreases n,
{
    if n == 0 {
        s
    } else {
        repeated(s, client, (n - 1) as nat).after_request(client)
    }
}

proof fn lemma_repeated_count(s: ExactCounters, client: u128, n: nat)
    requires
        s.threshold <= usize::MAX,
        s.count(client) == 0,
        n <= s.threshold,
    ensures
        repeated(s, client, n).count(client) == n,
        repeated(s, client, n).threshold == s.threshold,
    decreases n,
{
    if n > 0 {
        lemma_repeated_count(s, client, (n - 1) as nat);
    }
}

/// Exact limit: a client with no count in either generation is let through
/// exactly `threshold` times before the next tick, and then turned away.
pub proof fn lemma_exact_limit(s: ExactCounters, client: u128, n: nat)
    requires
        s.threshold <= usize::MAX,
        s.count(client) == 0,
    ensures
        n < s.threshold ==> !repeated(s, client, n).rejects(client),
        repeated(s, client, s.threshold).rejects(client),
{
    if n < s.threshold {
        lemma_repeated_count(s, client, n);
    }
    lemma_repeated_count(s, client, s.threshold);
}

/// A full window without requests, that is two ticks, forgets every count:
/// the next request is let through unless the threshold is zero.
pub proof fn lemma_window_resets(s: ExactCounters, client: u128)
    ensures
        s.after_tick().after_tick().count(client) == 0,
        s.after_tick().after_tick().rejects(client) == (s.threshold == 0),
{
}

/// The two generations of counts, without their timer.
pub struct RateLimiterInner {
    threshold: usize,
    current: HashMap<u128, usize>,
    previous: HashMap<u128, usize>,
}

impl View for RateLimiterInner {
    type V = ExactCounters;

    closed spec fn view(&self) -> ExactCounters {
        ExactCounters { threshold: self.threshold as nat, current: self.current@, previous: self.previous@ }
    }
}

impl RateLimiterInner {
    /// Empty counts for a limit of `threshold` requests per window.
    pub fn new(threshold: usize) -> (r: Self)
        ensures
            r@.threshold == threshold,
            r@.current == Map::<u128, usize>::empty(),
            r@.previous == Map::<u128, usize>::empty(),
    {
        RateLimiterInner { threshold, current: HashMap::new(), previous: HashMap::new() }
    }

    /// Decides on a request from `peer`: `true` turns it away. A first
    /// request in a generation gets an entry; one let through is counted.
    pub fn rate_limit(&mut self, peer: u128) -> (reject: bool)
        ensures
            final(self)@ == old(self)@.after_request(peer),
            reject == old(self)@.rejects(peer),
    {
        if !self.current.contains_key(&peer) {
            self.current.insert(peer, 0);
        }
        let curr: usize = match self.current.get(&peer) {
            Some(n) => *n,
            None => 0,
        };
        let prev: usize = match self.previous.get(&peer) {
            Some(n) => *n,
            None => 0,
        };
        if curr < self.threshold && prev < self.threshold - curr {
            self.current.insert(peer, curr + 1);
            proof {
                assert(self.current@ =~= old(self)@.after_request(peer).current);
            }
            false
        } else {
            proof {
                assert(self.current@ =~= old(self)@.after_request(peer).current);
            }
            true
        }
    }

    /// Starts a new generation: the current one becomes the previous one, and
    /// the new current one is empty.
    pub fn tick(&mut self)
        ensures
            final(self)@ == old(self)@.after_tick(),
    {
        std::mem::swap(&mut self.current, &mut self.previous);
        self.current.clear();
    }
}

/// The exact stage together with the schedule of its background timer: a
/// new generation starts every `tick_secs` seconds, twice per window, so
/// that the two generations together span about one window.
pub struct RateLimiter {
    inner: RateLimiterInner,
    tick_secs: u64,
}

impl RateLimiter {
    /// The counts.
    pub closed spec fn counters(&self) -> ExactCounters {
        self.inner@
    }

    /// Seconds between two ticks of the timer.
    pub closed spec fn interval(&self) -> u64 {
        self.tick_secs
    }

    /// An exact limiter that lets a client through `threshold` times per
    /// window of `window_secs` seconds, with no counts yet.
    pub fn new(threshold: usize, window_secs: u64) -> (r: Self)
        ensures
            r.counters().threshold == threshold,
            r.counters().current == Map::<u128, usize>::empty(),
            r.counters().previous == Map::<u128, usize>::empty(),
            r.interval() == window_secs / 2 + 1,
    {
        RateLimiter { inner: RateLimiterInner::new(threshold), tick_secs: window_secs / 2 + 1 }
    }

    /// Decides on a request from `peer`: `true` turns it away.
    pub fn rate_limit(&mut self, peer: u128) -> (reject: bool)
        ensures
            final(self).counters() == old(self).counters().after_request(peer),
            final(self).interval() == old(self).interval(),
            reject == old(self).counters().rejects(peer),
    {
        self.inner.rate_limit(peer)
    }

    /// What the timer does at each tick: starts a new generation.
    pub fn tick(&mut self)
        ensures
            final(self).counters() == old(self).counters().after_tick(),
            final(self).interval() == old(self).interval(),
    {
        self.inner.tick();
    }

    /// Seconds the timer waits between two ticks.
    pub fn tick_secs(&self) -> (r: u64)
        ensures
            r == self.interval(),
    {
        self.tick_secs
    }
}

} // verus!
