//! A fast but imprecise rate limiter.
//!
//! Every client address is hashed to one cell in each of several shards of
//! small counters, so that no lock and no per-client allocation is needed.
//! Unrelated clients that share a cell throttle each other a little early;
//! a client over its limit is never let through.

use crate::rate_limit::xor_hash::{data_words, lemma_xor_assoc, xor_fold, XorHasher};
use vstd::prelude::*;

verus! {

/// Bits of the hash that pick a cell within a shard.
pub const BUCKET_SIZE_BITS: usize = 8;

/// Cells in one shard: `1 << BUCKET_SIZE_BITS`.
pub const BUCKET_SIZE: usize = 256;

/// Bits of the hash that pick the order in which a client visits the shards.
pub const BUCKET_NUM_BITS: usize = 2;

/// Number of shards: `1 << BUCKET_NUM_BITS`.
pub const BUCKET_NUM: usize = 4;

/// Cells in all shards together.
pub const CELL_COUNT: usize = 1024;

/// The largest count a cell can hold.
pub const CELL_MAX: u8 = 255;

/// The sixteen bytes of `client`, least significant first.
pub open spec fn client_bytes(client: u128) -> Seq<u8> {
    Seq::new(16, |i: int| (client >> ((8 * i) as u128)) as u8)
}

/// The hash that the pre-filter files `client` under: its bytes run through
/// `XorHasher`.
pub open spec fn client_hash(client: u128) -> u64 {
    xor_fold(data_words(client_bytes(client)))
}

/// The shard that a client with hash `hash` visits at step `step`. The top
/// bits of the hash pick the order, so that clients rotate differently
/// around the shards.
pub open spec fn shard_at(hash: u64, step: int) -> int {
    ((step as usize) ^ ((hash >> 62u64) as usize)) as int % 4
}

/// The cell that a client with hash `hash` uses at step `step`: in the shard
/// of that step, the byte of the hash that belongs to the shard.
pub open spec fn cell_at(hash: u64, step: int) -> int {
    let shard = shard_at(hash, step);
    shard * 256 + ((hash >> ((shard * 8) as u64)) as u8) as int
}

/// How much of `threshold` the shards of steps `0..=step` may hold together:
/// an even, rising share that reaches `threshold` at the last step.
pub open spec fn share_upto(threshold: int, step: int) -> int {
    threshold * (step + 1) / 4
}

/// The cell that takes a request from the client with hash `hash`, looking
/// from step `step` on with `count` requests seen in earlier steps: the cell
/// of the first step where the running count stays under the running share
/// and the cell has room left; `None` where every step is full.
pub open spec fn admit_cell(threshold: int, cells: Seq<u8>, hash: u64, step: int, count: int) -> Option<int>
    decreases 4 - step,
{
    if 0 <= step < 4 {
        let cell = cell_at(hash, step);
        let seen = count + cells[cell];
        if seen < share_upto(threshold, step) && cells[cell] < 255 {
            Some(cell)
        } else {
            admit_cell(threshold, cells, hash, step + 1, seen)
        }
    } else {
        None
    }
}

/// The pre-filter's state as numbers: its threshold and one counter per cell.
pub struct PreCounters {
    pub threshold: nat,
    pub cells: Seq<u8>,
}

impl PreCounters {
    pub open spec fn wf(self) -> bool {
        self.cells.len() == CELL_COUNT
    }

    /// The cell that counts the next request from `hash`, if it is let
    /// through.
    pub open spec fn admitting(self, hash: u64) -> Option<int> {
        admit_cell(self.threshold as int, self.cells, hash, 0, 0)
    }

    /// The next request from `hash` is turned away.
    pub open spec fn rejects(self, hash: u64) -> bool {
        self.admitting(hash) is None
    }

    /// The state after a request from `hash`: one more in the cell that let
    /// it through, if any.
    pub open spec fn after_request(self, hash: u64) -> PreCounters {
        match self.admitting(hash) {
            Some(cell) => PreCounters {
                threshold: self.threshold,
                cells: self.cells.update(cell, (self.cells[cell] + 1) as u8),
            },
            None => self,
        }
    }

    /// The state after the timer clears shard `shard`.
    pub open spec fn after_clear(self, shard: int) -> PreCounters {
        PreCounters {
            threshold: self.threshold,
            cells: Seq::new(
                self.cells.len(),
                |i: int|
                    if shard * 256 <= i < shard * 256 + 256 {
                        0u8
                    } else {
                        self.cells[i]
                    },
            ),
        }
    }
}

/// The cells of different steps of one client lie in different shards.
proof fn lemma_cells_distinct(hash: u64, i: int, j: int)
    requires
        0 <= i < 4,
        0 <= j < 4,
    ensures
        0 <= cell_at(hash, i) < CELL_COUNT,
        i != j ==> cell_at(hash, i) != cell_at(hash, j),
{
    let o = (hash >> 62u64) as usize;
    let a = i as usize;
    let b = j as usize;
    assert(a < 4 && b < 4 && a != b ==> (a ^ o) % 4 != (b ^ o) % 4) by (bit_vector);
    let si = shard_at(hash, i);
    let sj = shard_at(hash, j);
    let bi = ((hash >> ((si * 8) as u64)) as u8) as int;
    let bj = ((hash >> ((sj * 8) as u64)) as u8) as int;
    assert(si * 256 + bi != sj * 256 + bj || si == sj) by (nonlinear_arith)
        requires
            0 <= bi < 256,
            0 <= bj < 256,
    ;
}

/// Shares rise with the step, by at most what one cell can count where the
/// threshold is at most `4 * 255`, and reach the threshold at the last step.
proof fn lemma_share_mono(threshold: int, a: int, b: int)
    requires
        0 <= threshold,
        -1 <= a <= b <= 3,
    ensures
        share_upto(threshold, -1) == 0,
        share_upto(threshold, 3) == threshold,
        0 <= share_upto(threshold, a) <= share_upto(threshold, b),
        threshold <= 4 * 255 && b == a + 1 ==> share_upto(threshold, b) - share_upto(threshold, a)
            <= 255,
{
    assert(threshold * (a + 1) <= threshold * (b + 1)) by (nonlinear_arith)
        requires
            0 <= threshold,
            a <= b,
    ;
    assert(0 <= threshold * (a + 1)) by (nonlinear_arith)
        requires
            0 <= threshold,
            -1 <= a,
    ;
    if threshold <= 4 * 255 && b == a + 1 {
        assert(threshold * (a + 2) == threshold * (a + 1) + threshold) by (nonlinear_arith);
    }
}

/// Where the running count of a client's requests reaches step `step`, the
/// step of the first shard with room left.
pub open spec fn first_open(threshold: int, n: int, step: int) -> int
    decreases 4 - step,
{
    if step >= 3 || n < share_upto(threshold, step) {
        step
    } else {
        first_open(threshold, n, step + 1)
    }
}

proof fn lemma_first_open(threshold: int, n: int, step: int)
    requires
        0 <= step <= 3,
        0 <= n < threshold,
        share_upto(threshold, step - 1) <= n,
    ensures
        step <= first_open(threshold, n, step) <= 3,
        share_upto(threshold, first_open(threshold, n, step) - 1) <= n,
        n < share_upto(threshold, first_open(threshold, n, step)),
        forall|j: int| step <= j < first_open(threshold, n, step) ==> n >= share_upto(threshold, j),
    decreases 4 - step,
{
    lemma_share_mono(threshold, 3, 3);
    if step < 3 && n >= share_upto(threshold, step) {
        lemma_first_open(threshold, n, step + 1);
    }
}

/// What a client's cell at step `step` holds after `n` requests from it,
/// starting from empty cells with no other client in them: the shards fill
/// one after another, each up to its part of the threshold.
pub open spec fn filled(threshold: int, n: int, step: int) -> int {
    let low = share_upto(threshold, step - 1);
    let high = share_upto(threshold, step);
    if n <= low {
        0
    } else if n >= high {
        high - low
    } else {
        n - low
    }
}

/// The pre-filter after `n` requests from the client with hash `hash`.
pub open spec fn repeated(s: PreCounters, hash: u64, n: nat) -> PreCounters
    decreases n,
{
    if n == 0 {
        s
    } else {
        repeated(s, hash, (n - 1) as nat).after_request(hash)
    }
}

/// With a client's cells filled for `n` of its requests, the scan from step
/// `step` lets the next one through at the first shard with room, or turns
/// it away once `n` has reached the threshold.
proof fn lemma_scan_filled(t: PreCounters, hash: u64, n: int, step: int)
    requires
        t.wf(),
        t.threshold <= 4 * 255,
        0 <= step <= 4,
        0 <= n <= t.threshold,
        share_upto(t.threshold as int, step - 1) <= n,
        forall|k: int| 0 <= k < 4 ==> t.cells[cell_at(hash, k)] == filled(t.threshold as int, n, k),
    ensures
        admit_cell(t.threshold as int, t.cells, hash, step, share_upto(t.threshold as int, step - 1))
            == if n < t.threshold {
            Some(cell_at(hash, first_open(t.threshold as int, n, step)))
        } else {
            None::<int>
        },
    decreases 4 - step,
{
    let thr = t.threshold as int;
    lemma_share_mono(thr, 3, 3);
    if step < 4 {
        lemma_share_mono(thr, step - 1, step);
        lemma_share_mono(thr, step, 3);
        lemma_cells_distinct(hash, step, step);
        let low = share_upto(thr, step - 1);
        let high = share_upto(thr, step);
        let cell = cell_at(hash, step);
        assert(t.cells[cell] == filled(thr, n, step));
        if n < high {
            assert(t.cells[cell] == n - low);
            assert(low + t.cells[cell] < high);
            assert(admit_cell(thr, t.cells, hash, step, low) == Some(cell));
        } else {
            assert(t.cells[cell] == high - low);
            assert(share_upto(thr, (step + 1) - 1) == high);
            lemma_scan_filled(t, hash, n, step + 1);
            assert(admit_cell(thr, t.cells, hash, step, low) == admit_cell(
                thr,
                t.cells,
                hash,
                step + 1,
                high,
            ));
        }
    }
}

/// The state of a client's cells after `n` requests from it, starting from
/// empty cells.
proof fn lemma_repeated(s: PreCounters, hash: u64, n: nat)
    requires
        s.wf(),
        s.threshold <= 4 * 255,
        n <= s.threshold,
        forall|k: int| 0 <= k < 4 ==> s.cells[cell_at(hash, k)] == 0,
    ensures
        repeated(s, hash, n).wf(),
        repeated(s, hash, n).threshold == s.threshold,
        forall|k: int|
            0 <= k < 4 ==> repeated(s, hash, n).cells[cell_at(hash, k)] == filled(
                s.threshold as int,
                n as int,
                k,
            ),
    decreases n,
{
    let thr = s.threshold as int;
    if n == 0 {
        assert forall|k: int| 0 <= k < 4 implies repeated(s, hash, n).cells[cell_at(hash, k)]
            == filled(thr, 0, k) by {
            lemma_share_mono(thr, k - 1, k);
        }
    } else {
        let m = (n - 1) as nat;
        lemma_repeated(s, hash, m);
        let t = repeated(s, hash, m);
        lemma_share_mono(thr, -1, -1);
        lemma_scan_filled(t, hash, m as int, 0);
        lemma_first_open(thr, m as int, 0);
        let open = first_open(thr, m as int, 0);
        let hit = cell_at(hash, open);
        lemma_cells_distinct(hash, open, open);
        assert(share_upto(thr, 0 - 1) == 0);
        assert(t.admitting(hash) == Some(hit));
        let u = repeated(s, hash, n);
        assert forall|k: int| 0 <= k < 4 implies u.cells[cell_at(hash, k)] == filled(
            thr,
            n as int,
            k,
        ) by {
            lemma_cells_distinct(hash, k, open);
            lemma_share_mono(thr, k - 1, k);
            assert(t.cells[cell_at(hash, k)] == filled(thr, m as int, k));
            if k < open {
                assert(m >= share_upto(thr, k));
                assert(u.cells[cell_at(hash, k)] == t.cells[cell_at(hash, k)]);
            } else if k > open {
                lemma_share_mono(thr, open, k - 1);
                assert(u.cells[cell_at(hash, k)] == t.cells[cell_at(hash, k)]);
            } else {
                assert(share_upto(thr, open - 1) <= m < share_upto(thr, open));
                assert(t.cells[hit] == m - share_upto(thr, open - 1));
                assert(u.cells[hit] == t.cells[hit] + 1);
            }
        }
    }
}

/// Pre-filter limit: a client whose cells are empty, with no other client
/// in them, is let through exactly `threshold` times and then turned away,
/// for every threshold up to what its four cells can count.
pub proof fn lemma_pre_filter_limit(s: PreCounters, hash: u64, n: nat)
    requires
        s.wf(),
        s.threshold <= 4 * 255,
        forall|k: int| 0 <= k < 4 ==> s.cells[cell_at(hash, k)] == 0,
    ensures
        n < s.threshold ==> !repeated(s, hash, n).rejects(hash),
        repeated(s, hash, s.threshold).rejects(hash),
{
    lemma_share_mono(s.threshold as int, -1, -1);
    if n < s.threshold {
        lemma_repeated(s, hash, n);
        lemma_scan_filled(repeated(s, hash, n), hash, n as int, 0);
    }
    lemma_repeated(s, hash, s.threshold);
    lemma_scan_filled(repeated(s, hash, s.threshold), hash, s.threshold as int, 0);
}

/// A scan that finds no room finds none either in cells that only grew.
proof fn lemma_scan_none_grows(
    threshold: int,
    cells: Seq<u8>,
    grown: Seq<u8>,
    hash: u64,
    step: int,
    count: int,
    more: int,
)
    requires
        cells.len() == CELL_COUNT,
        grown.len() == CELL_COUNT,
        forall|i: int| 0 <= i < CELL_COUNT ==> grown[i] >= cells[i],
        0 <= step,
        count <= more,
        admit_cell(threshold, cells, hash, step, count) is None,
    ensures
        admit_cell(threshold, grown, hash, step, more) is None,
    decreases 4 - step,
{
    if step < 4 {
        lemma_cells_distinct(hash, step, step);
        let cell = cell_at(hash, step);
        lemma_scan_none_grows(
            threshold,
            cells,
            grown,
            hash,
            step + 1,
            count + cells[cell],
            more + grown[cell],
        );
    }
}

/// The cell that a scan finds lies in range and has room left.
proof fn lemma_scan_some(threshold: int, cells: Seq<u8>, hash: u64, step: int, count: int)
    requires
        cells.len() == CELL_COUNT,
        0 <= step,
    ensures
        admit_cell(threshold, cells, hash, step, count) matches Some(c) ==> 0 <= c < CELL_COUNT
            && cells[c] < 255,
    decreases 4 - step,
{
    if step < 4 {
        lemma_cells_distinct(hash, step, step);
        lemma_scan_some(threshold, cells, hash, step + 1, count + cells[cell_at(hash, step)]);
    }
}

/// A request keeps the counters well formed.
pub proof fn lemma_request_keeps_wf(s: PreCounters, hash: u64)
    requires
        s.wf(),
    ensures
        s.after_request(hash).wf(),
{
    lemma_scan_some(s.threshold as int, s.cells, hash, 0, 0);
}

/// Without a tick, a client that is turned away stays turned away, whatever
/// requests come in meanwhile.
pub proof fn lemma_rejection_persists(s: PreCounters, hash: u64, other: u64)
    requires
        s.wf(),
        s.rejects(hash),
    ensures
        s.after_request(other).wf(),
        s.after_request(other).rejects(hash),
{
    lemma_scan_some(s.threshold as int, s.cells, other, 0, 0);
    let t = s.after_request(other);
    lemma_scan_none_grows(s.threshold as int, s.cells, t.cells, hash, 0, 0, 0);
}

/// Hashes a client address with `XorHasher`.
fn hash_client(client: u128) -> (h: u64)
    ensures
        h == client_hash(client),
{
    let mut bytes: Vec<u8> = Vec::new();
    let mut i: u128 = 0;
    while i < 16
        invariant
            i <= 16,
            bytes@ == client_bytes(client).take(i as int),
        decreases 16 - i,
    {
        bytes.push((client >> (8 * i)) as u8);
        i += 1;
        proof {
            assert(bytes@ =~= client_bytes(client).take(i as int));
        }
    }
    proof {
        assert(bytes@ =~= client_bytes(client));
    }
    let mut hasher = XorHasher::default();
    hasher.write(bytes.as_slice());
    proof {
        lemma_xor_assoc(xor_fold(data_words(bytes@)), 0, 0);
    }
    hasher.finish()
}

fn cell_index(hash: u64, step: usize) -> (cell: usize)
    requires
        step < BUCKET_NUM,
    ensures
        cell == cell_at(hash, step as int),
        cell < CELL_COUNT,
{
    let offset = (hash >> 62u64) as usize;
    let shard = (step ^ offset) % BUCKET_NUM;
    let idx = (hash >> ((shard * BUCKET_SIZE_BITS) as u64)) as u8 as usize;
    shard * BUCKET_SIZE + idx
}

fn share(threshold: usize, step: usize) -> (s: usize)
    requires
        step < BUCKET_NUM,
    ensures
        s == share_upto(threshold as int, step as int),
{
    let t = threshold as u128;
    let k = (step + 1) as u128;
    assert(t * k <= 4 * t && t * k / 4 <= t) by (nonlinear_arith)
        requires
            1 <= k <= 4,
    ;
    (t * k / 4) as usize
}

/// The counters of the pre-filter, without their timer.
pub struct FastPreRateLimiterInner {
    threshold: usize,
    buckets: Vec<u8>,
}

impl View for FastPreRateLimiterInner {
    type V = PreCounters;

    closed spec fn view(&self) -> PreCounters {
        PreCounters { threshold: self.threshold as nat, cells: self.buckets@ }
    }
}

impl FastPreRateLimiterInner {
    /// Empty counters for a limit of `threshold` requests per window.
    pub fn new(threshold: usize) -> (r: Self)
        ensures
            r@.wf(),
            r@.threshold == threshold,
            forall|i: int| 0 <= i < CELL_COUNT ==> r@.cells[i] == 0,
    {
        let mut buckets: Vec<u8> = Vec::new();
        while buckets.len() < CELL_COUNT
            invariant
                buckets@.len() <= CELL_COUNT,
                forall|i: int| 0 <= i < buckets@.len() ==> buckets@[i] == 0,
            decreases CELL_COUNT - buckets@.len(),
        {
            buckets.push(0);
        }
        FastPreRateLimiterInner { threshold, buckets }
    }

    /// Decides on a request from `peer`: `true` turns it away. A request let
    /// through is counted in the cell that let it through.
    pub fn rate_limit(&mut self, peer: u128) -> (reject: bool)
        requires
            old(self)@.wf(),
        ensures
            final(self)@.wf(),
            final(self)@ == old(self)@.after_request(client_hash(peer)),
            reject == old(self)@.rejects(client_hash(peer)),
    {
        let hash = hash_client(peer);
        let mut count: usize = 0;
        let mut step: usize = 0;
        while step < BUCKET_NUM
            invariant
                step <= BUCKET_NUM,
                hash == client_hash(peer),
                count <= 255 * step,
                self@ == old(self)@,
                self@.wf(),
                admit_cell(self.threshold as int, self.buckets@, hash, step as int, count as int)
                    == admit_cell(self.threshold as int, self.buckets@, hash, 0, 0),
            decreases BUCKET_NUM - step,
        {
            let cell = cell_index(hash, step);
            let value = self.buckets[cell];
            let ghost before = count;
            count += value as usize;
            if count < share(self.threshold, step) && value < CELL_MAX {
                assert(old(self)@.admitting(hash) == Some(cell as int)) by {
                    assert(admit_cell(self.threshold as int, self.buckets@, hash, step as int, before as int)
                        == Some(cell as int));
                }
                self.buckets.set(cell, value + 1);
                return false;
            }
            step += 1;
        }
        true
    }

    /// Clears shard `tick_i % BUCKET_NUM`.
    pub fn tick(&mut self, tick_i: usize)
        requires
            old(self)@.wf(),
        ensures
            final(self)@.wf(),
            final(self)@ == old(self)@.after_clear((tick_i % BUCKET_NUM) as int),
    {
        let bucket = tick_i % BUCKET_NUM;
        let mut i: usize = 0;
        while i < BUCKET_SIZE
            invariant
                i <= BUCKET_SIZE,
                bucket < BUCKET_NUM,
                self.threshold == old(self).threshold,
                self.buckets@.len() == CELL_COUNT,
                forall|j: int|
                    0 <= j < CELL_COUNT ==> #[trigger] self.buckets@[j] == if bucket * 256 <= j
                        < bucket * 256 + i {
                        0u8
                    } else {
                        old(self).buckets@[j]
                    },
            decreases BUCKET_SIZE - i,
        {
            self.buckets.set(bucket * BUCKET_SIZE + i, 0);
            i += 1;
        }
        proof {
            assert(self.buckets@ =~= old(self)@.after_clear(bucket as int).cells);
        }
    }
}

/// The pre-filter together with the schedule of its background timer: every
/// `tick_secs` seconds the timer clears one shard, taking the shards in turn,
/// so that each shard is cleared once per window.
pub struct FastPreRateLimiter {
    inner: FastPreRateLimiterInner,
    tick_secs: u64,
    tick_i: usize,
}

impl FastPreRateLimiter {
    /// The counters.
    pub closed spec fn counters(&self) -> PreCounters {
        self.inner@
    }

    /// The shard that the timer clears next.
    pub closed spec fn next_shard(&self) -> int {
        self.tick_i as int
    }

    /// Seconds between two ticks of the timer.
    pub closed spec fn interval(&self) -> u64 {
        self.tick_secs
    }

    pub closed spec fn wf(&self) -> bool {
        self.inner@.wf() && self.tick_i < BUCKET_NUM
    }

    /// A pre-filter that lets a client through `threshold` times per window
    /// of `window_secs` seconds, with empty counters.
    pub fn new(threshold: usize, window_secs: u64) -> (r: Self)
        ensures
            r.wf(),
            r.counters().threshold == threshold,
            forall|i: int| 0 <= i < CELL_COUNT ==> r.counters().cells[i] == 0,
            r.next_shard() == 0,
            r.interval() == window_secs / BUCKET_NUM as u64 + 1,
    {
        assert(BUCKET_NUM as u64 == 4);
        FastPreRateLimiter {
            inner: FastPreRateLimiterInner::new(threshold),
            tick_secs: window_secs / BUCKET_NUM as u64 + 1,
            tick_i: 0,
        }
    }

    /// Decides on a request from `peer`: `true` turns it away.
    pub fn rate_limit(&mut self, peer: u128) -> (reject: bool)
        requires
            old(self).wf(),
        ensures
            final(self).wf(),
            final(self).counters() == old(self).counters().after_request(client_hash(peer)),
            final(self).next_shard() == old(self).next_shard(),
            final(self).interval() == old(self).interval(),
            reject == old(self).counters().rejects(client_hash(peer)),
    {
        self.inner.rate_limit(peer)
    }

    /// What the timer does at each tick: clears the next shard and moves on
    /// to the one after it.
    pub fn tick(&mut self)
        requires
            old(self).wf(),
        ensures
            final(self).wf(),
            final(self).counters() == old(self).counters().after_clear(old(self).next_shard()),
            final(self).next_shard() == (old(self).next_shard() + 1) % BUCKET_NUM as int,
            final(self).interval() == old(self).interval(),
    {
        self.inner.tick(self.tick_i);
        self.tick_i = (self.tick_i + 1) % BUCKET_NUM;
    }

    /// Seconds the timer waits between two ticks.
    pub fn tick_secs(&self) -> (r: u64)
        ensures
            r == self.interval(),
    {
        self.tick_secs
    }
}

} // verus!
