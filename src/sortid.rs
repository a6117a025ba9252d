//! Byte-string keys whose order leaves room between any two of them.
//!
//! A key is read as an endless stream of bytes that goes on, past its last
//! byte, with the value 127.5: above `0x7f` and below `0x80`. The empty key
//! is therefore the middle of the order, and a key can always be made before
//! the first, after the last, or strictly between two others.

use std::cmp::Ordering;
use vstd::prelude::*;

verus! {

/// The doubled value of `k` at position `i`: `2 * k[i]` inside the key, and
/// 255 (twice 127.5) at every position past its end.
pub open spec fn digit(k: Seq<u8>, i: int) -> int {
    if 0 <= i < k.len() {
        2 * k[i]
    } else {
        255
    }
}

/// `a` and `b` show the same digits at every position before `i`.
pub open spec fn agree_before(a: Seq<u8>, b: Seq<u8>, i: int) -> bool {
    forall|j: int| 0 <= j < i ==> #[trigger] digit(a, j) == digit(b, j)
}

/// `a` sorts strictly before `b`: at the first position where their digits
/// differ, the digit of `a` is the smaller one.
pub open spec fn key_lt(a: Seq<u8>, b: Seq<u8>) -> bool {
    exists|i: int| 0 <= i && #[trigger] agree_before(a, b, i) && digit(a, i) < digit(b, i)
}

/// How `a` compares with `b` in key order.
pub open spec fn key_cmp(a: Seq<u8>, b: Seq<u8>) -> Ordering {
    if a == b {
        Ordering::Equal
    } else if key_lt(a, b) {
        Ordering::Less
    } else {
        Ordering::Greater
    }
}

/// A key sorts before another at position `i` where the two agree before it
/// and its digit is the smaller one there.
pub proof fn lemma_lt_at(a: Seq<u8>, b: Seq<u8>, i: int)
    requires
        0 <= i,
        agree_before(a, b, i),
        digit(a, i) < digit(b, i),
    ensures
        key_lt(a, b),
{
}

/// No key sorts before itself, and of two keys at most one sorts before the
/// other.
pub proof fn lemma_lt_asymmetric(a: Seq<u8>, b: Seq<u8>)
    ensures
        !key_lt(a, a),
        key_lt(a, b) ==> !key_lt(b, a),
{
    if key_lt(a, b) && key_lt(b, a) {
        let i = choose|i: int| 0 <= i && #[trigger] agree_before(a, b, i) && digit(a, i) < digit(b, i);
        let j = choose|j: int| 0 <= j && #[trigger] agree_before(b, a, j) && digit(b, j) < digit(a, j);
        if i < j {
            assert(digit(b, i) == digit(a, i));
        } else if j < i {
            assert(digit(a, j) == digit(b, j));
        }
    }
}

/// Keys that agree at every position up to the end of both are equal.
proof fn lemma_agree_equal(a: Seq<u8>, b: Seq<u8>)
    requires
        a.len() == b.len(),
        agree_before(a, b, a.len() as int),
    ensures
        a == b,
{
    assert forall|j: int| 0 <= j < a.len() implies a[j] == b[j] by {
        assert(digit(a, j) == digit(b, j));
    }
    assert(a =~= b);
}

/// The first position at or after `i` where `a` and `b` stop sharing bytes.
pub open spec fn shared_from(a: Seq<u8>, b: Seq<u8>, i: int) -> int
    decreases a.len() - i,
{
    if 0 <= i < a.len() && i < b.len() && a[i] == b[i] {
        shared_from(a, b, i + 1)
    } else {
        i
    }
}

/// The first position at or after `i` where `k` holds something other than
/// `byte`, or its end.
pub open spec fn run_end(k: Seq<u8>, i: int, byte: u8) -> int
    decreases k.len() - i,
{
    if 0 <= i < k.len() && k[i] == byte {
        run_end(k, i + 1, byte)
    } else {
        i
    }
}

/// The first `q` bytes of `k`, then one byte above what `k` shows at `q`:
/// half of `k[q]` moved into the upper half of the byte range, or `0xa0`
/// past the end.
pub open spec fn raised(k: Seq<u8>, q: int) -> Seq<u8> {
    k.take(q).push(if q < k.len() { (k[q] / 2 + 0x80) as u8 } else { 0xa0 })
}

/// The first `q` bytes of `k`, then one byte below what `k` shows at `q`:
/// half of `k[q]`, or `0x40` past the end.
pub open spec fn lowered(k: Seq<u8>, q: int) -> Seq<u8> {
    k.take(q).push(if q < k.len() { k[q] / 2 } else { 0x40 })
}

/// The key placed in front of `k`: its leading zero bytes, then the first
/// other byte halved, or `0x40` where `k` holds only zeros.
pub open spec fn key_before(k: Seq<u8>) -> Seq<u8> {
    lowered(k, run_end(k, 0, 0x00))
}

/// The key placed after `k`: its leading `0xff` bytes, then the first other
/// byte moved into the upper half, or `0xa0` where `k` holds only `0xff`.
pub open spec fn key_after(k: Seq<u8>) -> Seq<u8> {
    raised(k, run_end(k, 0, 0xff))
}

/// The key between `lo` and `hi` whose bytes at `p` and `p + 1` differ by
/// exactly one, so that no byte fits between them at `p`.
pub open spec fn split_adjacent(lo: Seq<u8>, hi: Seq<u8>, p: int) -> Seq<u8> {
    let n = p + 1;
    let raise_low = raised(lo, run_end(lo, n, 0xff));
    let lower_high = lowered(hi, n);
    if n < hi.len() && hi[n] == 0x00 {
        raise_low
    } else if n < lo.len() && lo[n] == 0xff {
        lower_high
    } else if n < lo.len() && n < hi.len() {
        if lo[n] < 0x80 {
            raise_low
        } else if hi[n] >= 0x80 {
            lower_high
        } else {
            lo.take(n).push(0xff)
        }
    } else if n < lo.len() {
        raise_low
    } else if n < hi.len() {
        lower_high
    } else {
        hi.take(n).push(0x00)
    }
}

/// The key between `lo` and `hi`, which share their first `p` bytes, with
/// `lo` the lower of the two at `p`.
pub open spec fn split_ordered(lo: Seq<u8>, hi: Seq<u8>, p: int) -> Seq<u8> {
    if p < lo.len() && p < hi.len() {
        if hi[p] >= lo[p] + 2 {
            lo.take(p).push(((lo[p] + hi[p]) / 2) as u8)
        } else {
            split_adjacent(lo, hi, p)
        }
    } else if p < lo.len() {
        if lo[p] == 0x7f {
            raised(lo, run_end(lo, p + 1, 0xff))
        } else {
            lo.take(p).push((lo[p] / 2 + 0x40) as u8)
        }
    } else if p < hi.len() {
        if hi[p] == 0x80 {
            lowered(hi, run_end(hi, p + 1, 0x00))
        } else {
            hi.take(p).push((hi[p] / 2 + 0x40) as u8)
        }
    } else {
        lo
    }
}

/// The key that `SortId::between` makes for `a` and `b`, in either order.
pub open spec fn midpoint(a: Seq<u8>, b: Seq<u8>) -> Seq<u8> {
    let p = shared_from(a, b, 0);
    if digit(b, p) < digit(a, p) {
        split_ordered(b, a, p)
    } else {
        split_ordered(a, b, p)
    }
}

proof fn lemma_shared_from(a: Seq<u8>, b: Seq<u8>, i: int)
    requires
        0 <= i <= a.len(),
        i <= b.len(),
        agree_before(a, b, i),
    ensures
        i <= shared_from(a, b, i) <= a.len(),
        shared_from(a, b, i) <= b.len(),
        agree_before(a, b, shared_from(a, b, i)),
        shared_from(a, b, i) == a.len() || shared_from(a, b, i) == b.len()
            || a[shared_from(a, b, i)] != b[shared_from(a, b, i)],
        shared_from(b, a, i) == shared_from(a, b, i),
    decreases a.len() - i,
{
    if i < a.len() && i < b.len() && a[i] == b[i] {
        assert(agree_before(a, b, i + 1)) by {
            assert forall|j: int| 0 <= j < i + 1 implies #[trigger] digit(a, j) == digit(b, j) by {
                if j < i {
                    assert(digit(a, j) == digit(b, j));
                }
            }
        }
        lemma_shared_from(a, b, i + 1);
    }
}

proof fn lemma_run_end(k: Seq<u8>, i: int, byte: u8)
    requires
        0 <= i <= k.len(),
    ensures
        i <= run_end(k, i, byte) <= k.len(),
        forall|j: int| i <= j < run_end(k, i, byte) ==> k[j] == byte,
        run_end(k, i, byte) == k.len() || k[run_end(k, i, byte)] != byte,
    decreases k.len() - i,
{
    if i < k.len() && k[i] == byte {
        lemma_run_end(k, i + 1, byte);
    }
}

/// `k.take(q).push(x)` agrees with `k` before `q`.
proof fn lemma_prefix_agrees(k: Seq<u8>, q: int, x: u8)
    requires
        0 <= q <= k.len(),
    ensures
        agree_before(k.take(q).push(x), k, q),
        agree_before(k, k.take(q).push(x), q),
{
    let r = k.take(q).push(x);
    assert forall|j: int| 0 <= j < q implies #[trigger] digit(r, j) == digit(k, j) by {
        assert(r[j] == k[j]);
    }
    assert forall|j: int| 0 <= j < q implies #[trigger] digit(k, j) == digit(r, j) by {
        assert(r[j] == k[j]);
    }
}

/// Where `r` agrees with `k` up to and including `p`, and `k` sorts before
/// `h` at `p`, `r` sorts before `h` too.
proof fn lemma_lt_through(r: Seq<u8>, k: Seq<u8>, h: Seq<u8>, p: int)
    requires
        0 <= p,
        agree_before(r, k, p + 1),
        agree_before(k, h, p),
        digit(k, p) < digit(h, p),
    ensures
        key_lt(r, h),
{
    assert(digit(r, p) == digit(k, p));
    assert forall|j: int| 0 <= j < p implies #[trigger] digit(r, j) == digit(h, j) by {
        assert(digit(r, j) == digit(k, j));
        assert(digit(k, j) == digit(h, j));
    }
    lemma_lt_at(r, h, p);
}

/// Where `r` agrees with `k` up to and including `p`, and `h` sorts before
/// `k` at `p`, `h` sorts before `r` too.
proof fn lemma_gt_through(r: Seq<u8>, k: Seq<u8>, h: Seq<u8>, p: int)
    requires
        0 <= p,
        agree_before(r, k, p + 1),
        agree_before(h, k, p),
        digit(h, p) < digit(k, p),
    ensures
        key_lt(h, r),
{
    assert(digit(r, p) == digit(k, p));
    assert forall|j: int| 0 <= j < p implies #[trigger] digit(h, j) == digit(r, j) by {
        assert(digit(r, j) == digit(k, j));
        assert(digit(h, j) == digit(k, j));
    }
    lemma_lt_at(h, r, p);
}

/// Agreement before a position carries to every earlier position.
proof fn lemma_agree_shorter(a: Seq<u8>, b: Seq<u8>, i: int, j: int)
    requires
        0 <= j <= i,
        agree_before(a, b, i),
    ensures
        agree_before(a, b, j),
{
    assert forall|m: int| 0 <= m < j implies #[trigger] digit(a, m) == digit(b, m) by {
        assert(digit(a, m) == digit(b, m));
    }
}

/// `raised(k, q)` sorts after `k` and agrees with it before `q`, where `q`
/// ends a run of `0xff` bytes.
proof fn lemma_raised(k: Seq<u8>, q: int)
    requires
        0 <= q <= k.len(),
        q == k.len() || k[q] != 0xff,
    ensures
        key_lt(k, raised(k, q)),
        agree_before(raised(k, q), k, q),
        raised(k, q).len() == q + 1,
{
    let x: u8 = if q < k.len() { (k[q] / 2 + 0x80) as u8 } else { 0xa0 };
    lemma_prefix_agrees(k, q, x);
    assert(raised(k, q) == k.take(q).push(x));
    assert(digit(raised(k, q), q) == 2 * x);
    lemma_lt_at(k, raised(k, q), q);
}

/// `lowered(k, q)` sorts before `k` and agrees with it before `q`, where `q`
/// ends a run of zero bytes.
proof fn lemma_lowered(k: Seq<u8>, q: int)
    requires
        0 <= q <= k.len(),
        q == k.len() || k[q] != 0x00,
    ensures
        key_lt(lowered(k, q), k),
        agree_before(lowered(k, q), k, q),
        agree_before(k, lowered(k, q), q),
        lowered(k, q).len() == q + 1,
{
    let x: u8 = if q < k.len() { k[q] / 2 } else { 0x40 };
    lemma_prefix_agrees(k, q, x);
    assert(lowered(k, q) == k.take(q).push(x));
    assert(digit(lowered(k, q), q) == 2 * x);
    lemma_lt_at(lowered(k, q), k, q);
}

/// Agreement before a position is transitive.
proof fn lemma_agree_trans(a: Seq<u8>, b: Seq<u8>, c: Seq<u8>, i: int)
    requires
        agree_before(a, b, i),
        agree_before(b, c, i),
    ensures
        agree_before(a, c, i),
        agree_before(c, a, i),
{
    assert forall|j: int| 0 <= j < i implies #[trigger] digit(a, j) == digit(c, j) by {
        assert(digit(a, j) == digit(b, j));
        assert(digit(b, j) == digit(c, j));
    }
    assert forall|j: int| 0 <= j < i implies #[trigger] digit(c, j) == digit(a, j) by {
        assert(digit(a, j) == digit(b, j));
        assert(digit(b, j) == digit(c, j));
    }
}

/// The key made from `lo` and `hi`, whose bytes at `p` and `p + 1` differ by
/// one, lies strictly between them.
proof fn lemma_split_adjacent(lo: Seq<u8>, hi: Seq<u8>, p: int)
    requires
        0 <= p < lo.len(),
        p < hi.len(),
        agree_before(lo, hi, p),
        hi[p] == lo[p] + 1,
    ensures
        key_lt(lo, split_adjacent(lo, hi, p)),
        key_lt(split_adjacent(lo, hi, p), hi),
        split_adjacent(lo, hi, p).len() <= lo.len() + 1 || split_adjacent(lo, hi, p).len()
            <= hi.len() + 1,
{
    let n = p + 1;
    let r = split_adjacent(lo, hi, p);
    let q = run_end(lo, n, 0xff);
    lemma_run_end(lo, n, 0xff);
    let raise_low = raised(lo, q);
    let lower_high = lowered(hi, n);
    if r == raise_low {
        lemma_raised(lo, q);
        lemma_agree_shorter(raise_low, lo, q, n);
        lemma_lt_through(raise_low, lo, hi, p);
    } else if r == lower_high {
        lemma_lowered(hi, n);
        lemma_gt_through(lower_high, hi, lo, p);
    } else if n < lo.len() && n < hi.len() {
        // lo[n] lies in 0x80..0xff: the low key followed by 0xff.
        lemma_prefix_agrees(lo, n, 0xff);
        lemma_lt_at(lo, r, n);
        lemma_lt_through(r, lo, hi, p);
    } else {
        // Both keys end at n: the high key's prefix followed by a zero.
        lemma_prefix_agrees(hi, n, 0x00);
        lemma_lt_at(r, hi, n);
        lemma_gt_through(r, hi, lo, p);
    }
}

/// The key made from `lo` and `hi`, which agree before `p` and where `lo`
/// is the lower at `p`, lies strictly between them and is at most one byte
/// longer than the longer of the two.
proof fn lemma_split_ordered(lo: Seq<u8>, hi: Seq<u8>, p: int)
    requires
        0 <= p <= lo.len(),
        p <= hi.len(),
        agree_before(lo, hi, p),
        digit(lo, p) < digit(hi, p),
    ensures
        key_lt(lo, split_ordered(lo, hi, p)),
        key_lt(split_ordered(lo, hi, p), hi),
        split_ordered(lo, hi, p).len() <= lo.len() + 1 || split_ordered(lo, hi, p).len()
            <= hi.len() + 1,
{
    let r = split_ordered(lo, hi, p);
    if p < lo.len() && p < hi.len() {
        if hi[p] >= lo[p] + 2 {
            let m: u8 = ((lo[p] + hi[p]) / 2) as u8;
            lemma_prefix_agrees(lo, p, m);
            lemma_lt_at(lo, r, p);
            lemma_agree_trans(r, lo, hi, p);
            lemma_lt_at(r, hi, p);
        } else {
            lemma_split_adjacent(lo, hi, p);
        }
    } else if p < lo.len() {
        if lo[p] == 0x7f {
            let q = run_end(lo, p + 1, 0xff);
            lemma_run_end(lo, p + 1, 0xff);
            lemma_raised(lo, q);
            lemma_agree_shorter(r, lo, q, p + 1);
            lemma_lt_through(r, lo, hi, p);
        } else {
            let m: u8 = (lo[p] / 2 + 0x40) as u8;
            lemma_prefix_agrees(lo, p, m);
            lemma_lt_at(lo, r, p);
            lemma_agree_trans(r, lo, hi, p);
            lemma_lt_at(r, hi, p);
        }
    } else {
        if hi[p] == 0x80 {
            let q = run_end(hi, p + 1, 0x00);
            lemma_run_end(hi, p + 1, 0x00);
            lemma_lowered(hi, q);
            lemma_agree_shorter(r, hi, q, p + 1);
            lemma_gt_through(r, hi, lo, p);
        } else {
            let m: u8 = (hi[p] / 2 + 0x40) as u8;
            lemma_prefix_agrees(hi, p, m);
            lemma_lt_at(r, hi, p);
            lemma_agree_trans(lo, hi, r, p);
            lemma_lt_at(lo, r, p);
        }
    }
}

/// Bisection keeps order: the midpoint of two equal keys is that key, and
/// the midpoint of two different keys lies strictly between them, in either
/// order of the arguments. It is at most one byte longer than the longer
/// argument.
pub proof fn lemma_midpoint_order(a: Seq<u8>, b: Seq<u8>)
    ensures
        a == b ==> midpoint(a, b) == a,
        key_lt(a, b) ==> key_lt(a, midpoint(a, b)) && key_lt(midpoint(a, b), b),
        key_lt(b, a) ==> key_lt(b, midpoint(a, b)) && key_lt(midpoint(a, b), a),
        midpoint(a, b).len() <= a.len() + 1 || midpoint(a, b).len() <= b.len() + 1,
{
    lemma_shared_from(a, b, 0);
    lemma_lt_asymmetric(a, b);
    lemma_lt_asymmetric(b, a);
    let p = shared_from(a, b, 0);
    if p == a.len() && p == b.len() {
        lemma_agree_equal(a, b);
    } else {
        assert(digit(a, p) != digit(b, p));
        if digit(a, p) < digit(b, p) {
            lemma_lt_at(a, b, p);
            lemma_split_ordered(a, b, p);
        } else {
            assert forall|j: int| 0 <= j < p implies #[trigger] digit(b, j) == digit(a, j) by {
                assert(digit(a, j) == digit(b, j));
            }
            lemma_lt_at(b, a, p);
            lemma_split_ordered(b, a, p);
        }
    }
}

/// Key order is transitive.
pub proof fn lemma_lt_transitive(a: Seq<u8>, b: Seq<u8>, c: Seq<u8>)
    requires
        key_lt(a, b),
        key_lt(b, c),
    ensures
        key_lt(a, c),
{
    let i = choose|i: int| 0 <= i && #[trigger] agree_before(a, b, i) && digit(a, i) < digit(b, i);
    let j = choose|j: int| 0 <= j && #[trigger] agree_before(b, c, j) && digit(b, j) < digit(c, j);
    let m = if i < j { i } else { j };
    lemma_agree_shorter(a, b, i, m);
    lemma_agree_shorter(b, c, j, m);
    lemma_agree_trans(a, b, c, m);
    if i < j {
        assert(digit(b, i) == digit(c, i));
    } else if j < i {
        assert(digit(a, j) == digit(b, j));
    }
    lemma_lt_at(a, c, m);
}

/// The key reached from `high` by bisecting towards `low` `n` times, each
/// time taking the midpoint of `low` and the key reached so far.
pub open spec fn bisect_down(low: Seq<u8>, high: Seq<u8>, n: nat) -> Seq<u8>
    decreases n,
{
    if n == 0 {
        high
    } else {
        midpoint(low, bisect_down(low, high, (n - 1) as nat))
    }
}

/// The key reached from `low` by bisecting towards `high` `n` times, each
/// time taking the midpoint of the key reached so far and `high`.
pub open spec fn bisect_up(low: Seq<u8>, high: Seq<u8>, n: nat) -> Seq<u8>
    decreases n,
{
    if n == 0 {
        low
    } else {
        midpoint(bisect_up(low, high, (n - 1) as nat), high)
    }
}

/// Repeated bisection never runs out of room: bisecting `a < b` again and
/// again against its predecessor or successor, every new key lies strictly
/// between `a` and `b` and differs from both keys it was made from.
pub proof fn lemma_repeated_bisection(a: Seq<u8>, b: Seq<u8>, n: nat)
    requires
        key_lt(a, b),
    ensures
        key_lt(a, bisect_down(a, b, n)),
        n > 0 ==> key_lt(bisect_down(a, b, n), bisect_down(a, b, (n - 1) as nat)),
        n > 0 ==> key_lt(bisect_down(a, b, n), b),
        key_lt(bisect_up(a, b, n), b),
        n > 0 ==> key_lt(bisect_up(a, b, (n - 1) as nat), bisect_up(a, b, n)),
        n > 0 ==> key_lt(a, bisect_up(a, b, n)),
    decreases n,
{
    if n > 0 {
        let m = (n - 1) as nat;
        lemma_repeated_bisection(a, b, m);
        lemma_midpoint_order(a, bisect_down(a, b, m));
        lemma_midpoint_order(bisect_up(a, b, m), b);
        if m > 0 {
            lemma_lt_transitive(bisect_down(a, b, n), bisect_down(a, b, m), b);
            lemma_lt_transitive(a, bisect_up(a, b, m), bisect_up(a, b, n));
        }
    }
}

/// The doubled value of `k` at position `i`.
fn digit_at(k: &Vec<u8>, i: usize) -> (d: u16)
    ensures
        d == digit(k@, i as int),
{
    if i < k.len() {
        2 * (k[i] as u16)
    } else {
        255
    }
}

/// The number of leading bytes that `a` and `b` share.
fn shared_len(a: &Vec<u8>, b: &Vec<u8>) -> (p: usize)
    ensures
        p == shared_from(a@, b@, 0),
{
    let mut p: usize = 0;
    while p < a.len() && p < b.len() && a[p] == b[p]
        invariant
            p <= a.len(),
            shared_from(a@, b@, p as int) == shared_from(a@, b@, 0),
        decreases a.len() - p,
    {
        p += 1;
    }
    p
}

/// The first position at or after `i` where `k` holds something other than
/// `byte`, or its length.
fn find_run_end(k: &Vec<u8>, i: usize, byte: u8) -> (q: usize)
    requires
        i <= k.len(),
    ensures
        q == run_end(k@, i as int, byte),
        i <= q <= k.len(),
{
    let mut q: usize = i;
    while q < k.len() && k[q] == byte
        invariant
            i <= q <= k.len(),
            run_end(k@, q as int, byte) == run_end(k@, i as int, byte),
        decreases k.len() - q,
    {
        q += 1;
    }
    q
}

/// A copy of the first `q` bytes of `k`.
fn copy_prefix(k: &Vec<u8>, q: usize) -> (r: Vec<u8>)
    requires
        q <= k.len(),
    ensures
        r@ == k@.take(q as int),
{
    let mut r: Vec<u8> = Vec::new();
    let mut i: usize = 0;
    while i < q
        invariant
            i <= q <= k.len(),
            r@ == k@.take(i as int),
        decreases q - i,
    {
        r.push(k[i]);
        i += 1;
        proof {
            assert(r@ =~= k@.take(i as int));
        }
    }
    r
}

/// The first `q` bytes of `k`, then `last`.
fn prefix_then(k: &Vec<u8>, q: usize, last: u8) -> (r: Vec<u8>)
    requires
        q <= k.len(),
    ensures
        r@ == k@.take(q as int).push(last),
{
    let mut r = copy_prefix(k, q);
    r.push(last);
    r
}

/// The key just above `k` that keeps its first `q` bytes.
fn raise(k: &Vec<u8>, q: usize) -> (r: Vec<u8>)
    requires
        q <= k.len(),
    ensures
        r@ == raised(k@, q as int),
{
    let last: u8 = if q < k.len() {
        k[q] / 2 + 0x80
    } else {
        0xa0
    };
    prefix_then(k, q, last)
}

/// The key just below `k` that keeps its first `q` bytes.
fn lower(k: &Vec<u8>, q: usize) -> (r: Vec<u8>)
    requires
        q <= k.len(),
    ensures
        r@ == lowered(k@, q as int),
{
    let last: u8 = if q < k.len() {
        k[q] / 2
    } else {
        0x40
    };
    prefix_then(k, q, last)
}

/// The key between `lo` and `hi` whose bytes at `p` differ by one.
fn split_adjacent_exec(lo: &Vec<u8>, hi: &Vec<u8>, p: usize) -> (r: Vec<u8>)
    requires
        p < lo.len(),
        p < hi.len(),
    ensures
        r@ == split_adjacent(lo@, hi@, p as int),
{
    let n = p + 1;
    if n < hi.len() && hi[n] == 0x00 {
        raise(lo, find_run_end(lo, n, 0xff))
    } else if n < lo.len() && lo[n] == 0xff {
        lower(hi, n)
    } else if n < lo.len() && n < hi.len() {
        if lo[n] < 0x80 {
            raise(lo, find_run_end(lo, n, 0xff))
        } else if hi[n] >= 0x80 {
            lower(hi, n)
        } else {
            prefix_then(lo, n, 0xff)
        }
    } else if n < lo.len() {
        raise(lo, find_run_end(lo, n, 0xff))
    } else if n < hi.len() {
        lower(hi, n)
    } else {
        prefix_then(hi, n, 0x00)
    }
}

/// The key between `lo` and `hi`, which share their first `p` bytes, with
/// `lo` the lower at `p`.
fn split_ordered_exec(lo: &Vec<u8>, hi: &Vec<u8>, p: usize) -> (r: Vec<u8>)
    requires
        p <= lo.len(),
        p <= hi.len(),
    ensures
        r@ == split_ordered(lo@, hi@, p as int),
{
    if p < lo.len() && p < hi.len() {
        if hi[p] as u16 >= lo[p] as u16 + 2 {
            prefix_then(lo, p, ((lo[p] as u16 + hi[p] as u16) / 2) as u8)
        } else {
            split_adjacent_exec(lo, hi, p)
        }
    } else if p < lo.len() {
        if lo[p] == 0x7f {
            raise(lo, find_run_end(lo, p + 1, 0xff))
        } else {
            prefix_then(lo, p, lo[p] / 2 + 0x40)
        }
    } else if p < hi.len() {
        if hi[p] == 0x80 {
            lower(hi, find_run_end(hi, p + 1, 0x00))
        } else {
            prefix_then(hi, p, hi[p] / 2 + 0x40)
        }
    } else {
        copy_prefix(lo, lo.len())
    }
}

/// An ordering key that can always find a key between two other keys.
#[derive(Clone, Debug, PartialEq, Eq)]
pub struct SortId(Vec<u8>);

impl View for SortId {
    type V = Seq<u8>;

    closed spec fn view(&self) -> Seq<u8> {
        self.0@
    }
}

impl SortId {
    /// The bytes of the key.
    pub fn as_bytes(&self) -> (r: &[u8])
        ensures
            r@ == self@,
    {
        self.0.as_slice()
    }

    /// Compares two keys given as bytes, in key order.
    pub fn cmp_raw(s: &[u8], other: &[u8]) -> (r: Ordering)
        ensures
            r == key_cmp(s@, other@),
    {
        let mut i: usize = 0;
        while i < s.len() && i < other.len() && s[i] == other[i]
            invariant
                i <= s.len(),
                i <= other.len(),
                agree_before(s@, other@, i as int),
            decreases s.len() - i,
        {
            i += 1;
        }
        proof {
            lemma_lt_asymmetric(s@, other@);
        }
        if i == s.len() && i == other.len() {
            proof {
                lemma_agree_equal(s@, other@);
            }
            Ordering::Equal
        } else if i == s.len() {
            proof {
                assert(s@ != other@);
                if 0x80 <= other[i as int] {
                    lemma_lt_at(s@, other@, i as int);
                } else {
                    lemma_lt_at(other@, s@, i as int);
                }
            }
            if 0x80 <= other[i] {
                Ordering::Less
            } else {
                Ordering::Greater
            }
        } else if i == other.len() {
            proof {
                assert(s@ != other@);
                if s[i as int] < 0x80 {
                    lemma_lt_at(s@, other@, i as int);
                } else {
                    lemma_lt_at(other@, s@, i as int);
                }
            }
            if s[i] < 0x80 {
                Ordering::Less
            } else {
                Ordering::Greater
            }
        } else {
            proof {
                assert(s@[i as int] != other@[i as int]);
                assert(s@ != other@);
                if s[i as int] < other[i as int] {
                    lemma_lt_at(s@, other@, i as int);
                } else {
                    lemma_lt_at(other@, s@, i as int);
                }
            }
            if s[i] < other[i] {
                Ordering::Less
            } else {
                Ordering::Greater
            }
        }
    }

    /// Compares two keys in key order.
    pub fn cmp(&self, other: &SortId) -> (r: Ordering)
        ensures
            r == key_cmp(self@, other@),
    {
        Self::cmp_raw(self.0.as_slice(), other.0.as_slice())
    }

    /// A key to put in front of every element, given the current first key.
    /// With no element yet this is the empty key.
    pub fn in_front(existing_first: Option<&SortId>) -> (r: SortId)
        ensures
            match existing_first {
                None => r@ == Seq::<u8>::empty(),
                Some(k) => r@ == key_before(k@) && key_lt(r@, k@),
            },
    {
        match existing_first {
            None => SortId(Vec::new()),
            Some(k) => {
                let q = find_run_end(&k.0, 0, 0x00);
                proof {
                    lemma_run_end(k@, 0, 0x00);
                    lemma_lowered(k@, q as int);
                }
                SortId(lower(&k.0, q))
            },
        }
    }

    /// A key to put after every element, given the current last key. With
    /// no element yet this is the empty key.
    pub fn at_the_end(existing_last: Option<&SortId>) -> (r: SortId)
        ensures
            match existing_last {
                None => r@ == Seq::<u8>::empty(),
                Some(k) => r@ == key_after(k@) && key_lt(k@, r@),
            },
    {
        match existing_last {
            None => SortId(Vec::new()),
            Some(k) => {
                let q = find_run_end(&k.0, 0, 0xff);
                proof {
                    lemma_run_end(k@, 0, 0xff);
                    lemma_raised(k@, q as int);
                }
                SortId(raise(&k.0, q))
            },
        }
    }

    /// A key strictly between `a` and `b`, in whichever order they come, or
    /// the key itself where the two are equal. It is at most one byte longer
    /// than the longer of the two.
    pub fn between(a: &SortId, b: &SortId) -> (r: SortId)
        ensures
            r@ == midpoint(a@, b@),
            a@ == b@ ==> r@ == a@,
            key_lt(a@, b@) ==> key_lt(a@, r@) && key_lt(r@, b@),
            key_lt(b@, a@) ==> key_lt(b@, r@) && key_lt(r@, a@),
            r@.len() <= a@.len() + 1 || r@.len() <= b@.len() + 1,
    {
        proof {
            lemma_shared_from(a@, b@, 0);
            lemma_midpoint_order(a@, b@);
        }
        let p = shared_len(&a.0, &b.0);
        if digit_at(&b.0, p) < digit_at(&a.0, p) {
            SortId(split_ordered_exec(&b.0, &a.0, p))
        } else {
            SortId(split_ordered_exec(&a.0, &b.0, p))
        }
    }
}

impl From<Vec<u8>> for SortId {
    fn from(value: Vec<u8>) -> (r: SortId)
        ensures
            r@ == value@,
    {
        SortId(value)
    }
}

impl vstd::std_specs::convert::FromSpecImpl<Vec<u8>> for SortId {
    open spec fn obeys_from_spec() -> bool {
        true
    }

    closed spec fn from_spec(v: Vec<u8>) -> SortId {
        SortId(v)
    }
}

impl PartialOrd for SortId {
    fn partial_cmp(&self, other: &SortId) -> (r: Option<Ordering>)
        ensures
            r == Some(key_cmp(self@, other@)),
    {
        Some(self.cmp(other))
    }
}

impl vstd::std_specs::cmp::PartialOrdSpecImpl for SortId {
    open spec fn obeys_partial_cmp_spec() -> bool {
        true
    }

    open spec fn partial_cmp_spec(&self, other: &SortId) -> Option<Ordering> {
        Some(key_cmp(self@, other@))
    }
}

} // verus!
