//! The decisions of the item list that do not touch storage.

use crate::sortid::{key_after, key_before, midpoint, SortId};
use std::cmp::Ordering;
use vstd::prelude::*;
use vstd::string::StringSliceAdditionalSpecFns;

verus! {

/// The key that an item moved between the neighbours with keys `prev` and
/// `next` takes; `None` where it has no neighbour at all.
pub open spec fn placed_key(prev: Option<Seq<u8>>, next: Option<Seq<u8>>) -> Option<Seq<u8>> {
    match (prev, next) {
        (Some(p), Some(n)) => Some(midpoint(p, n)),
        (Some(p), None) => Some(key_after(p)),
        (None, Some(n)) => Some(key_before(n)),
        (None, None) => None,
    }
}

/// The view of an optional key.
pub open spec fn key_view(k: Option<&SortId>) -> Option<Seq<u8>> {
    match k {
        Some(k) => Some(k@),
        None => None,
    }
}

/// The new key of an item with key `curr` that is moved between the items
/// with keys `prev` and `next`: between them where it has both, after `prev`
/// where it becomes last, and in front of `next` where it becomes first.
/// `None` where nothing is to be written: it has no neighbour, or it already
/// has that key.
pub fn moved_sort_id(curr: &SortId, prev: Option<&SortId>, next: Option<&SortId>) -> (r: Option<
    SortId,
>)
    ensures
        match placed_key(key_view(prev), key_view(next)) {
            None => r is None,
            Some(k) => if k == curr@ {
                r is None
            } else {
                r matches Some(s) && s@ == k
            },
        },
{
    let new_id = match (prev, next) {
        (Some(p), Some(n)) => SortId::between(p, n),
        (Some(p), None) => SortId::at_the_end(Some(p)),
        (None, Some(n)) => SortId::in_front(Some(n)),
        (None, None) => {
            return None;
        },
    };
    match new_id.cmp(curr) {
        Ordering::Equal => None,
        _ => Some(new_id),
    }
}

/// Whitespace as `str::trim` removes it from ASCII text.
pub open spec fn is_space(b: u8) -> bool {
    b == 0x20 || 0x09 <= b <= 0x0d
}

/// Only whitespace stands in `s` between the start of the `;`-separated part
/// that holds position `k` and `k` itself.
pub open spec fn at_part_start(s: Seq<u8>, k: int) -> bool
    decreases k,
{
    if k <= 0 {
        true
    } else if s[k - 1] == 0x3b {
        true
    } else {
        is_space(s[k - 1]) && at_part_start(s, k - 1)
    }
}

/// The bytes of `session=`.
pub open spec fn session_prefix() -> Seq<u8> {
    seq![0x73u8, 0x65, 0x73, 0x73, 0x69, 0x6f, 0x6e, 0x3d]
}

/// A cookie named `session` starts at `k` in the `Cookie` header value `s`:
/// `k` begins a part, once trimmed, and the part reads `session=` there.
pub open spec fn session_cookie_at(s: Seq<u8>, k: int) -> bool {
    &&& 0 <= k
    &&& k + 8 <= s.len()
    &&& at_part_start(s, k)
    &&& s.subrange(k, k + 8) == session_prefix()
}

/// The `Cookie` header value `header` holds a cookie named `session`: one of
/// its `;`-separated parts, without surrounding whitespace, has `session`
/// before its first `=`.
pub fn has_session_cookie(header: &str) -> (r: bool)
    ensures
        r == exists|k: int| session_cookie_at(header.spec_bytes(), k),
{
    let s = header.as_bytes();
    let n = s.len();
    let name: [u8; 8] = [0x73, 0x65, 0x73, 0x73, 0x69, 0x6f, 0x6e, 0x3d];
    assert(name@ =~= session_prefix());
    let mut lead = true;
    let mut k: usize = 0;
    while k < n
        invariant
            k <= n,
            n == s@.len(),
            s@ == header.spec_bytes(),
            name@ == session_prefix(),
            lead == at_part_start(s@, k as int),
            forall|j: int| 0 <= j < k ==> !session_cookie_at(s@, j),
        decreases n - k,
    {
        if lead && n - k >= 8 {
            let mut i: usize = 0;
            while i < 8 && s[k + i] == name[i]
                invariant
                    i <= 8,
                    k + 8 <= n,
                    n == s@.len(),
                    name@ == session_prefix(),
                    forall|j: int| 0 <= j < i ==> s@[k + j] == name@[j],
                decreases 8 - i,
            {
                i += 1;
            }
            if i == 8 {
                assert(s@.subrange(k as int, k + 8) =~= session_prefix());
                assert(session_cookie_at(s@, k as int));
                return true;
            }
            assert(s@.subrange(k as int, k + 8)[i as int] != session_prefix()[i as int]);
        }
        lead = s[k] == 0x3b || ((s[k] == 0x20 || (0x09 <= s[k] && s[k] <= 0x0d)) && lead);
        k += 1;
    }
    assert forall|j: int| !session_cookie_at(s@, j) by {
        if 0 <= j < k {
        }
    }
    false
}

} // verus!
