//! Eviction policy of the encrypted peer sessions.
use vstd::prelude::*;
use crate::config::{SESSION_MAX_COUNT, SESSION_TTL_SECS};

verus! {

/// What eviction needs to know of a session.
#[derive(Clone, Copy, Debug, PartialEq, Eq)]
pub struct SessionStamp {
    /// Last use, in milliseconds of a monotonic clock
    pub last_used_ms: u64,
    /// The session failed and can no longer be used
    pub invalid: bool,
}

/// A session survives expiry when it is valid and was used less than
/// `SESSION_TTL_SECS` ago (a clock running backwards counts as no time).
pub open spec fn alive(s: SessionStamp, now_ms: u64) -> bool {
    !s.invalid && (now_ms < s.last_used_ms || now_ms - s.last_used_ms < SESSION_TTL_SECS * 1000)
}

/// Indices `0..n` of the sessions that survive expiry, in order.
pub open spec fn survivors(stamps: Seq<SessionStamp>, now_ms: u64, n: int) -> Seq<usize>
    decreases n,
{
    if n <= 0 {
        Seq::empty()
    } else if alive(stamps[n - 1], now_ms) {
        survivors(stamps, now_ms, n - 1).push((n - 1) as usize)
    } else {
        survivors(stamps, now_ms, n - 1)
    }
}

/// Position in `idx` of the first least recently used session among the
/// first `n` positions.
pub open spec fn oldest_pos(stamps: Seq<SessionStamp>, idx: Seq<usize>, n: int) -> int
    decreases n,
{
    if n <= 1 {
        0
    } else {
        let p = oldest_pos(stamps, idx, n - 1);
        if stamps[idx[n - 1] as int].last_used_ms < stamps[idx[p] as int].last_used_ms {
            n - 1
        } else {
            p
        }
    }
}

/// Over capacity, evict the least recently used session (the first of
/// equals) until at most `SESSION_MAX_COUNT` remain.
pub open spec fn pruned(stamps: Seq<SessionStamp>, idx: Seq<usize>) -> Seq<usize>
    decreases idx.len(),
{
    if idx.len() <= SESSION_MAX_COUNT {
        idx
    } else {
        proof {
            lemma_oldest_pos(stamps, idx, idx.len() as int);
        }
        pruned(stamps, idx.remove(oldest_pos(stamps, idx, idx.len() as int)))
    }
}

pub proof fn lemma_oldest_pos(stamps: Seq<SessionStamp>, idx: Seq<usize>, n: int)
    requires
        1 <= n <= idx.len(),
    ensures
        0 <= oldest_pos(stamps, idx, n) < n,
    decreases n,
{
    if n > 1 {
        lemma_oldest_pos(stamps, idx, n - 1);
    }
}

/// The sessions to keep, by index in `stamps`, in order: drop the invalid
/// and the expired ones, then evict the least recently used ones while more
/// than `SESSION_MAX_COUNT` remain.
pub fn evict_stale(stamps: &[SessionStamp], now_ms: u64) -> (r: Vec<usize>)
    ensures
        r@ == pruned(stamps@, survivors(stamps@, now_ms, stamps@.len() as int)),
{
    let mut kept: Vec<usize> = Vec::new();
    let mut i: usize = 0;
    while i < stamps.len()
        invariant
            i <= stamps@.len(),
            kept@ == survivors(stamps@, now_ms, i as int),
            forall|k: int| 0 <= k < kept@.len() ==> kept@[k] < i,
        decreases stamps@.len() - i,
    {
        let s = stamps[i];
        let fresh = now_ms < s.last_used_ms || now_ms - s.last_used_ms < SESSION_TTL_SECS * 1000;
        if !s.invalid && fresh {
            kept.push(i);
        }
        i = i + 1;
    }
    while kept.len() > SESSION_MAX_COUNT
        invariant
            pruned(stamps@, kept@) == pruned(stamps@, survivors(stamps@, now_ms, stamps@.len() as int)),
            forall|k: int| 0 <= k < kept@.len() ==> kept@[k] < stamps@.len(),
        decreases kept@.len(),
    {
        let mut p: usize = 0;
        let mut j: usize = 1;
        while j < kept.len()
            invariant
                1 <= j <= kept@.len(),
                p == oldest_pos(stamps@, kept@, j as int),
                forall|k: int| 0 <= k < kept@.len() ==> kept@[k] < stamps@.len(),
            decreases kept@.len() - j,
        {
            proof {
                lemma_oldest_pos(stamps@, kept@, j as int);
            }
            if stamps[kept[j]].last_used_ms < stamps[kept[p]].last_used_ms {
                p = j;
            }
            j = j + 1;
        }
        proof {
            lemma_oldest_pos(stamps@, kept@, kept@.len() as int);
        }
        let ghost before = kept@;
        kept.remove(p);
        proof {
            assert(kept@ == before.remove(p as int));
            assert forall|k: int| 0 <= k < kept@.len() implies kept@[k] < stamps@.len() by {
                if k < p {
                    assert(kept@[k] == before[k]);
                } else {
                    assert(kept@[k] == before[k + 1]);
                }
            }
        }
    }
    kept
}

} // verus!
