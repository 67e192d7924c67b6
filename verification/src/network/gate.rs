//! The receive-side decisions of the gossip network: per-peer rate limiting,
//! the circuit breaker over failing peers, TTL and duplicate screening, and
//! the outgoing TTL.
use vstd::prelude::*;
use crate::config::PEER_FAILURE_THRESHOLD;
use crate::network::filter::{filter_after, GossipFilter};

verus! {

/// Token bucket of one peer.
#[derive(Clone, Copy, Debug, PartialEq, Eq)]
pub struct RateBucket {
    pub tokens: u64,
    pub last_refill_ms: u64,
}

/// The bucket after refilling at `now`: `elapsed_ms * rate / 1000` tokens
/// (time running backwards counts as none), capped at `burst`; the refill
/// time moves only when at least one token was added.
pub open spec fn refilled(b: RateBucket, now_ms: u64, rate: u64, burst: u64) -> RateBucket {
    let elapsed: int = if now_ms >= b.last_refill_ms {
        now_ms - b.last_refill_ms
    } else {
        0
    };
    let refill = elapsed * rate / 1000;
    if refill > 0 {
        RateBucket {
            tokens: if b.tokens + refill < burst {
                (b.tokens + refill) as u64
            } else {
                burst
            },
            last_refill_ms: now_ms,
        }
    } else {
        b
    }
}

/// One rate-limit check on a peer's bucket (a fresh bucket starts full at
/// `now`): the bucket afterwards, and whether a token was taken.
pub open spec fn rate_step(b: Option<RateBucket>, now_ms: u64, rate: u64, burst: u64) -> (RateBucket, bool) {
    let b0 = match b {
        Some(x) => x,
        None => RateBucket { tokens: burst, last_refill_ms: now_ms },
    };
    let b1 = refilled(b0, now_ms, rate, burst);
    if b1.tokens > 0 {
        (RateBucket { tokens: (b1.tokens - 1) as u64, ..b1 }, true)
    } else {
        (b1, false)
    }
}

/// The value stored under `key` in an association list (first match).
pub open spec fn lookup<V>(entries: Seq<(Seq<char>, V)>, key: Seq<char>) -> Option<V>
    decreases entries.len(),
{
    if entries.len() == 0 {
        None
    } else {
        match lookup(entries.drop_last(), key) {
            Some(v) => Some(v),
            None => if entries.last().0 == key {
                Some(entries.last().1)
            } else {
                None
            },
        }
    }
}

/// Verdict on a received datagram before it is decrypted and parsed.
#[derive(Clone, Copy, Debug, PartialEq, Eq)]
pub enum Admission {
    /// The peer's bucket is empty: drop and report.
    RateLimited,
    /// The peer failed too often: drop silently.
    CircuitOpen,
    /// Go on.
    Pass,
}

/// Verdict on a parsed envelope before its signature is checked.
#[derive(Clone, Copy, Debug, PartialEq, Eq)]
pub enum Screen {
    /// TTL exhausted on arrival: counted as a failure, drop and report.
    TtlExhausted,
    /// Already seen: drop silently.
    Duplicate,
    /// Check the signature.
    Verify,
}

/// The admission verdict for a peer whose bucket is `b` and who has
/// `failures` recorded failures, at `now_ms`.
pub open spec fn admission_verdict(b: Option<RateBucket>, failures: u32, now_ms: u64, rate: u64, burst: u64) -> Admission {
    if !rate_step(b, now_ms, rate, burst).1 {
        Admission::RateLimited
    } else if failures >= PEER_FAILURE_THRESHOLD {
        Admission::CircuitOpen
    } else {
        Admission::Pass
    }
}

/// The screening verdict for an envelope with this signature and TTL.
pub open spec fn screen_verdict(seen: Seq<[u8; 64]>, signature: [u8; 64], ttl: u8) -> Screen {
    if ttl == 0 {
        Screen::TtlExhausted
    } else if seen.contains(signature) {
        Screen::Duplicate
    } else {
        Screen::Verify
    }
}

/// A datagram is forwarded when the peer's bucket has a token, its circuit
/// is closed, the envelope's TTL is not exhausted, its signature was not
/// seen before and it verifies.
pub open spec fn forwarded(
    b: Option<RateBucket>,
    failures: u32,
    seen: Seq<[u8; 64]>,
    now_ms: u64,
    rate: u64,
    burst: u64,
    signature: [u8; 64],
    ttl: u8,
    valid: bool,
) -> bool {
    &&& rate_step(b, now_ms, rate, burst).1
    &&& failures < PEER_FAILURE_THRESHOLD
    &&& ttl > 0
    &&& !seen.contains(signature)
    &&& valid
}

/// Admission, screening and conclusion together pass exactly the forwarded
/// datagrams: a datagram is admitted, screened for its signature check and
/// passed on exactly when its peer has a token, its circuit is closed, its
/// TTL is not exhausted, its signature is new and it verifies. (Admission
/// leaves failures and seen signatures as they were, so screening judges
/// the state admission started from.)
pub proof fn law_gate_steps_forward(
    b: Option<RateBucket>,
    failures: u32,
    seen: Seq<[u8; 64]>,
    now_ms: u64,
    rate: u64,
    burst: u64,
    signature: [u8; 64],
    ttl: u8,
    valid: bool,
)
    ensures
        (admission_verdict(b, failures, now_ms, rate, burst) == Admission::Pass && screen_verdict(
            seen,
            signature,
            ttl,
        ) == Screen::Verify && valid) <==> forwarded(b, failures, seen, now_ms, rate, burst, signature, ttl, valid),
{
}

/// Receive-side state of the gossip network.
pub struct PeerGate {
    filter: GossipFilter,
    buckets: Vec<(String, RateBucket)>,
    health: Vec<(String, u32)>,
    peer_rate_limit: u64,
    peer_rate_burst: u64,
}

/// The entries' keys as character sequences.
pub open spec fn keyed<V>(entries: Seq<(String, V)>) -> Seq<(Seq<char>, V)> {
    entries.map_values(|e: (String, V)| (e.0@, e.1))
}

proof fn lemma_lookup_prefix<V>(s: Seq<(Seq<char>, V)>, key: Seq<char>, i: int)
    requires
        0 < i <= s.len(),
        lookup(s.take(i - 1), key) is None,
        s[i - 1].0 == key,
    ensures
        lookup(s, key) == Some(s[i - 1].1),
    decreases s.len() - i,
{
    if i == s.len() {
        assert(s.take(i - 1) =~= s.drop_last());
    } else {
        assert(s.drop_last().take(i - 1) =~= s.take(i - 1));
        lemma_lookup_prefix(s.drop_last(), key, i);
    }
}

proof fn lemma_lookup_update<V>(s: Seq<(Seq<char>, V)>, key: Seq<char>, i: int, v: V, other: Seq<char>)
    requires
        0 <= i < s.len(),
        lookup(s.take(i), key) is None,
        s[i].0 == key,
        other != key,
    ensures
        lookup(s.update(i, (key, v)), key) == Some(v),
        lookup(s.update(i, (key, v)), other) == lookup(s, other),
    decreases s.len(),
{
    let t = s.update(i, (key, v));
    if i == s.len() - 1 {
        assert(t.drop_last() =~= s.drop_last());
        assert(s.take(i) =~= s.drop_last());
    } else {
        assert(t.drop_last() =~= s.drop_last().update(i, (key, v)));
        assert(s.drop_last().take(i) =~= s.take(i));
        lemma_lookup_update(s.drop_last(), key, i, v, other);
    }
}

proof fn lemma_lookup_push<V>(s: Seq<(Seq<char>, V)>, key: Seq<char>, v: V, other: Seq<char>)
    requires
        lookup(s, key) is None,
        other != key,
    ensures
        lookup(s.push((key, v)), key) == Some(v),
        lookup(s.push((key, v)), other) == lookup(s, other),
{
    assert(s.push((key, v)).drop_last() =~= s);
}

impl PeerGate {
    /// The remembered message signatures, oldest first.
    pub closed spec fn seen(&self) -> Seq<[u8; 64]> {
        self.filter.seen()
    }

    /// Capacity of the signature filter.
    pub closed spec fn filter_capacity(&self) -> usize {
        self.filter.capacity_of()
    }

    /// The bucket of a peer, if it sent anything.
    pub closed spec fn bucket(&self, peer: Seq<char>) -> Option<RateBucket> {
        lookup(keyed(self.buckets@), peer)
    }

    /// The failures recorded against a peer.
    pub closed spec fn failures(&self, peer: Seq<char>) -> u32 {
        match lookup(keyed(self.health@), peer) {
            Some(n) => n,
            None => 0,
        }
    }

    /// Tokens per second.
    pub closed spec fn rate(&self) -> u64 {
        self.peer_rate_limit
    }

    /// Bucket capacity.
    pub closed spec fn burst(&self) -> u64 {
        self.peer_rate_burst
    }

    /// A gate that allows `peer_rate_limit` datagrams per second per peer,
    /// in bursts of up to `peer_rate_burst`, remembering the last
    /// `filter_capacity` signatures.
    pub fn new(peer_rate_limit: u64, peer_rate_burst: u64, filter_capacity: usize) -> (r: Self)
        ensures
            r.seen() == Seq::<[u8; 64]>::empty(),
            r.filter_capacity() == filter_capacity,
            forall|p: Seq<char>| r.bucket(p) is None && r.failures(p) == 0,
            r.rate() == peer_rate_limit,
            r.burst() == peer_rate_burst,
    {
        let r = PeerGate {
            filter: GossipFilter::new(filter_capacity),
            buckets: Vec::new(),
            health: Vec::new(),
            peer_rate_limit,
            peer_rate_burst,
        };
        proof {
            assert(keyed(r.buckets@) =~= Seq::<(Seq<char>, RateBucket)>::empty());
            assert(keyed(r.health@) =~= Seq::<(Seq<char>, u32)>::empty());
        }
        r
    }

    fn bucket_index(&self, peer: &String) -> (r: Option<usize>)
        ensures
            match r {
                Some(i) => i < self.buckets@.len() && self.buckets@[i as int].0@ == peer@ && lookup(
                    keyed(self.buckets@).take(i as int),
                    peer@,
                ) is None,
                None => lookup(keyed(self.buckets@), peer@) is None,
            },
    {
        let ghost k = keyed(self.buckets@);
        let mut i: usize = 0;
        while i < self.buckets.len()
            invariant
                i <= self.buckets@.len(),
                k == keyed(self.buckets@),
                lookup(k.take(i as int), peer@) is None,
            decreases self.buckets@.len() - i,
        {
            proof {
                assert(k.take(i + 1).drop_last() =~= k.take(i as int));
            }
            if self.buckets[i].0 == *peer {
                return Some(i);
            }
            i = i + 1;
        }
        proof {
            assert(k.take(i as int) =~= k);
        }
        None
    }

    fn health_index(&self, peer: &String) -> (r: Option<usize>)
        ensures
            match r {
                Some(i) => i < self.health@.len() && self.health@[i as int].0@ == peer@ && lookup(
                    keyed(self.health@).take(i as int),
                    peer@,
                ) is None,
                None => lookup(keyed(self.health@), peer@) is None,
            },
    {
        let ghost k = keyed(self.health@);
        let mut i: usize = 0;
        while i < self.health.len()
            invariant
                i <= self.health@.len(),
                k == keyed(self.health@),
                lookup(k.take(i as int), peer@) is None,
            decreases self.health@.len() - i,
        {
            proof {
                assert(k.take(i + 1).drop_last() =~= k.take(i as int));
            }
            if self.health[i].0 == *peer {
                return Some(i);
            }
            i = i + 1;
        }
        proof {
            assert(k.take(i as int) =~= k);
        }
        None
    }

    /// Integer token bucket per peer: refill `elapsed_ms * rate / 1000`
    /// tokens up to the burst, then take one token if there is any.
    pub fn check_rate_limit(&mut self, peer_ip: &String, now_ms: u64) -> (r: bool)
        ensures
            ({
                let (b, ok) = rate_step(old(self).bucket(peer_ip@), now_ms, old(self).rate(), old(self).burst());
                &&& r == ok
                &&& final(self).bucket(peer_ip@) == Some(b)
            }),
            forall|p: Seq<char>| p != peer_ip@ ==> final(self).bucket(p) == old(self).bucket(p),
            forall|p: Seq<char>| final(self).failures(p) == old(self).failures(p),
            final(self).seen() == old(self).seen(),
            final(self).filter_capacity() == old(self).filter_capacity(),
            final(self).rate() == old(self).rate(),
            final(self).burst() == old(self).burst(),
    {
        let idx = self.bucket_index(peer_ip);
        let b0 = match idx {
            Some(i) => {
                proof {
                    lemma_lookup_prefix(keyed(self.buckets@), peer_ip@, i + 1);
                    assert(keyed(self.buckets@).take(i as int) =~= keyed(self.buckets@).take(i + 1 - 1));
                }
                self.buckets[i].1
            },
            None => RateBucket { tokens: self.peer_rate_burst, last_refill_ms: now_ms },
        };
        let elapsed: u64 = if now_ms >= b0.last_refill_ms {
            now_ms - b0.last_refill_ms
        } else {
            0
        };
        let e: u128 = elapsed as u128;
        let rl: u128 = self.peer_rate_limit as u128;
        proof {
            assert(0 <= e * rl <= u64::MAX * u64::MAX) by (nonlinear_arith)
                requires
                    e <= u64::MAX,
                    rl <= u64::MAX,
            ;
        }
        let refill: u128 = e * rl / 1000;
        let mut b = b0;
        if refill > 0 {
            let sum: u128 = (b.tokens as u128) + refill;
            b.tokens = if sum < (self.peer_rate_burst as u128) {
                sum as u64
            } else {
                self.peer_rate_burst
            };
            b.last_refill_ms = now_ms;
        }
        let ok = if b.tokens > 0 {
            b.tokens = b.tokens - 1;
            true
        } else {
            false
        };
        let ghost old_k = keyed(self.buckets@);
        match idx {
            Some(i) => {
                let key = self.buckets[i].0.clone();
                self.buckets.set(i, (key, b));
                proof {
                    assert forall|p: Seq<char>| p != peer_ip@ implies lookup(keyed(self.buckets@), p) == lookup(old_k, p) by {
                        assert(keyed(self.buckets@) =~= old_k.update(i as int, (peer_ip@, b)));
                        lemma_lookup_update(old_k, peer_ip@, i as int, b, p);
                    }
                    assert(keyed(self.buckets@) =~= old_k.update(i as int, (peer_ip@, b)));
                    let other = if peer_ip@.len() == 0 { seq!['a'] } else { Seq::<char>::empty() };
                    lemma_lookup_update(old_k, peer_ip@, i as int, b, other);
                }
            },
            None => {
                self.buckets.push((peer_ip.clone(), b));
                proof {
                    assert(keyed(self.buckets@) =~= old_k.push((peer_ip@, b)));
                    assert forall|p: Seq<char>| p != peer_ip@ implies lookup(keyed(self.buckets@), p) == lookup(old_k, p) by {
                        lemma_lookup_push(old_k, peer_ip@, b, p);
                    }
                    let other = if peer_ip@.len() == 0 { seq!['a'] } else { Seq::<char>::empty() };
                    lemma_lookup_push(old_k, peer_ip@, b, other);
                }
            },
        }
        ok
    }

    /// Count a failure (unparsable datagram, exhausted TTL, bad signature)
    /// against a peer; the count saturates at `u32::MAX`.
    pub fn record_failure(&mut self, peer_ip: &String)
        ensures
            final(self).failures(peer_ip@) == if old(self).failures(peer_ip@) < u32::MAX {
                (old(self).failures(peer_ip@) + 1) as u32
            } else {
                u32::MAX
            },
            forall|p: Seq<char>| p != peer_ip@ ==> final(self).failures(p) == old(self).failures(p),
            forall|p: Seq<char>| final(self).bucket(p) == old(self).bucket(p),
            final(self).seen() == old(self).seen(),
            final(self).filter_capacity() == old(self).filter_capacity(),
            final(self).rate() == old(self).rate(),
            final(self).burst() == old(self).burst(),
    {
        let idx = self.health_index(peer_ip);
        let ghost old_k = keyed(self.health@);
        match idx {
            Some(i) => {
                proof {
                    lemma_lookup_prefix(old_k, peer_ip@, i + 1);
                    assert(old_k.take(i as int) =~= old_k.take(i + 1 - 1));
                }
                let n = self.health[i].1;
                let n2 = if n < u32::MAX { n + 1 } else { u32::MAX };
                let key = self.health[i].0.clone();
                self.health.set(i, (key, n2));
                proof {
                    assert(keyed(self.health@) =~= old_k.update(i as int, (peer_ip@, n2)));
                    assert forall|p: Seq<char>| p != peer_ip@ implies lookup(keyed(self.health@), p) == lookup(old_k, p) by {
                        lemma_lookup_update(old_k, peer_ip@, i as int, n2, p);
                    }
                    let other = if peer_ip@.len() == 0 { seq!['a'] } else { Seq::<char>::empty() };
                    lemma_lookup_update(old_k, peer_ip@, i as int, n2, other);
                }
            },
            None => {
                self.health.push((peer_ip.clone(), 1));
                proof {
                    assert(keyed(self.health@) =~= old_k.push((peer_ip@, 1u32)));
                    assert forall|p: Seq<char>| p != peer_ip@ implies lookup(keyed(self.health@), p) == lookup(old_k, p) by {
                        lemma_lookup_push(old_k, peer_ip@, 1u32, p);
                    }
                    let other = if peer_ip@.len() == 0 { seq!['a'] } else { Seq::<char>::empty() };
                    lemma_lookup_push(old_k, peer_ip@, 1u32, other);
                }
            },
        }
    }

    /// The failures recorded against a peer.
    pub fn failure_count(&self, peer_ip: &String) -> (r: u32)
        ensures
            r == self.failures(peer_ip@),
    {
        match self.health_index(peer_ip) {
            Some(i) => {
                proof {
                    lemma_lookup_prefix(keyed(self.health@), peer_ip@, i + 1);
                    assert(keyed(self.health@).take(i as int) =~= keyed(self.health@).take(i + 1 - 1));
                }
                self.health[i].1
            },
            None => 0,
        }
    }

    /// First screening of a datagram from `peer_ip` at `now_ms`: the rate
    /// limit is checked first (and spends a token), then the circuit breaker,
    /// which is open once `PEER_FAILURE_THRESHOLD` failures were recorded.
    pub fn admission(&mut self, peer_ip: &String, now_ms: u64) -> (r: Admission)
        ensures
            ({
                let b = rate_step(old(self).bucket(peer_ip@), now_ms, old(self).rate(), old(self).burst()).0;
                &&& final(self).bucket(peer_ip@) == Some(b)
                &&& r == admission_verdict(
                    old(self).bucket(peer_ip@),
                    old(self).failures(peer_ip@),
                    now_ms,
                    old(self).rate(),
                    old(self).burst(),
                )
            }),
            forall|p: Seq<char>| p != peer_ip@ ==> final(self).bucket(p) == old(self).bucket(p),
            forall|p: Seq<char>| final(self).failures(p) == old(self).failures(p),
            final(self).seen() == old(self).seen(),
            final(self).filter_capacity() == old(self).filter_capacity(),
            final(self).rate() == old(self).rate(),
            final(self).burst() == old(self).burst(),
    {
        if !self.check_rate_limit(peer_ip, now_ms) {
            return Admission::RateLimited;
        }
        if self.failure_count(peer_ip) >= PEER_FAILURE_THRESHOLD {
            return Admission::CircuitOpen;
        }
        Admission::Pass
    }

    /// Second screening, of a parsed envelope: an exhausted TTL counts as a
    /// failure; a signature already seen is a duplicate; otherwise the
    /// signature is to be checked.
    pub fn screen(&mut self, peer_ip: &String, signature: &[u8; 64], ttl: u8) -> (r: Screen)
        ensures
            r == screen_verdict(old(self).seen(), *signature, ttl),
            final(self).failures(peer_ip@) == if ttl == 0 && old(self).failures(peer_ip@) < u32::MAX {
                (old(self).failures(peer_ip@) + 1) as u32
            } else {
                old(self).failures(peer_ip@)
            },
            forall|p: Seq<char>| p != peer_ip@ ==> final(self).failures(p) == old(self).failures(p),
            forall|p: Seq<char>| final(self).bucket(p) == old(self).bucket(p),
            final(self).seen() == old(self).seen(),
            final(self).filter_capacity() == old(self).filter_capacity(),
            final(self).rate() == old(self).rate(),
            final(self).burst() == old(self).burst(),
    {
        if ttl == 0 {
            self.record_failure(peer_ip);
            return Screen::TtlExhausted;
        }
        if self.filter.contains(signature) {
            return Screen::Duplicate;
        }
        Screen::Verify
    }

    /// Outcome of the signature check: a bad signature counts as a failure
    /// and the envelope is dropped; a good one is remembered and forwarded.
    pub fn conclude(&mut self, peer_ip: &String, signature: [u8; 64], valid: bool) -> (r: bool)
        ensures
            r == valid,
            valid ==> final(self).seen() == filter_after(old(self).seen(), old(self).filter_capacity(), signature),
            !valid ==> final(self).seen() == old(self).seen(),
            final(self).failures(peer_ip@) == if !valid && old(self).failures(peer_ip@) < u32::MAX {
                (old(self).failures(peer_ip@) + 1) as u32
            } else {
                old(self).failures(peer_ip@)
            },
            forall|p: Seq<char>| p != peer_ip@ ==> final(self).failures(p) == old(self).failures(p),
            forall|p: Seq<char>| final(self).bucket(p) == old(self).bucket(p),
            final(self).filter_capacity() == old(self).filter_capacity(),
            final(self).rate() == old(self).rate(),
            final(self).burst() == old(self).burst(),
    {
        if !valid {
            self.record_failure(peer_ip);
            return false;
        }
        self.filter.insert(signature);
        true
    }

    /// Remember the signature of an envelope this node sends.
    pub fn remember(&mut self, signature: [u8; 64])
        ensures
            final(self).seen() == filter_after(old(self).seen(), old(self).filter_capacity(), signature),
            forall|p: Seq<char>| final(self).failures(p) == old(self).failures(p),
            forall|p: Seq<char>| final(self).bucket(p) == old(self).bucket(p),
            final(self).filter_capacity() == old(self).filter_capacity(),
            final(self).rate() == old(self).rate(),
            final(self).burst() == old(self).burst(),
    {
        self.filter.insert(signature);
    }
}

/// The TTL an outgoing message is sent with: one less than given, or
/// nothing to send when it is already zero.
pub fn outgoing_ttl(ttl: u8) -> (r: Option<u8>)
    ensures
        ttl == 0 ==> r is None,
        ttl > 0 ==> r == Some((ttl - 1) as u8),
{
    if ttl == 0 {
        None
    } else {
        Some(ttl - 1)
    }
}

} // verus!
