//! Bounded deduplication of gossip messages by signature.
use vstd::prelude::*;
use std::collections::VecDeque;

verus! {

fn sig_eq(a: &[u8; 64], b: &[u8; 64]) -> (r: bool)
    ensures
        r == (*a == *b),
{
    let mut i: usize = 0;
    while i < 64
        invariant
            i <= 64,
            a@.len() == 64,
            b@.len() == 64,
            forall|j: int| 0 <= j < i ==> a@[j] == b@[j],
        decreases 64 - i,
    {
        if a[i] != b[i] {
            return false;
        }
        i = i + 1;
    }
    proof {
        broadcast use vstd::array::axiom_array_ext_equal;

        assert(*a =~= *b);
    }
    true
}

/// The signatures remembered after inserting `sig` into `seen` with room for
/// `capacity`: unchanged when already present; otherwise, at capacity, the
/// oldest is dropped before `sig` is appended.
pub open spec fn filter_after(seen: Seq<[u8; 64]>, capacity: usize, sig: [u8; 64]) -> Seq<[u8; 64]> {
    if seen.contains(sig) {
        seen
    } else if seen.len() >= capacity && seen.len() > 0 {
        seen.drop_first().push(sig)
    } else {
        seen.push(sig)
    }
}

/// Bounded first-in first-out filter of seen signatures: at capacity, the
/// oldest signature is evicted to make room.
pub struct GossipFilter {
    queue: VecDeque<[u8; 64]>,
    capacity: usize,
}

impl GossipFilter {
    /// The remembered signatures, oldest first.
    pub closed spec fn seen(&self) -> Seq<[u8; 64]> {
        self.queue@
    }

    pub closed spec fn capacity_of(&self) -> usize {
        self.capacity
    }

    pub fn new(capacity: usize) -> (r: Self)
        ensures
            r.seen() == Seq::<[u8; 64]>::empty(),
            r.capacity_of() == capacity,
    {
        GossipFilter { queue: VecDeque::new(), capacity }
    }

    /// Whether the signature was already seen.
    pub fn contains(&self, sig: &[u8; 64]) -> (r: bool)
        ensures
            r == self.seen().contains(*sig),
    {
        let mut i: usize = 0;
        while i < self.queue.len()
            invariant
                i <= self.queue@.len(),
                forall|j: int| 0 <= j < i ==> self.queue@[j] != *sig,
            decreases self.queue@.len() - i,
        {
            if sig_eq(&self.queue[i], sig) {
                return true;
            }
            i = i + 1;
        }
        false
    }

    /// Remember a signature; a signature already seen changes nothing. At
    /// capacity the oldest signature is evicted first.
    pub fn insert(&mut self, sig: [u8; 64])
        ensures
            final(self).capacity_of() == old(self).capacity_of(),
            final(self).seen() == filter_after(old(self).seen(), old(self).capacity_of(), sig),
    {
        if self.contains(&sig) {
            return ;
        }
        if self.queue.len() >= self.capacity {
            self.queue.pop_front();
        }
        self.queue.push_back(sig);
    }
}

/// A signature is remembered at most once: inserting keeps the filter free
/// of duplicates, and the signature just inserted is remembered.
pub proof fn law_filter_no_duplicates(seen: Seq<[u8; 64]>, capacity: usize, sig: [u8; 64])
    requires
        seen.no_duplicates(),
    ensures
        filter_after(seen, capacity, sig).no_duplicates(),
        filter_after(seen, capacity, sig).contains(sig),
{
    let r = filter_after(seen, capacity, sig);
    if !seen.contains(sig) {
        let base = if seen.len() >= capacity && seen.len() > 0 {
            seen.drop_first()
        } else {
            seen
        };
        assert(!base.contains(sig)) by {
            if base.contains(sig) {
                let i = choose|i: int| 0 <= i < base.len() && base[i] == sig;
                if seen.len() >= capacity && seen.len() > 0 {
                    assert(seen[i + 1] == sig);
                } else {
                    assert(seen[i] == sig);
                }
            }
        }
        assert(base.no_duplicates()) by {
            if seen.len() >= capacity && seen.len() > 0 {
                assert forall|i: int, j: int| 0 <= i < base.len() && 0 <= j < base.len() && i != j implies base[i]
                    != base[j] by {
                    assert(base[i] == seen[i + 1]);
                    assert(base[j] == seen[j + 1]);
                }
            }
        }
        assert(r[r.len() - 1] == sig);
        assert forall|i: int, j: int| 0 <= i < r.len() && 0 <= j < r.len() && i != j implies r[i] != r[j] by {
            if i < base.len() && j < base.len() {
                assert(r[i] == base[i] && r[j] == base[j]);
            } else if i < base.len() {
                assert(r[i] == base[i]);
            } else if j < base.len() {
                assert(r[j] == base[j]);
            }
        }
    }
}

/// The filter never grows past its capacity (or past one entry, with a
/// capacity of zero).
pub proof fn law_filter_bounded(seen: Seq<[u8; 64]>, capacity: usize, sig: [u8; 64])
    requires
        seen.len() <= if capacity > 0 { capacity as int } else { 1 },
    ensures
        filter_after(seen, capacity, sig).len() <= if capacity > 0 { capacity as int } else { 1 },
{
}

} // verus!
