//! Association lists from claim to an integer value, used while trust is
//! propagated; each claim appears at most once.
use vstd::prelude::*;
use std::collections::HashMap;
use vstd::std_specs::hash::spec_hash_map_iter;
use vstd::std_specs::iter::IteratorSpec;
use crate::epistemic::logodds::LogOdds;

verus! {

/// The map that an association list describes.
pub open spec fn amap(s: Seq<(u32, i64)>) -> Map<u32, int>
    decreases s.len(),
{
    if s.len() == 0 {
        Map::empty()
    } else {
        amap(s.drop_last()).insert(s.last().0, s.last().1 as int)
    }
}

/// Each key appears at most once.
pub open spec fn uniq(s: Seq<(u32, i64)>) -> bool {
    forall|i: int, j: int| 0 <= i < j < s.len() ==> s[i].0 != s[j].0
}

/// Every value fits in an `i32`.
pub open spec fn vals_i32(s: Seq<(u32, i64)>) -> bool {
    forall|i: int| 0 <= i < s.len() ==> i32::MIN <= #[trigger] s[i].1 <= i32::MAX
}

/// A map's value at `k`, zero when absent.
pub open spec fn get0(m: Map<u32, int>, k: u32) -> int {
    if m.contains_key(k) {
        m[k]
    } else {
        0
    }
}

/// The milli-log-odds of a map of log-odds.
pub open spec fn lo_view(m: Map<u32, LogOdds>) -> Map<u32, int> {
    m.map_values(|l: LogOdds| l@ as int)
}

pub proof fn lemma_amap_lookup(s: Seq<(u32, i64)>, i: int)
    requires
        uniq(s),
        0 <= i < s.len(),
    ensures
        amap(s).contains_key(s[i].0),
        amap(s)[s[i].0] == s[i].1 as int,
    decreases s.len(),
{
    if i < s.len() - 1 {
        lemma_amap_lookup(s.drop_last(), i);
    }
}

pub proof fn lemma_amap_absent(s: Seq<(u32, i64)>, k: u32)
    requires
        forall|j: int| 0 <= j < s.len() ==> s[j].0 != k,
    ensures
        !amap(s).contains_key(k),
    decreases s.len(),
{
    if s.len() > 0 {
        lemma_amap_absent(s.drop_last(), k);
    }
}

pub proof fn lemma_amap_dom(s: Seq<(u32, i64)>, k: u32)
    requires
        amap(s).contains_key(k),
    ensures
        exists|j: int| 0 <= j < s.len() && s[j].0 == k,
{
    if forall|j: int| 0 <= j < s.len() ==> s[j].0 != k {
        lemma_amap_absent(s, k);
    }
}

proof fn lemma_amap_update(s: Seq<(u32, i64)>, i: int, v: i64)
    requires
        uniq(s),
        0 <= i < s.len(),
    ensures
        amap(s.update(i, (s[i].0, v))) == amap(s).insert(s[i].0, v as int),
        uniq(s.update(i, (s[i].0, v))),
    decreases s.len(),
{
    let k = s[i].0;
    let u = s.update(i, (k, v));
    assert(uniq(u)) by {
        assert forall|a: int, b: int| 0 <= a < b < u.len() implies u[a].0 != u[b].0 by {
            assert(u[a].0 == s[a].0);
            assert(u[b].0 == s[b].0);
        }
    }
    if i == s.len() - 1 {
        assert(u.drop_last() =~= s.drop_last());
        assert(amap(u) =~= amap(s).insert(k, v as int));
    } else {
        lemma_amap_update(s.drop_last(), i, v);
        assert(u.drop_last() =~= s.drop_last().update(i, (k, v)));
        assert(amap(u) =~= amap(s).insert(k, v as int));
    }
}

/// Position of `k` in the list.
pub fn tl_find(s: &Vec<(u32, i64)>, k: u32) -> (r: Option<usize>)
    ensures
        r matches Some(i) ==> i < s@.len() && s@[i as int].0 == k,
        r is None ==> forall|j: int| 0 <= j < s@.len() ==> s@[j].0 != k,
{
    let mut i: usize = 0;
    while i < s.len()
        invariant
            i <= s@.len(),
            forall|j: int| 0 <= j < i ==> s@[j].0 != k,
        decreases s@.len() - i,
    {
        if s[i].0 == k {
            return Some(i);
        }
        i = i + 1;
    }
    None
}

/// The value at `k`, if any.
pub fn tl_get(s: &Vec<(u32, i64)>, k: u32) -> (r: Option<i64>)
    requires
        uniq(s@),
    ensures
        r matches Some(v) ==> amap(s@).contains_key(k) && amap(s@)[k] == v as int,
        r is None ==> !amap(s@).contains_key(k),
        r matches Some(v) ==> exists|j: int| 0 <= j < s@.len() && s@[j].1 == v,
{
    match tl_find(s, k) {
        Some(i) => {
            proof {
                lemma_amap_lookup(s@, i as int);
            }
            Some(s[i].1)
        },
        None => {
            proof {
                lemma_amap_absent(s@, k);
            }
            None
        },
    }
}

/// Set the value at `k`.
pub fn tl_insert(s: &mut Vec<(u32, i64)>, k: u32, v: i64)
    requires
        uniq(old(s)@),
    ensures
        uniq(final(s)@),
        amap(final(s)@) == amap(old(s)@).insert(k, v as int),
        forall|j: int|
            0 <= j < final(s)@.len() ==> #[trigger] final(s)@[j].1 == v || (exists|t: int|
                0 <= t < old(s)@.len() && old(s)@[t].1 == final(s)@[j].1),
{
    match tl_find(s, k) {
        Some(i) => {
            proof {
                lemma_amap_update(s@, i as int, v);
            }
            let ghost s0 = s@;
            s.set(i, (k, v));
            proof {
                assert forall|j: int| 0 <= j < s@.len() implies #[trigger] s@[j].1 == v || (exists|
                    t: int,
                | 0 <= t < s0.len() && s0[t].1 == s@[j].1) by {
                    if j != i {
                        assert(s0[j].1 == s@[j].1);
                    }
                }
            }
        },
        None => {
            let ghost s0 = s@;
            s.push((k, v));
            proof {
                assert(s@.drop_last() =~= s0);
                assert forall|a: int, b: int| 0 <= a < b < s@.len() implies s@[a].0 != s@[b].0 by {
                    if b == s@.len() - 1 {
                        assert(s@[a] == s0[a]);
                    } else {
                        assert(s@[a] == s0[a] && s@[b] == s0[b]);
                    }
                }
                assert forall|j: int| 0 <= j < s@.len() implies #[trigger] s@[j].1 == v || (exists|
                    t: int,
                | 0 <= t < s0.len() && s0[t].1 == s@[j].1) by {
                    if j < s0.len() {
                        assert(s0[j].1 == s@[j].1);
                    }
                }
            }
        },
    }
}

/// A copy of the list.
pub fn tl_copy(s: &Vec<(u32, i64)>) -> (r: Vec<(u32, i64)>)
    ensures
        r@ == s@,
{
    let mut r: Vec<(u32, i64)> = Vec::new();
    let mut i: usize = 0;
    while i < s.len()
        invariant
            i <= s@.len(),
            r@ == s@.take(i as int),
        decreases s@.len() - i,
    {
        r.push(s[i]);
        proof {
            assert(s@.take(i + 1) =~= s@.take(i as int).push(s@[i as int]));
        }
        i = i + 1;
    }
    proof {
        assert(s@.take(i as int) =~= s@);
    }
    r
}

/// The entries of a map of log-odds as an association list.
pub fn tl_from_map(m: &HashMap<u32, LogOdds>) -> (r: Vec<(u32, i64)>)
    ensures
        uniq(r@),
        vals_i32(r@),
        amap(r@) == lo_view(m@),
{
    broadcast use vstd::std_specs::hash::group_hash_axioms;

    let mut r: Vec<(u32, i64)> = Vec::new();
    let ghost v = spec_hash_map_iter(m).remaining();
    for kv in it: m.iter()
        invariant
            it.seq() == v,
            r@.len() == it.index(),
            forall|j: int|
                0 <= j < r@.len() ==> (#[trigger] r@[j]).0 == *v[j].0 && r@[j].1 as int == (
                *v[j].1)@ as int,
    {
        let (k, val) = kv;
        r.push((*k, val.value() as i64));
    }
    proof {
        assert(v.len() == m@.dom().len());
        assert(v.no_duplicates());
        assert forall|a: int, b: int| 0 <= a < b < r@.len() implies r@[a].0 != r@[b].0 by {
            if r@[a].0 == r@[b].0 {
                assert(m@[*v[a].0] == *v[a].1);
                assert(m@[*v[b].0] == *v[b].1);
                assert(v[a] == v[b]);
            }
        }
        assert forall|k: u32| #[trigger] amap(r@).contains_key(k) == lo_view(m@).contains_key(k) by {
            if amap(r@).contains_key(k) {
                lemma_amap_dom(r@, k);
                let j = choose|j: int| 0 <= j < r@.len() && r@[j].0 == k;
                assert(m@.contains_key(*v[j].0));
            }
            if m@.contains_key(k) {
                assert(v.contains((&k, &m@[k])));
                let j = choose|j: int| 0 <= j < v.len() && v[j] == (&k, &m@[k]);
                assert(r@[j].0 == k);
                lemma_amap_lookup(r@, j);
            }
        }
        assert forall|k: u32| #[trigger] amap(r@).contains_key(k) implies amap(r@)[k] == lo_view(
            m@,
        )[k] by {
            lemma_amap_dom(r@, k);
            let j = choose|j: int| 0 <= j < r@.len() && r@[j].0 == k;
            lemma_amap_lookup(r@, j);
            assert(m@[*v[j].0] == *v[j].1);
        }
        assert(amap(r@) =~= lo_view(m@));
    }
    r
}

/// The map of log-odds that an association list of `i32`-valued entries describes.
pub fn tl_to_map(s: &Vec<(u32, i64)>) -> (r: HashMap<u32, LogOdds>)
    requires
        uniq(s@),
        vals_i32(s@),
    ensures
        lo_view(r@) == amap(s@),
{
    broadcast use vstd::std_specs::hash::group_hash_axioms;

    let mut r: HashMap<u32, LogOdds> = HashMap::new();
    let mut i: usize = 0;
    while i < s.len()
        invariant
            i <= s@.len(),
            uniq(s@),
            vals_i32(s@),
            lo_view(r@) == amap(s@.take(i as int)),
        decreases s@.len() - i,
    {
        let (k, v) = s[i];
        let ghost r0 = r@;
        r.insert(k, LogOdds::new(v as i32));
        proof {
            assert(s@.take(i + 1).drop_last() =~= s@.take(i as int));
            assert(lo_view(r@) =~= lo_view(r0).insert(k, v as int));
        }
        i = i + 1;
    }
    proof {
        assert(s@.take(i as int) =~= s@);
    }
    r
}

} // verus!
