//! Storage of DAG nodes in a slab, found again by content hash.
use vstd::prelude::*;
use slab::Slab;
use crate::crdt::merkle_dag::DagNode;
use crate::ordering::hash_eq;
use crate::protocol::envelope::Hash32;

verus! {

#[verifier::external_type_specification]
#[verifier::external_body]
#[verifier::reject_recursive_types(T)]
pub struct ExSlab<T>(Slab<T>);

/// The occupied entries of a slab of DAG nodes, by key.
pub uninterp spec fn slab_nodes(s: Slab<DagNode>) -> Map<usize, DagNode>;

/// A slab's contents with no entry.
pub open spec fn no_entries() -> Map<usize, DagNode> {
    Map::empty()
}

/// `Slab::new`: a slab with no entries.
#[verifier::external_body]
fn slab_new() -> (r: Slab<DagNode>)
    ensures
        slab_nodes(r) == no_entries(),
{
    Slab::new()
}

/// `Slab::insert`: stores the node under a key that held no entry and
/// returns that key. (Like `Vec::push`, it aborts only when the allocation
/// would exceed `isize::MAX` bytes; that limit is not stated.)
#[verifier::external_body]
fn slab_insert(s: &mut Slab<DagNode>, node: DagNode) -> (k: usize)
    ensures
        !slab_nodes(*old(s)).contains_key(k),
        slab_nodes(*final(s)) == slab_nodes(*old(s)).insert(k, node),
{
    s.insert(node)
}

/// `Slab::get`: the entry under the key, if occupied.
#[verifier::external_body]
fn slab_get(s: &Slab<DagNode>, k: usize) -> (r: Option<&DagNode>)
    ensures
        r == (if slab_nodes(*s).contains_key(k) {
            Some(&slab_nodes(*s)[k])
        } else {
            None
        }),
{
    s.get(k)
}

/// `Slab::remove`: takes out the entry under an occupied key (it panics
/// on a vacant key, which `requires` leaves out).
#[verifier::external_body]
fn slab_remove(s: &mut Slab<DagNode>, k: usize) -> (r: DagNode)
    requires
        slab_nodes(*old(s)).contains_key(k),
    ensures
        r == slab_nodes(*old(s))[k],
        slab_nodes(*final(s)) == slab_nodes(*old(s)).remove(k),
{
    s.remove(k)
}

/// `Slab::len`: the number of occupied entries.
#[verifier::external_body]
fn slab_len(s: &Slab<DagNode>) -> (r: usize)
    ensures
        r == slab_nodes(*s).dom().len(),
{
    s.len()
}

/// `Slab::clear`: removes every entry.
#[verifier::external_body]
fn slab_clear(s: &mut Slab<DagNode>)
    ensures
        slab_nodes(*final(s)) == no_entries(),
{
    s.clear()
}

/// The nodes of an index, each hash mapped to the slab entry its key names
/// (later entries win; in a well-formed arena hashes are distinct).
pub open spec fn index_map(idx: Seq<(Hash32, usize)>, slab: Map<usize, DagNode>) -> Map<Hash32, DagNode>
    decreases idx.len(),
{
    if idx.len() == 0 {
        Map::empty()
    } else {
        index_map(idx.drop_last(), slab).insert(idx.last().0, slab[idx.last().1])
    }
}

/// Position of `h` among the index's hashes.
pub open spec fn index_has(idx: Seq<(Hash32, usize)>, h: Hash32) -> bool {
    exists|i: int| 0 <= i < idx.len() && idx[i].0 == h
}

proof fn lemma_index_map(idx: Seq<(Hash32, usize)>, slab: Map<usize, DagNode>)
    requires
        forall|i: int, j: int| 0 <= i < j < idx.len() ==> idx[i].0 != idx[j].0,
    ensures
        forall|h: Hash32| #[trigger] index_map(idx, slab).contains_key(h) <==> index_has(idx, h),
        forall|i: int|
            0 <= i < idx.len() ==> #[trigger] index_map(idx, slab)[idx[i].0] == slab[idx[i].1],
        index_map(idx, slab).dom().finite(),
        index_map(idx, slab).dom().len() == idx.len(),
    decreases idx.len(),
{
    if idx.len() > 0 {
        let d = idx.drop_last();
        lemma_index_map(d, slab);
        assert forall|h: Hash32| #[trigger] index_map(idx, slab).contains_key(h) <==> index_has(
            idx,
            h,
        ) by {
            if index_has(idx, h) && h != idx.last().0 {
                let i = choose|i: int| 0 <= i < idx.len() && idx[i].0 == h;
                assert(d[i].0 == h);
            }
            if index_has(d, h) {
                let i = choose|i: int| 0 <= i < d.len() && d[i].0 == h;
                assert(idx[i].0 == h);
            }
        }
        assert forall|i: int| 0 <= i < idx.len() implies #[trigger] index_map(idx, slab)[idx[i].0]
            == slab[idx[i].1] by {
            if i < idx.len() - 1 {
                assert(d[i] == idx[i]);
            }
        }
        assert(!index_has(d, idx.last().0)) by {
            if index_has(d, idx.last().0) {
                let i = choose|i: int| 0 <= i < d.len() && d[i].0 == idx.last().0;
                assert(idx[i].0 == idx[idx.len() - 1].0);
            }
        }
    }
}

/// Slab storage of DAG nodes with lookup by content hash.
pub struct DagArena {
    slab: Slab<DagNode>,
    hash_to_index: Vec<(Hash32, usize)>,
}

impl DagArena {
    /// The stored nodes, by hash.
    pub closed spec fn nodes(&self) -> Map<Hash32, DagNode> {
        index_map(self.hash_to_index@, slab_nodes(self.slab))
    }

    /// The stored hashes, in the order of insertion.
    pub closed spec fn order(&self) -> Seq<Hash32> {
        self.hash_to_index@.map_values(|e: (Hash32, usize)| e.0)
    }

    /// The slab key of each stored hash.
    pub closed spec fn key_of(&self, h: Hash32) -> usize {
        let i = choose|i: int| 0 <= i < self.hash_to_index@.len() && self.hash_to_index@[i].0 == h;
        self.hash_to_index@[i].1
    }

    /// Hashes are distinct, slab keys are distinct, and the index names
    /// exactly the occupied slab entries.
    pub closed spec fn wf(&self) -> bool {
        let idx = self.hash_to_index@;
        let sl = slab_nodes(self.slab);
        &&& forall|i: int, j: int| 0 <= i < j < idx.len() ==> idx[i].0 != idx[j].0
        &&& forall|i: int, j: int| 0 <= i < j < idx.len() ==> idx[i].1 != idx[j].1
        &&& forall|i: int| 0 <= i < idx.len() ==> sl.contains_key(#[trigger] idx[i].1)
        &&& forall|k: usize|
            #[trigger] sl.contains_key(k) ==> exists|i: int| 0 <= i < idx.len() && idx[i].1 == k
        &&& sl.dom().finite()
    }

    /// The order lists the stored hashes once each, and the stored hashes
    /// are finitely many.
    pub proof fn lemma_wf(&self)
        requires
            self.wf(),
        ensures
            self.order().no_duplicates(),
            forall|h: Hash32| #[trigger] self.nodes().contains_key(h) <==> self.order().contains(h),
            self.nodes().dom().finite(),
            self.nodes().dom().len() == self.order().len(),
    {
        let idx = self.hash_to_index@;
        lemma_index_map(idx, slab_nodes(self.slab));
        assert forall|h: Hash32| #[trigger] self.nodes().contains_key(h) <==> self.order().contains(
            h,
        ) by {
            if self.order().contains(h) {
                let i = choose|i: int| 0 <= i < self.order().len() && self.order()[i] == h;
                assert(idx[i].0 == h);
            }
            if index_has(idx, h) {
                let i = choose|i: int| 0 <= i < idx.len() && idx[i].0 == h;
                assert(self.order()[i] == h);
            }
        }
    }

    /// An empty arena.
    pub fn new() -> (r: Self)
        ensures
            r.wf(),
            r.nodes() == Map::<Hash32, DagNode>::empty(),
            r.order() == Seq::<Hash32>::empty(),
    {
        let r = DagArena { slab: slab_new(), hash_to_index: Vec::new() };
        proof {
            assert(r.order() =~= Seq::<Hash32>::empty());
        }
        r
    }

    fn position(&self, hash: &Hash32) -> (r: Option<usize>)
        requires
            self.wf(),
        ensures
            match r {
                Some(i) => i < self.hash_to_index@.len() && self.hash_to_index@[i as int].0 == *hash,
                None => !index_has(self.hash_to_index@, *hash),
            },
    {
        let mut i: usize = 0;
        while i < self.hash_to_index.len()
            invariant
                i <= self.hash_to_index@.len(),
                forall|j: int| 0 <= j < i ==> self.hash_to_index@[j].0 != *hash,
            decreases self.hash_to_index@.len() - i,
        {
            if hash_eq(&self.hash_to_index[i].0, hash) {
                return Some(i);
            }
            i = i + 1;
        }
        None
    }

    /// Store `node` under `hash`. A hash already present keeps its node:
    /// the result is its slab key and `false`. Otherwise the node is stored
    /// under a fresh slab key, returned with `true`.
    pub fn insert(&mut self, hash: Hash32, node: DagNode) -> (r: (usize, bool))
        requires
            old(self).wf(),
        ensures
            final(self).wf(),
            r.1 == !old(self).nodes().contains_key(hash),
            r.1 ==> final(self).nodes() == old(self).nodes().insert(hash, node) && final(self).order()
                == old(self).order().push(hash),
            !r.1 ==> *final(self) == *old(self) && r.0 == old(self).key_of(hash),
    {
        proof {
            lemma_index_map(self.hash_to_index@, slab_nodes(self.slab));
        }
        match self.position(&hash) {
            Some(i) => {
                let k = self.hash_to_index[i].1;
                proof {
                    assert(index_has(self.hash_to_index@, hash));
                    let j = choose|j: int|
                        0 <= j < self.hash_to_index@.len() && self.hash_to_index@[j].0 == hash;
                    assert(j == i);
                }
                (k, false)
            },
            None => {
                let ghost old_idx = self.hash_to_index@;
                let ghost old_sl = slab_nodes(self.slab);
                let k = slab_insert(&mut self.slab, node);
                self.hash_to_index.push((hash, k));
                proof {
                    let idx = self.hash_to_index@;
                    let sl = slab_nodes(self.slab);
                    assert(idx.drop_last() =~= old_idx);
                    assert forall|i: int| 0 <= i < idx.len() - 1 implies idx[i].1 != k by {
                        assert(old_sl.contains_key(old_idx[i].1));
                    }
                    assert forall|q: usize| #[trigger] sl.contains_key(q) implies exists|i: int|
                        0 <= i < idx.len() && idx[i].1 == q by {
                        if q != k {
                            assert(old_sl.contains_key(q));
                            let i = choose|i: int| 0 <= i < old_idx.len() && old_idx[i].1 == q;
                            assert(idx[i].1 == q);
                        } else {
                            assert(idx[idx.len() - 1].1 == q);
                        }
                    }
                    assert(self.wf());
                    lemma_index_map(old_idx, sl);
                    lemma_index_map(old_idx, old_sl);
                    assert(index_map(old_idx, sl) =~= index_map(old_idx, old_sl)) by {
                        assert forall|h: Hash32| #[trigger] index_map(old_idx, sl).contains_key(h)
                            implies index_map(old_idx, sl)[h] == index_map(old_idx, old_sl)[h] by {
                            let i = choose|i: int| 0 <= i < old_idx.len() && old_idx[i].0 == h;
                            assert(old_sl.contains_key(old_idx[i].1));
                        }
                    }
                    assert(self.order() =~= old(self).order().push(hash));
                }
                (k, true)
            },
        }
    }

    /// The node stored under `hash`, if any.
    pub fn get_by_hash(&self, hash: &Hash32) -> (r: Option<&DagNode>)
        requires
            self.wf(),
        ensures
            r == (if self.nodes().contains_key(*hash) {
                Some(&self.nodes()[*hash])
            } else {
                None
            }),
    {
        proof {
            lemma_index_map(self.hash_to_index@, slab_nodes(self.slab));
        }
        match self.position(hash) {
            Some(i) => slab_get(&self.slab, self.hash_to_index[i].1),
            None => None,
        }
    }

    /// The node under a slab key, if occupied.
    pub fn get_by_index(&self, index: usize) -> (r: Option<&DagNode>)
        requires
            self.wf(),
        ensures
            r is Some <==> exists|h: Hash32| self.nodes().contains_key(h) && self.key_of(h) == index,
            forall|h: Hash32|
                self.nodes().contains_key(h) && self.key_of(h) == index ==> r == Some(
                    &self.nodes()[h],
                ),
    {
        proof {
            let idx = self.hash_to_index@;
            lemma_index_map(idx, slab_nodes(self.slab));
            if slab_nodes(self.slab).contains_key(index) {
                let i = choose|i: int| 0 <= i < idx.len() && idx[i].1 == index;
                assert(self.nodes().contains_key(idx[i].0));
                let j = choose|j: int| 0 <= j < idx.len() && idx[j].0 == idx[i].0;
                assert(j == i);
                assert(self.key_of(idx[i].0) == index);
            }
            assert forall|h: Hash32| self.nodes().contains_key(h) && self.key_of(h) == index implies
                slab_nodes(self.slab).contains_key(index) && self.nodes()[h] == slab_nodes(
                self.slab,
            )[index] by {
                let j = choose|j: int| 0 <= j < idx.len() && idx[j].0 == h;
            }
        }
        slab_get(&self.slab, index)
    }

    /// Whether a node is stored under `hash`.
    pub fn contains(&self, hash: &Hash32) -> (r: bool)
        requires
            self.wf(),
        ensures
            r == self.nodes().contains_key(*hash),
    {
        proof {
            lemma_index_map(self.hash_to_index@, slab_nodes(self.slab));
        }
        self.position(hash).is_some()
    }

    /// Number of stored nodes.
    pub fn len(&self) -> (r: usize)
        requires
            self.wf(),
        ensures
            r == self.nodes().dom().len(),
            r == self.order().len(),
    {
        proof {
            let idx = self.hash_to_index@;
            let sl = slab_nodes(self.slab);
            lemma_index_map(idx, sl);
            let keys = idx.map_values(|e: (Hash32, usize)| e.1);
            assert(keys.no_duplicates());
            keys.unique_seq_to_set();
            assert(keys.to_set() =~= sl.dom()) by {
                assert forall|k: usize| sl.dom().contains(k) implies keys.to_set().contains(k) by {
                    let i = choose|i: int| 0 <= i < idx.len() && idx[i].1 == k;
                    assert(keys[i] == k);
                }
            }
        }
        slab_len(&self.slab)
    }

    /// Whether no node is stored.
    pub fn is_empty(&self) -> (r: bool)
        requires
            self.wf(),
        ensures
            r == (self.nodes().dom().len() == 0),
    {
        self.len() == 0
    }

    /// Every stored `(hash, node)` pair, in the order of insertion.
    pub fn get_all_iter(&self) -> (r: Vec<(&Hash32, &DagNode)>)
        requires
            self.wf(),
        ensures
            r@.len() == self.order().len(),
            forall|i: int|
                0 <= i < r@.len() ==> *(#[trigger] r@[i]).0 == self.order()[i] && *r@[i].1
                    == self.nodes()[self.order()[i]],
    {
        proof {
            lemma_index_map(self.hash_to_index@, slab_nodes(self.slab));
        }
        let mut r: Vec<(&Hash32, &DagNode)> = Vec::new();
        let mut i: usize = 0;
        while i < self.hash_to_index.len()
            invariant
                self.wf(),
                i <= self.hash_to_index@.len(),
                r@.len() == i,
                forall|h: Hash32| #[trigger] self.nodes().contains_key(h) <==> index_has(self.hash_to_index@, h),
                forall|j: int|
                    0 <= j < self.hash_to_index@.len() ==> #[trigger] self.nodes()[self.hash_to_index@[j].0]
                        == slab_nodes(self.slab)[self.hash_to_index@[j].1],
                forall|j: int|
                    0 <= j < i ==> *(#[trigger] r@[j]).0 == self.order()[j] && *r@[j].1
                        == self.nodes()[self.order()[j]],
            decreases self.hash_to_index@.len() - i,
        {
            let e = &self.hash_to_index[i];
            let n = slab_get(&self.slab, e.1);
            match n {
                Some(node) => {
                    r.push((&e.0, node));
                },
                None => {
                    proof {
                        assert(false);
                    }
                },
            }
            i = i + 1;
        }
        r
    }

    /// Keep only the nodes whose hashes are listed in `keep`, returning how
    /// many were removed. The survivors keep their order and slab keys.
    pub fn retain(&mut self, keep: &[Hash32]) -> (r: usize)
        requires
            old(self).wf(),
        ensures
            final(self).wf(),
            final(self).nodes() == old(self).nodes().restrict(keep@.to_set()),
            final(self).order() == old(self).order().filter(|h: Hash32| keep@.contains(h)),
            r == old(self).order().len() - final(self).order().len(),
    {
        let ghost idx0 = self.hash_to_index@;
        let ghost sl0 = slab_nodes(self.slab);
        let ghost hs0 = self.order();
        let ghost pk = |h: Hash32| keep@.contains(h);
        let ghost mut pos: Seq<int> = Seq::empty();
        proof {
            lemma_index_map(idx0, sl0);
        }
        let mut kept: Vec<(Hash32, usize)> = Vec::new();
        let mut removed: usize = 0;
        let mut i: usize = 0;
        while i < self.hash_to_index.len()
            invariant
                i <= idx0.len(),
                self.hash_to_index@ == idx0,
                hs0 == idx0.map_values(|e: (Hash32, usize)| e.0),
                pk == (|h: Hash32| keep@.contains(h)),
                forall|a: int, b: int| 0 <= a < b < idx0.len() ==> idx0[a].0 != idx0[b].0,
                forall|a: int, b: int| 0 <= a < b < idx0.len() ==> idx0[a].1 != idx0[b].1,
                forall|a: int| 0 <= a < idx0.len() ==> sl0.contains_key(#[trigger] idx0[a].1),
                forall|k: usize|
                    #[trigger] sl0.contains_key(k) ==> exists|a: int| 0 <= a < idx0.len() && idx0[a].1 == k,
                sl0.dom().finite(),
                pos.len() == kept@.len(),
                forall|a: int| 0 <= a < pos.len() ==> 0 <= #[trigger] pos[a] < i,
                forall|a: int, b: int| 0 <= a < b < pos.len() ==> pos[a] < pos[b],
                forall|a: int| 0 <= a < pos.len() ==> #[trigger] kept@[a] == idx0[pos[a]] && keep@.contains(
                    idx0[pos[a]].0,
                ),
                forall|b: int|
                    0 <= b < i && keep@.contains(#[trigger] idx0[b].0) ==> exists|a: int|
                        0 <= a < pos.len() && pos[a] == b,
                kept@.map_values(|e: (Hash32, usize)| e.0) == hs0.take(i as int).filter(pk),
                removed == i - kept@.len(),
                forall|k: usize| #[trigger]
                    slab_nodes(self.slab).contains_key(k) <==> (sl0.contains_key(k) && forall|b: int|
                        0 <= b < i && idx0[b].1 == k ==> keep@.contains(idx0[b].0)),
                forall|k: usize| #[trigger]
                    slab_nodes(self.slab).contains_key(k) ==> slab_nodes(self.slab)[k] == sl0[k],
                slab_nodes(self.slab).dom().finite(),
            decreases idx0.len() - i,
        {
            let e = self.hash_to_index[i];
            let mut found = false;
            let mut j: usize = 0;
            while j < keep.len()
                invariant
                    j <= keep@.len(),
                    found == exists|q: int| 0 <= q < j && keep@[q] == e.0,
                decreases keep@.len() - j,
            {
                if hash_eq(&keep[j], &e.0) {
                    found = true;
                }
                j = j + 1;
            }
            proof {
                assert(found == keep@.contains(e.0));
                assert(hs0.take(i + 1).drop_last() =~= hs0.take(i as int));
                assert(hs0.take(i + 1).last() == e.0);
                reveal(Seq::filter);
            }
            let ghost sl_before = slab_nodes(self.slab);
            let ghost kept_before = kept@;
            let ghost pos_before = pos;
            if found {
                kept.push(e);
                proof {
                    pos = pos.push(i as int);
                    assert(kept@.map_values(|e: (Hash32, usize)| e.0) =~= kept_before.map_values(
                        |e: (Hash32, usize)| e.0,
                    ).push(e.0));
                }
            } else {
                proof {
                    assert(sl_before.contains_key(e.1)) by {
                        assert(sl0.contains_key(idx0[i as int].1));
                        assert forall|b: int| 0 <= b < i && idx0[b].1 == e.1 implies keep@.contains(
                            idx0[b].0,
                        ) by {
                            assert(idx0[b].1 != idx0[i as int].1);
                        }
                    }
                }
                slab_remove(&mut self.slab, e.1);
                removed = removed + 1;
            }
            proof {
                assert forall|b: int| 0 <= b < i + 1 && keep@.contains(#[trigger] idx0[b].0) implies exists|a: int|
                    0 <= a < pos.len() && pos[a] == b by {
                    if b == i {
                        assert(pos[pos.len() - 1] == b);
                    } else {
                        let a = choose|a: int| 0 <= a < pos_before.len() && pos_before[a] == b;
                        assert(pos[a] == b);
                    }
                }
                assert forall|k: usize| #[trigger] slab_nodes(self.slab).contains_key(k) <==> (
                    sl0.contains_key(k) && forall|b: int| 0 <= b < i + 1 && idx0[b].1 == k ==> keep@.contains(
                        idx0[b].0,
                    )) by {
                    if slab_nodes(self.slab).contains_key(k) {
                        assert(sl_before.contains_key(k));
                    }
                    if sl0.contains_key(k) && (forall|b: int| 0 <= b < i + 1 && idx0[b].1 == k ==> keep@.contains(
                        idx0[b].0,
                    )) {
                        assert(sl_before.contains_key(k));
                        if !found {
                            assert(k != e.1);
                        }
                    }
                }
            }
            i = i + 1;
        }
        self.hash_to_index = kept;
        proof {
            let idx = self.hash_to_index@;
            let sl = slab_nodes(self.slab);
            assert(hs0.take(i as int) =~= hs0);
            assert forall|a: int, b: int| 0 <= a < b < idx.len() implies idx[a].0 != idx[b].0 && idx[a].1
                != idx[b].1 by {
                assert(idx[a] == idx0[pos[a]]);
                assert(idx[b] == idx0[pos[b]]);
            }
            assert forall|a: int| 0 <= a < idx.len() implies sl.contains_key(#[trigger] idx[a].1) by {
                assert(idx[a] == idx0[pos[a]]);
                assert forall|b: int| 0 <= b < i && idx0[b].1 == idx[a].1 implies keep@.contains(
                    idx0[b].0,
                ) by {
                    if b != pos[a] {
                        if b < pos[a] {
                            assert(idx0[b].1 != idx0[pos[a]].1);
                        } else {
                            assert(idx0[pos[a]].1 != idx0[b].1);
                        }
                    }
                }
            }
            assert forall|k: usize| #[trigger] sl.contains_key(k) implies exists|a: int|
                0 <= a < idx.len() && idx[a].1 == k by {
                let b = choose|b: int| 0 <= b < idx0.len() && idx0[b].1 == k;
                assert(keep@.contains(idx0[b].0));
                let a = choose|a: int| 0 <= a < pos.len() && pos[a] == b;
                assert(idx[a] == idx0[b]);
            }
            assert(self.wf());
            lemma_index_map(idx, sl);
            assert(self.nodes() =~= old(self).nodes().restrict(keep@.to_set())) by {
                assert forall|h: Hash32| #[trigger] self.nodes().contains_key(h) <==> (old(
                    self,
                ).nodes().contains_key(h) && keep@.to_set().contains(h)) by {
                    if self.nodes().contains_key(h) {
                        let a = choose|a: int| 0 <= a < idx.len() && idx[a].0 == h;
                        assert(idx[a] == idx0[pos[a]]);
                        assert(index_has(idx0, h));
                    }
                    if old(self).nodes().contains_key(h) && keep@.to_set().contains(h) {
                        let b = choose|b: int| 0 <= b < idx0.len() && idx0[b].0 == h;
                        let a = choose|a: int| 0 <= a < pos.len() && pos[a] == b;
                        assert(idx[a].0 == h);
                    }
                }
                assert forall|h: Hash32| #[trigger] self.nodes().contains_key(h) implies self.nodes()[h]
                    == old(self).nodes()[h] by {
                    let a = choose|a: int| 0 <= a < idx.len() && idx[a].0 == h;
                    assert(idx[a] == idx0[pos[a]]);
                    assert(sl.contains_key(idx[a].1));
                }
            }
        }
        removed
    }

    /// Remove every node.
    pub fn clear(&mut self)
        ensures
            final(self).wf(),
            final(self).nodes() == Map::<Hash32, DagNode>::empty(),
            final(self).order() == Seq::<Hash32>::empty(),
    {
        slab_clear(&mut self.slab);
        self.hash_to_index = Vec::new();
        proof {
            assert(self.order() =~= Seq::<Hash32>::empty());
        }
    }
}

} // verus!
