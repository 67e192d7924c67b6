//! Deterministic cycle detection in the support subgraph of the knowledge
//! graph: depth-first search from the claims in ascending order, following
//! the outgoing edges of a claim in ascending order of their target.
use vstd::prelude::*;
use std::collections::HashSet;
use crate::epistemic::claim::{is_support, relation_is_support, ClaimArenaId, EpistemicEdge};
use crate::epistemic::graph::{lemma_nodup_len_bound, KnowledgeGraph};
use crate::ordering::{lemma_insert_at, lemma_sort_multiset, sort_stable};

verus! {

/// Number of elements of `s` below `x`.
pub open spec fn count_below(s: Seq<u32>, x: u32) -> nat
    decreases s.len(),
{
    if s.len() == 0 {
        0
    } else {
        count_below(s.drop_last(), x) + (if s.last() < x {
            1nat
        } else {
            0nat
        })
    }
}

/// Insert `x` into an ascending list of distinct claims unless present.
pub open spec fn insert_node(s: Seq<u32>, x: u32) -> Seq<u32> {
    if s.contains(x) {
        s
    } else {
        s.insert(count_below(s, x) as int, x)
    }
}

/// The distinct endpoints of the first `n` edges, in ascending order.
pub open spec fn graph_nodes(edges: Seq<EpistemicEdge>, n: int) -> Seq<u32>
    decreases n,
{
    if n <= 0 {
        Seq::empty()
    } else {
        insert_node(insert_node(graph_nodes(edges, n - 1), edges[n - 1].from), edges[n - 1].to)
    }
}

/// The edge indices leaving `node` among the first `n` edges, ascending.
pub open spec fn out_list(edges: Seq<EpistemicEdge>, node: u32, n: int) -> Seq<usize>
    decreases n,
{
    if n <= 0 {
        Seq::empty()
    } else if edges[n - 1].from == node {
        out_list(edges, node, n - 1).push((n - 1) as usize)
    } else {
        out_list(edges, node, n - 1)
    }
}

pub open spec fn target_before(edges: Seq<EpistemicEdge>) -> spec_fn(usize, usize) -> bool {
    |a: usize, b: usize| edges[a as int].to < edges[b as int].to
}

/// The edges leaving `node`, ordered by target (ties in insertion order).
pub open spec fn sorted_out(edges: Seq<EpistemicEdge>, node: u32) -> Seq<usize> {
    sort_stable(out_list(edges, node, edges.len() as int), target_before(edges))
}

/// State of the back-edge search: visited claims, current path, back edges.
pub type MarkState = (Seq<u32>, Seq<u32>, Seq<usize>);

/// Depth-first visit of `node` that records the back edges it meets.
pub open spec fn mark_visit(edges: Seq<EpistemicEdge>, node: u32, st: MarkState, fuel: nat) -> MarkState
    decreases fuel, 0int, 0int,
{
    if fuel == 0 {
        st
    } else {
        let st1 = (st.0.push(node), st.1.push(node), st.2);
        let st2 = mark_edges(edges, sorted_out(edges, node), 0, st1, (fuel - 1) as nat);
        (st2.0, st2.1.drop_last(), st2.2)
    }
}

/// The back-edge search over the edges `list[pos..]` leaving the current claim.
pub open spec fn mark_edges(
    edges: Seq<EpistemicEdge>,
    list: Seq<usize>,
    pos: int,
    st: MarkState,
    fuel: nat,
) -> MarkState
    decreases fuel, 1int, list.len() - pos,
{
    if pos < 0 || pos >= list.len() {
        st
    } else {
        let idx = list[pos];
        let e = edges[idx as int];
        let next = if !is_support(e.relation) {
            st
        } else if st.1.contains(e.to) {
            (st.0, st.1, st.2.push(idx))
        } else if !st.0.contains(e.to) {
            mark_visit(edges, e.to, st, fuel)
        } else {
            st
        };
        mark_edges(edges, list, pos + 1, next, fuel)
    }
}

/// The back-edge search started from each of the first `k` claims of
/// `nodes` that is not yet visited.
pub open spec fn mark_all(edges: Seq<EpistemicEdge>, nodes: Seq<u32>, k: int) -> MarkState
    decreases k,
{
    if k <= 0 {
        (Seq::empty(), Seq::empty(), Seq::empty())
    } else {
        let st = mark_all(edges, nodes, k - 1);
        if st.0.contains(nodes[k - 1]) {
            st
        } else {
            mark_visit(edges, nodes[k - 1], st, nodes.len())
        }
    }
}

/// The edges that close a cycle of support edges: the back edges of the search.
pub open spec fn cyclic_edges(edges: Seq<EpistemicEdge>) -> Seq<usize> {
    let nodes = graph_nodes(edges, edges.len() as int);
    mark_all(edges, nodes, nodes.len() as int).2
}

/// Two edge lists with the same endpoints at each position and support
/// edges at the same positions.
pub open spec fn same_skeleton(a: Seq<EpistemicEdge>, b: Seq<EpistemicEdge>) -> bool {
    &&& a.len() == b.len()
    &&& forall|i: int|
        0 <= i < a.len() ==> (#[trigger] a[i]).from == b[i].from && a[i].to == b[i].to && is_support(
            a[i].relation,
        ) == is_support(b[i].relation)
}

proof fn lemma_graph_nodes_skeleton(a: Seq<EpistemicEdge>, b: Seq<EpistemicEdge>, n: int)
    requires
        same_skeleton(a, b),
        n <= a.len(),
    ensures
        graph_nodes(a, n) == graph_nodes(b, n),
    decreases n,
{
    if n > 0 {
        lemma_graph_nodes_skeleton(a, b, n - 1);
        assert(a[n - 1].from == b[n - 1].from);
    }
}

proof fn lemma_out_list_skeleton(a: Seq<EpistemicEdge>, b: Seq<EpistemicEdge>, node: u32, n: int)
    requires
        same_skeleton(a, b),
        n <= a.len(),
    ensures
        out_list(a, node, n) == out_list(b, node, n),
        forall|k: int| 0 <= k < out_list(a, node, n).len() ==> #[trigger] out_list(a, node, n)[k] < n,
    decreases n,
{
    if n > 0 {
        lemma_out_list_skeleton(a, b, node, n - 1);
        assert(a[n - 1].from == b[n - 1].from);
    }
}

proof fn lemma_sorted_out_skeleton(a: Seq<EpistemicEdge>, b: Seq<EpistemicEdge>, node: u32)
    requires
        same_skeleton(a, b),
    ensures
        sorted_out(a, node) == sorted_out(b, node),
        forall|k: int| 0 <= k < sorted_out(a, node).len() ==> #[trigger] sorted_out(a, node)[k] < a.len(),
{
    broadcast use vstd::seq_lib::group_to_multiset_ensures;

    let l = out_list(a, node, a.len() as int);
    lemma_out_list_skeleton(a, b, node, a.len() as int);
    assert forall|x: usize, y: usize| l.contains(x) && l.contains(y) implies #[trigger] (target_before(a))(x, y)
        == #[trigger] (target_before(b))(x, y) by {
        let i = choose|i: int| 0 <= i < l.len() && l[i] == x;
        let j = choose|j: int| 0 <= j < l.len() && l[j] == y;
        assert(a[x as int].to == b[x as int].to);
        assert(a[y as int].to == b[y as int].to);
    }
    crate::ordering::lemma_sort_congruent(l, target_before(a), target_before(b));
    lemma_sort_multiset(l, target_before(a));
    let so = sorted_out(a, node);
    assert forall|k: int| 0 <= k < so.len() implies #[trigger] so[k] < a.len() by {
        assert(so.to_multiset().count(so[k]) > 0);
        assert(l.contains(so[k]));
        let j = choose|j: int| 0 <= j < l.len() && l[j] == so[k];
    }
}

proof fn lemma_mark_visit_skeleton(
    a: Seq<EpistemicEdge>,
    b: Seq<EpistemicEdge>,
    node: u32,
    st: MarkState,
    fuel: nat,
)
    requires
        same_skeleton(a, b),
    ensures
        mark_visit(a, node, st, fuel) == mark_visit(b, node, st, fuel),
    decreases fuel, 0int, 0int,
{
    if fuel > 0 {
        let st1 = (st.0.push(node), st.1.push(node), st.2);
        lemma_sorted_out_skeleton(a, b, node);
        lemma_mark_edges_skeleton(a, b, sorted_out(a, node), 0, st1, (fuel - 1) as nat);
    }
}

proof fn lemma_mark_edges_skeleton(
    a: Seq<EpistemicEdge>,
    b: Seq<EpistemicEdge>,
    list: Seq<usize>,
    pos: int,
    st: MarkState,
    fuel: nat,
)
    requires
        same_skeleton(a, b),
        forall|k: int| 0 <= k < list.len() ==> #[trigger] list[k] < a.len(),
    ensures
        mark_edges(a, list, pos, st, fuel) == mark_edges(b, list, pos, st, fuel),
    decreases fuel, 1int, list.len() - pos,
{
    if 0 <= pos < list.len() {
        let idx = list[pos];
        assert(idx < a.len());
        assert(a[idx as int].to == b[idx as int].to);
        assert(is_support(a[idx as int].relation) == is_support(b[idx as int].relation));
        let e = a[idx as int];
        if is_support(e.relation) && !st.1.contains(e.to) && !st.0.contains(e.to) {
            lemma_mark_visit_skeleton(a, b, e.to, st, fuel);
        }
        let next = if !is_support(e.relation) {
            st
        } else if st.1.contains(e.to) {
            (st.0, st.1, st.2.push(idx))
        } else if !st.0.contains(e.to) {
            mark_visit(a, e.to, st, fuel)
        } else {
            st
        };
        lemma_mark_edges_skeleton(a, b, list, pos + 1, next, fuel);
    }
}

proof fn lemma_mark_all_skeleton(a: Seq<EpistemicEdge>, b: Seq<EpistemicEdge>, nodes: Seq<u32>, k: int)
    requires
        same_skeleton(a, b),
    ensures
        mark_all(a, nodes, k) == mark_all(b, nodes, k),
    decreases k,
{
    if k > 0 {
        lemma_mark_all_skeleton(a, b, nodes, k - 1);
        lemma_mark_visit_skeleton(a, b, nodes[k - 1], mark_all(a, nodes, k - 1), nodes.len());
    }
}

/// Which edges close a cycle depends only on where the support edges are
/// and what every edge joins, not on the relations of the other edges.
pub proof fn law_cycles_ignore_non_support(a: Seq<EpistemicEdge>, b: Seq<EpistemicEdge>)
    requires
        same_skeleton(a, b),
    ensures
        cyclic_edges(a) == cyclic_edges(b),
{
    lemma_graph_nodes_skeleton(a, b, a.len() as int);
    let nodes = graph_nodes(a, a.len() as int);
    lemma_mark_all_skeleton(a, b, nodes, nodes.len() as int);
}

/// State of the cycle listing: visited claims, current path, cycles found.
pub type CycleState = (Seq<u32>, Seq<u32>, Seq<Seq<u32>>);

/// Position of the first occurrence of `x` in `s`.
pub open spec fn first_index(s: Seq<u32>, x: u32) -> int
    decreases s.len(),
{
    if s.len() == 0 {
        0
    } else if s[0] == x {
        0
    } else {
        1 + first_index(s.drop_first(), x)
    }
}

/// Depth-first visit of `node` that records each cycle it closes, as the
/// part of the path from the repeated claim on.
pub open spec fn cycle_visit(edges: Seq<EpistemicEdge>, node: u32, st: CycleState, fuel: nat) -> CycleState
    decreases fuel, 0int, 0int,
{
    if fuel == 0 {
        st
    } else {
        let st1 = (st.0.push(node), st.1.push(node), st.2);
        let st2 = cycle_edges(edges, sorted_out(edges, node), 0, st1, (fuel - 1) as nat);
        (st2.0, st2.1.drop_last(), st2.2)
    }
}

pub open spec fn cycle_edges(
    edges: Seq<EpistemicEdge>,
    list: Seq<usize>,
    pos: int,
    st: CycleState,
    fuel: nat,
) -> CycleState
    decreases fuel, 1int, list.len() - pos,
{
    if pos < 0 || pos >= list.len() {
        st
    } else {
        let idx = list[pos];
        let e = edges[idx as int];
        let next = if !is_support(e.relation) {
            st
        } else if st.1.contains(e.to) {
            (st.0, st.1, st.2.push(st.1.skip(first_index(st.1, e.to))))
        } else if !st.0.contains(e.to) {
            cycle_visit(edges, e.to, st, fuel)
        } else {
            st
        };
        cycle_edges(edges, list, pos + 1, next, fuel)
    }
}

pub open spec fn cycle_all(edges: Seq<EpistemicEdge>, nodes: Seq<u32>, k: int) -> CycleState
    decreases k,
{
    if k <= 0 {
        (Seq::empty(), Seq::empty(), Seq::empty())
    } else {
        let st = cycle_all(edges, nodes, k - 1);
        if st.0.contains(nodes[k - 1]) {
            st
        } else {
            cycle_visit(edges, nodes[k - 1], st, nodes.len())
        }
    }
}

/// The cycles of support edges found by the search.
pub open spec fn graph_cycles(edges: Seq<EpistemicEdge>) -> Seq<Seq<u32>> {
    let nodes = graph_nodes(edges, edges.len() as int);
    cycle_all(edges, nodes, nodes.len() as int).2
}

proof fn lemma_count_below_bound(s: Seq<u32>, x: u32)
    ensures
        count_below(s, x) <= s.len(),
    decreases s.len(),
{
    if s.len() > 0 {
        lemma_count_below_bound(s.drop_last(), x);
    }
}

proof fn lemma_insert_node(s: Seq<u32>, x: u32)
    requires
        s.no_duplicates(),
    ensures
        insert_node(s, x).no_duplicates(),
        insert_node(s, x).contains(x),
        forall|y: u32| s.contains(y) ==> insert_node(s, x).contains(y),
{
    if !s.contains(x) {
        lemma_count_below_bound(s, x);
        let p = count_below(s, x) as int;
        let r = s.insert(p, x);
        assert(r[p] == x);
        assert forall|y: u32| s.contains(y) implies r.contains(y) by {
            let i = choose|i: int| 0 <= i < s.len() && s[i] == y;
            if i < p {
                assert(r[i] == y);
            } else {
                assert(r[i + 1] == y);
            }
        }
        assert forall|a: int, b: int| 0 <= a < b < r.len() implies r[a] != r[b] by {
            if a == p {
                assert(r[b] == s[b - 1]);
            } else if b == p {
                assert(r[a] == s[a]);
            } else {
                let sa = if a < p { a } else { a - 1 };
                let sb = if b < p { b } else { b - 1 };
                assert(r[a] == s[sa]);
                assert(r[b] == s[sb]);
            }
        }
    }
}

pub proof fn lemma_graph_nodes(edges: Seq<EpistemicEdge>, n: int)
    requires
        0 <= n <= edges.len(),
    ensures
        graph_nodes(edges, n).no_duplicates(),
        forall|i: int|
            0 <= i < n ==> graph_nodes(edges, n).contains(#[trigger] edges[i].from)
                && graph_nodes(edges, n).contains(edges[i].to),
    decreases n,
{
    if n > 0 {
        lemma_graph_nodes(edges, n - 1);
        let a = graph_nodes(edges, n - 1);
        let b = insert_node(a, edges[n - 1].from);
        lemma_insert_node(a, edges[n - 1].from);
        lemma_insert_node(b, edges[n - 1].to);
    }
}

pub proof fn lemma_out_list_valid(edges: Seq<EpistemicEdge>, node: u32, n: int)
    requires
        0 <= n <= edges.len(),
    ensures
        forall|i: int|
            0 <= i < out_list(edges, node, n).len() ==> (#[trigger] out_list(edges, node, n)[i])
                < n,
    decreases n,
{
    if n > 0 {
        lemma_out_list_valid(edges, node, n - 1);
        let prev = out_list(edges, node, n - 1);
        let cur = out_list(edges, node, n);
        assert forall|i: int| 0 <= i < cur.len() implies (#[trigger] cur[i]) < n by {
            if i < prev.len() {
                assert(cur[i] == prev[i]);
            }
        }
    }
}

/// Every entry of `sorted_out(edges, node)` is an edge index that leaves `node`.
pub proof fn lemma_sorted_out_valid(edges: Seq<EpistemicEdge>, node: u32)
    ensures
        forall|i: int|
            0 <= i < sorted_out(edges, node).len() ==> (#[trigger] sorted_out(edges, node)[i])
                < edges.len(),
{
    let o = out_list(edges, node, edges.len() as int);
    let s = sorted_out(edges, node);
    lemma_out_list_valid(edges, node, edges.len() as int);
    lemma_sort_multiset(o, target_before(edges));
    assert forall|i: int| 0 <= i < s.len() implies (#[trigger] s[i]) < edges.len() by {
        broadcast use vstd::seq_lib::group_to_multiset_ensures;

        assert(s.to_multiset().count(s[i]) > 0);
        assert(o.to_multiset().count(s[i]) > 0);
        assert(o.contains(s[i]));
    }
}

/// The contents of each vector.
pub open spec fn views(v: Seq<Vec<u32>>) -> Seq<Seq<u32>> {
    v.map_values(|c: Vec<u32>| c@)
}

/// Copy of `v[from..]`.
fn copy_from(v: &Vec<u32>, from: usize) -> (r: Vec<u32>)
    requires
        from <= v@.len(),
    ensures
        r@ == v@.skip(from as int),
{
    let mut r: Vec<u32> = Vec::new();
    let mut i: usize = from;
    while i < v.len()
        invariant
            from <= i <= v@.len(),
            r@ == v@.subrange(from as int, i as int),
        decreases v@.len() - i,
    {
        r.push(v[i]);
        proof {
            assert(v@.subrange(from as int, i + 1) =~= v@.subrange(from as int, i as int).push(
                v@[i as int],
            ));
        }
        i = i + 1;
    }
    proof {
        assert(v@.subrange(from as int, i as int) =~= v@.skip(from as int));
    }
    r
}

fn vec_contains(v: &Vec<u32>, x: u32) -> (r: bool)
    ensures
        r == v@.contains(x),
{
    let mut i: usize = 0;
    while i < v.len()
        invariant
            i <= v@.len(),
            forall|j: int| 0 <= j < i ==> v@[j] != x,
        decreases v@.len() - i,
    {
        if v[i] == x {
            return true;
        }
        i = i + 1;
    }
    false
}

fn insert_node_exec(v: &mut Vec<u32>, x: u32)
    ensures
        final(v)@ == insert_node(old(v)@, x),
{
    if vec_contains(v, x) {
        return ;
    }
    let mut c: usize = 0;
    let mut i: usize = 0;
    while i < v.len()
        invariant
            i <= v@.len(),
            c == count_below(v@.take(i as int), x),
            c <= i,
        decreases v@.len() - i,
    {
        proof {
            assert(v@.take(i + 1).drop_last() =~= v@.take(i as int));
        }
        if v[i] < x {
            c = c + 1;
        }
        i = i + 1;
    }
    proof {
        assert(v@.take(i as int) =~= v@);
    }
    v.insert(c, x);
}

/// Position of the first occurrence of `x` in `v`, which contains it.
fn position_of(v: &Vec<u32>, x: u32) -> (r: usize)
    requires
        v@.contains(x),
    ensures
        r == first_index(v@, x),
        r < v@.len(),
{
    let mut i: usize = 0;
    proof {
        assert(v@.skip(0) =~= v@);
    }
    while i < v.len()
        invariant
            i <= v@.len(),
            v@.contains(x),
            forall|j: int| 0 <= j < i ==> v@[j] != x,
            first_index(v@, x) == i + first_index(v@.skip(i as int), x),
        decreases v@.len() - i,
    {
        if v[i] == x {
            proof {
                assert(v@.skip(i as int)[0] == x);
            }
            return i;
        }
        proof {
            assert(v@.skip(i as int).drop_first() =~= v@.skip(i + 1));
        }
        i = i + 1;
    }
    proof {
        let j = choose|j: int| 0 <= j < v@.len() && v@[j] == x;
    }
    i
}

impl KnowledgeGraph {
    /// The distinct endpoints of all edges, ascending.
    fn all_nodes(&self) -> (r: Vec<ClaimArenaId>)
        ensures
            r@ == graph_nodes(self@, self@.len() as int),
    {
        let edges = self.edges();
        let mut nodes: Vec<ClaimArenaId> = Vec::new();
        let mut i: usize = 0;
        while i < edges.len()
            invariant
                i <= edges@.len(),
                edges@ == self@,
                nodes@ == graph_nodes(self@, i as int),
            decreases edges@.len() - i,
        {
            insert_node_exec(&mut nodes, edges[i].from);
            insert_node_exec(&mut nodes, edges[i].to);
            i = i + 1;
        }
        nodes
    }

    /// The edges leaving `node`, stably sorted by target.
    fn sorted_out_edges(&self, node: ClaimArenaId) -> (r: Vec<usize>)
        ensures
            r@ == sorted_out(self@, node),
    {
        let edges = self.edges();
        let ghost before = target_before(self@);
        let mut out: Vec<usize> = Vec::new();
        let mut i: usize = 0;
        while i < edges.len()
            invariant
                i <= edges@.len(),
                edges@ == self@,
                out@ == out_list(self@, node, i as int),
            decreases edges@.len() - i,
        {
            if edges[i].from == node {
                out.push(i);
            }
            i = i + 1;
        }
        proof {
            lemma_out_list_valid(self@, node, self@.len() as int);
        }
        let mut res: Vec<usize> = Vec::new();
        let mut k: usize = 0;
        while k < out.len()
            invariant
                k <= out@.len(),
                edges@ == self@,
                before == target_before(self@),
                forall|j: int| 0 <= j < out@.len() ==> (#[trigger] out@[j]) < edges@.len(),
                forall|j: int| 0 <= j < res@.len() ==> (#[trigger] res@[j]) < edges@.len(),
                res@ == sort_stable(out@.take(k as int), before),
                res@.len() == k,
            decreases out@.len() - k,
        {
            let x = out[k];
            let ghost r0 = res@;
            proof {
                assert(out@.take(k + 1).drop_last() =~= out@.take(k as int));
                assert(out@.take(k + 1).last() == x);
            }
            res.push(x);
            let mut j: usize = k;
            while j > 0 && edges[res[j]].to < edges[res[j - 1]].to
                invariant
                    j <= k,
                    k < out@.len(),
                    x < edges@.len(),
                    edges@ == self@,
                    before == target_before(self@),
                    res@.len() == k + 1,
                    r0.len() == k,
                    forall|t: int| 0 <= t < res@.len() ==> (#[trigger] res@[t]) < edges@.len(),
                    res@ == r0.take(j as int) + seq![x] + r0.skip(j as int),
                    forall|t: int| j <= t < r0.len() ==> before(x, #[trigger] r0[t]),
                decreases j,
            {
                let a = res[j];
                let b = res[j - 1];
                res.set(j, b);
                res.set(j - 1, a);
                proof {
                    assert(res@ =~= r0.take(j - 1) + seq![x] + r0.skip(j - 1));
                }
                j = j - 1;
            }
            proof {
                lemma_insert_at(r0, x, before, j as int);
            }
            k = k + 1;
        }
        proof {
            assert(out@.take(k as int) =~= out@);
        }
        res
    }

    /// Depth-first visit of `node` recording back edges.
    fn dfs_mark_cyclic(
        &self,
        node: ClaimArenaId,
        visited: &mut Vec<ClaimArenaId>,
        path: &mut Vec<ClaimArenaId>,
        cyclic: &mut Vec<usize>,
        Ghost(nodes): Ghost<Seq<u32>>,
        Ghost(fuel): Ghost<nat>,
    )
        requires
            nodes == graph_nodes(self@, self@.len() as int),
            old(path)@.no_duplicates(),
            forall|i: int| 0 <= i < old(path)@.len() ==> nodes.contains(#[trigger] old(path)@[i]),
            nodes.contains(node),
            !old(path)@.contains(node),
            fuel + old(path)@.len() == nodes.len(),
        ensures
            (final(visited)@, final(path)@, final(cyclic)@) == mark_visit(
                self@,
                node,
                (old(visited)@, old(path)@, old(cyclic)@),
                fuel,
            ),
            final(path)@ == old(path)@,
        decreases fuel,
    {
        let ghost edges = self@;
        proof {
            lemma_graph_nodes(edges, edges.len() as int);
            let p1 = old(path)@.push(node);
            assert forall|a: int, b: int| 0 <= a < b < p1.len() implies p1[a] != p1[b] by {
                if b == p1.len() - 1 {
                    assert(p1[a] == old(path)@[a]);
                }
            }
            assert forall|i: int| 0 <= i < p1.len() implies nodes.contains(#[trigger] p1[i]) by {
                if i < old(path)@.len() {
                    assert(p1[i] == old(path)@[i]);
                }
            }
            lemma_nodup_len_bound(p1, nodes);
        }
        visited.push(node);
        path.push(node);
        let list = self.sorted_out_edges(node);
        proof {
            lemma_sorted_out_valid(edges, node);
        }
        let ghost st1 = (visited@, path@, cyclic@);
        let ghost f1: nat = (fuel - 1) as nat;
        proof {
            assert forall|i: int| 0 <= i < edges.len() implies nodes.contains(
                #[trigger] edges[i].to,
            ) by {
                assert(nodes.contains(edges[i].from));
            }
        }
        let all = self.edges();
        let mut p: usize = 0;
        while p < list.len()
            invariant
                edges == self@,
                all@ == edges,
                nodes == graph_nodes(edges, edges.len() as int),
                list@ == sorted_out(edges, node),
                forall|i: int| 0 <= i < list@.len() ==> (#[trigger] list@[i]) < edges.len(),
                forall|i: int| 0 <= i < edges.len() ==> nodes.contains(#[trigger] edges[i].to),
                f1 + 1 == fuel,
                p <= list@.len(),
                path@ == st1.1,
                path@.no_duplicates(),
                forall|i: int| 0 <= i < path@.len() ==> nodes.contains(#[trigger] path@[i]),
                f1 + path@.len() == nodes.len(),
                mark_edges(edges, list@, 0, st1, f1) == mark_edges(
                    edges,
                    list@,
                    p as int,
                    (visited@, path@, cyclic@),
                    f1,
                ),
            decreases list@.len() - p,
        {
            let idx = list[p];
            let e = all[idx];
            if relation_is_support(e.relation) {
                if vec_contains(path, e.to) {
                    cyclic.push(idx);
                } else if !vec_contains(visited, e.to) {
                    self.dfs_mark_cyclic(e.to, visited, path, cyclic, Ghost(nodes), Ghost(f1));
                }
            }
            p = p + 1;
        }
        path.pop();
        proof {
            assert(st1.1.drop_last() =~= old(path)@);
        }
    }

    /// Depth-first visit of `node` recording the cycles it closes.
    fn dfs_cycles(
        &self,
        node: ClaimArenaId,
        visited: &mut Vec<ClaimArenaId>,
        path: &mut Vec<ClaimArenaId>,
        cycles: &mut Vec<Vec<ClaimArenaId>>,
        Ghost(nodes): Ghost<Seq<u32>>,
        Ghost(fuel): Ghost<nat>,
    )
        requires
            nodes == graph_nodes(self@, self@.len() as int),
            old(path)@.no_duplicates(),
            forall|i: int| 0 <= i < old(path)@.len() ==> nodes.contains(#[trigger] old(path)@[i]),
            nodes.contains(node),
            !old(path)@.contains(node),
            fuel + old(path)@.len() == nodes.len(),
        ensures
            (final(visited)@, final(path)@, views(final(cycles)@)) == cycle_visit(
                self@,
                node,
                (old(visited)@, old(path)@, views(old(cycles)@)),
                fuel,
            ),
            final(path)@ == old(path)@,
        decreases fuel,
    {
        let ghost edges = self@;
        proof {
            lemma_graph_nodes(edges, edges.len() as int);
            let p1 = old(path)@.push(node);
            assert forall|a: int, b: int| 0 <= a < b < p1.len() implies p1[a] != p1[b] by {
                if b == p1.len() - 1 {
                    assert(p1[a] == old(path)@[a]);
                }
            }
            assert forall|i: int| 0 <= i < p1.len() implies nodes.contains(#[trigger] p1[i]) by {
                if i < old(path)@.len() {
                    assert(p1[i] == old(path)@[i]);
                }
            }
            lemma_nodup_len_bound(p1, nodes);
        }
        visited.push(node);
        path.push(node);
        let list = self.sorted_out_edges(node);
        proof {
            lemma_sorted_out_valid(edges, node);
        }
        let ghost st1 = (visited@, path@, views(cycles@));
        let ghost f1: nat = (fuel - 1) as nat;
        proof {
            assert forall|i: int| 0 <= i < edges.len() implies nodes.contains(
                #[trigger] edges[i].to,
            ) by {
                assert(nodes.contains(edges[i].from));
            }
        }
        let all = self.edges();
        let mut p: usize = 0;
        while p < list.len()
            invariant
                edges == self@,
                all@ == edges,
                nodes == graph_nodes(edges, edges.len() as int),
                list@ == sorted_out(edges, node),
                forall|i: int| 0 <= i < list@.len() ==> (#[trigger] list@[i]) < edges.len(),
                forall|i: int| 0 <= i < edges.len() ==> nodes.contains(#[trigger] edges[i].to),
                f1 + 1 == fuel,
                p <= list@.len(),
                path@ == st1.1,
                path@.no_duplicates(),
                forall|i: int| 0 <= i < path@.len() ==> nodes.contains(#[trigger] path@[i]),
                f1 + path@.len() == nodes.len(),
                cycle_edges(edges, list@, 0, st1, f1) == cycle_edges(
                    edges,
                    list@,
                    p as int,
                    (visited@, path@, views(cycles@)),
                    f1,
                ),
            decreases list@.len() - p,
        {
            let idx = list[p];
            let e = all[idx];
            if relation_is_support(e.relation) {
                if vec_contains(path, e.to) {
                    let pos = position_of(path, e.to);
                    let c = copy_from(path, pos);
                    let ghost before = cycles@;
                    cycles.push(c);
                    proof {
                        assert(views(cycles@) =~= views(before).push(path@.skip(pos as int)));
                    }
                } else if !vec_contains(visited, e.to) {
                    self.dfs_cycles(e.to, visited, path, cycles, Ghost(nodes), Ghost(f1));
                }
            }
            p = p + 1;
        }
        path.pop();
        proof {
            assert(st1.1.drop_last() =~= old(path)@);
        }
    }

    /// Identify the edges that close cycles of support edges (back edges of
    /// a depth-first search from the claims in ascending order, following
    /// outgoing edges in ascending order of target). These edges are
    /// excluded from trust propagation.
    pub fn cyclic_edge_indices(&self) -> (r: HashSet<usize>)
        ensures
            r@ == cyclic_edges(self@).to_set(),
    {
        let nodes = self.all_nodes();
        let ghost edges = self@;
        let mut visited: Vec<ClaimArenaId> = Vec::new();
        let mut path: Vec<ClaimArenaId> = Vec::new();
        let mut cyclic: Vec<usize> = Vec::new();
        let mut k: usize = 0;
        proof {
            lemma_graph_nodes(edges, edges.len() as int);
        }
        while k < nodes.len()
            invariant
                edges == self@,
                nodes@ == graph_nodes(edges, edges.len() as int),
                k <= nodes@.len(),
                path@ == Seq::<u32>::empty(),
                (visited@, path@, cyclic@) == mark_all(edges, nodes@, k as int),
            decreases nodes@.len() - k,
        {
            let n = nodes[k];
            if !vec_contains(&visited, n) {
                proof {
                    assert(nodes@.contains(nodes@[k as int]));
                }
                self.dfs_mark_cyclic(
                    n,
                    &mut visited,
                    &mut path,
                    &mut cyclic,
                    Ghost(nodes@),
                    Ghost(nodes@.len()),
                );
            }
            k = k + 1;
        }
        let mut r: HashSet<usize> = HashSet::new();
        let mut i: usize = 0;
        while i < cyclic.len()
            invariant
                i <= cyclic@.len(),
                cyclic@ == cyclic_edges(edges),
                r@ == cyclic@.take(i as int).to_set(),
            decreases cyclic@.len() - i,
        {
            proof {
                broadcast use vstd::std_specs::hash::group_hash_axioms;
            }
            r.insert(cyclic[i]);
            proof {
                assert(cyclic@.take(i + 1) =~= cyclic@.take(i as int).push(cyclic@[i as int]));
                assert(r@ =~= cyclic@.take(i + 1).to_set()) by {
                    broadcast use vstd::seq_lib::group_seq_properties;
                }
            }
            i = i + 1;
        }
        proof {
            assert(cyclic@.take(i as int) =~= cyclic@);
        }
        r
    }

    /// All cycles of support edges, each listed as the part of the search
    /// path from the repeated claim on (search order as for
    /// `cyclic_edge_indices`).
    pub fn detect_cycles(&self) -> (r: Vec<Vec<ClaimArenaId>>)
        ensures
            views(r@) == graph_cycles(self@),
    {
        let nodes = self.all_nodes();
        let ghost edges = self@;
        let mut visited: Vec<ClaimArenaId> = Vec::new();
        let mut path: Vec<ClaimArenaId> = Vec::new();
        let mut cycles: Vec<Vec<ClaimArenaId>> = Vec::new();
        let mut k: usize = 0;
        proof {
            lemma_graph_nodes(edges, edges.len() as int);
            assert(views(cycles@) =~= Seq::<Seq<u32>>::empty());
        }
        while k < nodes.len()
            invariant
                edges == self@,
                nodes@ == graph_nodes(edges, edges.len() as int),
                k <= nodes@.len(),
                path@ == Seq::<u32>::empty(),
                (visited@, path@, views(cycles@)) == cycle_all(edges, nodes@, k as int),
            decreases nodes@.len() - k,
        {
            let n = nodes[k];
            if !vec_contains(&visited, n) {
                proof {
                    assert(nodes@.contains(nodes@[k as int]));
                }
                self.dfs_cycles(
                    n,
                    &mut visited,
                    &mut path,
                    &mut cycles,
                    Ghost(nodes@),
                    Ghost(nodes@.len()),
                );
            }
            k = k + 1;
        }
        cycles
    }
}

} // verus!
