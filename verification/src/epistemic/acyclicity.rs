//! The back edges that the cycle search marks are exactly what keeps the
//! support edges from being acyclic: with them removed, no cycle of
//! support edges is left.
use vstd::prelude::*;
use crate::epistemic::claim::{is_support, EpistemicEdge};
use crate::epistemic::cycles::{
    cyclic_edges, graph_nodes, lemma_graph_nodes, lemma_out_list_valid, mark_all, mark_edges,
    mark_visit, out_list, sorted_out, target_before, MarkState,
};
use crate::epistemic::graph::lemma_nodup_len_bound;
use crate::ordering::lemma_sort_multiset;

verus! {

/// The back-edge search, also listing the claims in the order their visit
/// ends: visited claims, current path, back edges, finished claims.
pub type SearchState = (Seq<u32>, Seq<u32>, Seq<usize>, Seq<u32>);

pub open spec fn marks(st: SearchState) -> MarkState {
    (st.0, st.1, st.2)
}

pub open spec fn search_visit(edges: Seq<EpistemicEdge>, node: u32, st: SearchState, fuel: nat) -> SearchState
    decreases fuel, 0int, 0int,
{
    if fuel == 0 {
        st
    } else {
        let st1 = (st.0.push(node), st.1.push(node), st.2, st.3);
        let st2 = search_edges(edges, sorted_out(edges, node), 0, st1, (fuel - 1) as nat);
        (st2.0, st2.1.drop_last(), st2.2, st2.3.push(node))
    }
}

pub open spec fn search_edges(
    edges: Seq<EpistemicEdge>,
    list: Seq<usize>,
    pos: int,
    st: SearchState,
    fuel: nat,
) -> SearchState
    decreases fuel, 1int, list.len() - pos,
{
    if pos < 0 || pos >= list.len() {
        st
    } else {
        let idx = list[pos];
        let e = edges[idx as int];
        let next = if !is_support(e.relation) {
            st
        } else if st.1.contains(e.to) {
            (st.0, st.1, st.2.push(idx), st.3)
        } else if !st.0.contains(e.to) {
            search_visit(edges, e.to, st, fuel)
        } else {
            st
        };
        search_edges(edges, list, pos + 1, next, fuel)
    }
}

pub open spec fn search_all(edges: Seq<EpistemicEdge>, nodes: Seq<u32>, k: int) -> SearchState
    decreases k,
{
    if k <= 0 {
        (Seq::empty(), Seq::empty(), Seq::empty(), Seq::empty())
    } else {
        let st = search_all(edges, nodes, k - 1);
        if st.0.contains(nodes[k - 1]) {
            st
        } else {
            search_visit(edges, nodes[k - 1], st, nodes.len())
        }
    }
}

proof fn lemma_search_visit_marks(edges: Seq<EpistemicEdge>, node: u32, st: SearchState, fuel: nat)
    ensures
        marks(search_visit(edges, node, st, fuel)) == mark_visit(edges, node, marks(st), fuel),
    decreases fuel, 0int, 0int,
{
    if fuel > 0 {
        let st1 = (st.0.push(node), st.1.push(node), st.2, st.3);
        lemma_search_edges_marks(edges, sorted_out(edges, node), 0, st1, (fuel - 1) as nat);
    }
}

proof fn lemma_search_edges_marks(
    edges: Seq<EpistemicEdge>,
    list: Seq<usize>,
    pos: int,
    st: SearchState,
    fuel: nat,
)
    ensures
        marks(search_edges(edges, list, pos, st, fuel)) == mark_edges(edges, list, pos, marks(st), fuel),
    decreases fuel, 1int, list.len() - pos,
{
    if 0 <= pos < list.len() {
        let idx = list[pos];
        let e = edges[idx as int];
        if is_support(e.relation) && !st.1.contains(e.to) && !st.0.contains(e.to) {
            lemma_search_visit_marks(edges, e.to, st, fuel);
        }
        let next = if !is_support(e.relation) {
            st
        } else if st.1.contains(e.to) {
            (st.0, st.1, st.2.push(idx), st.3)
        } else if !st.0.contains(e.to) {
            search_visit(edges, e.to, st, fuel)
        } else {
            st
        };
        lemma_search_edges_marks(edges, list, pos + 1, next, fuel);
    }
}

proof fn lemma_search_all_marks(edges: Seq<EpistemicEdge>, nodes: Seq<u32>, k: int)
    ensures
        marks(search_all(edges, nodes, k)) == mark_all(edges, nodes, k),
    decreases k,
{
    if k > 0 {
        lemma_search_all_marks(edges, nodes, k - 1);
        lemma_search_visit_marks(edges, nodes[k - 1], search_all(edges, nodes, k - 1), nodes.len());
    }
}

/// `b` starts with `a`.
pub open spec fn extends(a: Seq<u32>, b: Seq<u32>) -> bool {
    a.len() <= b.len() && forall|i: int| 0 <= i < a.len() ==> #[trigger] b[i] == a[i]
}

/// Support edge `i` out of a finished claim is a back edge, or ends at a
/// claim that finished earlier.
pub open spec fn settled(edges: Seq<EpistemicEdge>, m: Seq<usize>, f: Seq<u32>, i: int) -> bool {
    m.contains(i as usize) || (f.contains(edges[i].to) && f.index_of(edges[i].to) < f.index_of(
        edges[i].from,
    ))
}

/// What the search keeps true: the path and the finished claims are
/// duplicate-free and split the visited claims between them, visited claims
/// are claims of the graph, and every support edge out of a finished claim
/// is settled.
pub open spec fn search_inv(edges: Seq<EpistemicEdge>, nodes: Seq<u32>, st: SearchState) -> bool {
    &&& st.1.no_duplicates()
    &&& st.3.no_duplicates()
    &&& forall|x: u32| #[trigger] st.0.contains(x) <==> (st.1.contains(x) || st.3.contains(x))
    &&& forall|x: u32| #[trigger] st.1.contains(x) ==> !st.3.contains(x)
    &&& forall|x: u32| #[trigger] st.0.contains(x) ==> nodes.contains(x)
    &&& forall|i: int|
        0 <= i < edges.len() && is_support(edges[i].relation) && #[trigger] st.3.contains(edges[i].from)
            ==> settled(edges, st.2, st.3, i)
    &&& forall|j: int| 0 <= j < st.1.len() - 1 ==> #[trigger] path_link(edges, st.1, j)
    &&& forall|k: int| 0 <= k < st.2.len() ==> #[trigger] on_cycle(edges, st.2[k])
}

/// A support edge joins `from` to `to`.
pub open spec fn support_edge(edges: Seq<EpistemicEdge>, w: int, from: u32, to: u32) -> bool {
    0 <= w < edges.len() && is_support(edges[w].relation) && edges[w].from == from && edges[w].to == to
}

/// A support edge joins the path's claim `j` to its claim `j + 1`.
pub open spec fn path_link(edges: Seq<EpistemicEdge>, p: Seq<u32>, j: int) -> bool {
    exists|w: int| #[trigger] support_edge(edges, w, p[j], p[j + 1])
}

/// Edge `i` lies on a cycle of support edges.
pub open spec fn on_cycle(edges: Seq<EpistemicEdge>, i: usize) -> bool {
    exists|c: Seq<usize>| #[trigger] support_cycle(edges, c, Seq::empty()) && c.contains(i)
}

/// Every edge ends at a claim of `nodes`.
pub open spec fn ends_in(edges: Seq<EpistemicEdge>, nodes: Seq<u32>) -> bool {
    forall|i: int| 0 <= i < edges.len() ==> nodes.contains(#[trigger] edges[i].to)
}

proof fn lemma_index_of_extends(f: Seq<u32>, g: Seq<u32>, x: u32)
    requires
        g.no_duplicates(),
        extends(f, g),
        f.contains(x),
    ensures
        g.contains(x),
        g.index_of(x) == f.index_of(x),
{
    let i = choose|i: int| 0 <= i < f.len() && f[i] == x;
    assert(f[f.index_of(x)] == x);
    assert(g[f.index_of(x)] == x);
    assert(g[g.index_of(x)] == x);
}

proof fn lemma_settled_extends(
    edges: Seq<EpistemicEdge>,
    m: Seq<usize>,
    f: Seq<u32>,
    m2: Seq<usize>,
    f2: Seq<u32>,
    i: int,
)
    requires
        f2.no_duplicates(),
        extends(f, f2),
        forall|j: usize| m.contains(j) ==> #[trigger] m2.contains(j),
        settled(edges, m, f, i),
        f.contains(edges[i].from),
    ensures
        settled(edges, m2, f2, i),
{
    if !m.contains(i as usize) {
        lemma_index_of_extends(f, f2, edges[i].to);
        lemma_index_of_extends(f, f2, edges[i].from);
    }
}

proof fn lemma_out_list_complete(edges: Seq<EpistemicEdge>, node: u32, n: int, i: int)
    requires
        0 <= i < n <= edges.len(),
        edges[i].from == node,
    ensures
        out_list(edges, node, n).contains(i as usize),
    decreases n,
{
    if i < n - 1 {
        lemma_out_list_complete(edges, node, n - 1, i);
        let l0 = out_list(edges, node, n - 1);
        let k = choose|k: int| 0 <= k < l0.len() && l0[k] == i as usize;
        if edges[n - 1].from == node {
            assert(out_list(edges, node, n)[k] == i as usize);
        }
    } else {
        let l = out_list(edges, node, n);
        assert(l[l.len() - 1] == i as usize);
    }
}

proof fn lemma_sorted_out_complete(edges: Seq<EpistemicEdge>, node: u32, i: int)
    requires
        0 <= i < edges.len(),
        edges[i].from == node,
    ensures
        sorted_out(edges, node).contains(i as usize),
{
    broadcast use vstd::seq_lib::group_to_multiset_ensures;

    let l = out_list(edges, node, edges.len() as int);
    lemma_out_list_complete(edges, node, edges.len() as int, i);
    lemma_sort_multiset(l, target_before(edges));
    assert(l.to_multiset().count(i as usize) > 0);
    assert(sorted_out(edges, node).to_multiset().count(i as usize) > 0);
}

proof fn lemma_out_list_from(edges: Seq<EpistemicEdge>, node: u32, n: int)
    requires
        0 <= n <= edges.len(),
        edges.len() <= usize::MAX,
    ensures
        forall|k: int|
            0 <= k < out_list(edges, node, n).len() ==> edges[#[trigger] out_list(edges, node, n)[k] as int].from
                == node,
    decreases n,
{
    if n > 0 {
        lemma_out_list_from(edges, node, n - 1);
        let prev = out_list(edges, node, n - 1);
        let cur = out_list(edges, node, n);
        assert forall|k: int| 0 <= k < cur.len() implies edges[#[trigger] cur[k] as int].from == node by {
            if k < prev.len() {
                assert(cur[k] == prev[k]);
            } else {
                assert(cur[k] as int == n - 1);
            }
        }
    }
}

proof fn lemma_sorted_out_from(edges: Seq<EpistemicEdge>, node: u32)
    requires
        edges.len() <= usize::MAX,
    ensures
        forall|k: int|
            0 <= k < sorted_out(edges, node).len() ==> edges[#[trigger] sorted_out(edges, node)[k] as int].from
                == node,
{
    broadcast use vstd::seq_lib::group_to_multiset_ensures;

    let l = out_list(edges, node, edges.len() as int);
    let so = sorted_out(edges, node);
    lemma_out_list_from(edges, node, edges.len() as int);
    lemma_sort_multiset(l, target_before(edges));
    assert forall|k: int| 0 <= k < so.len() implies edges[#[trigger] so[k] as int].from == node by {
        assert(so.to_multiset().count(so[k]) > 0);
        assert(l.contains(so[k]));
        let j = choose|j: int| 0 <= j < l.len() && l[j] == so[k];
    }
}

/// The tree edge the path uses from its claim `j` to its claim `j + 1`.
pub open spec fn tree_edge(edges: Seq<EpistemicEdge>, p: Seq<u32>, j: int) -> int {
    choose|w: int| #[trigger] support_edge(edges, w, p[j], p[j + 1])
}

/// A back edge from the end of the path to a claim on it closes a cycle:
/// the tree edges from that claim to the end, then the back edge.
proof fn lemma_back_edge_cycle(edges: Seq<EpistemicEdge>, p: Seq<u32>, idx: usize)
    requires
        edges.len() <= usize::MAX,
        (idx as int) < edges.len(),
        is_support(edges[idx as int].relation),
        p.len() >= 1,
        edges[idx as int].from == p.last(),
        p.contains(edges[idx as int].to),
        forall|j: int| 0 <= j < p.len() - 1 ==> #[trigger] path_link(edges, p, j),
    ensures
        on_cycle(edges, idx),
{
    let e = edges[idx as int];
    let j0 = choose|j: int| 0 <= j < p.len() && p[j] == e.to;
    let len = p.len() - 1 - j0;
    let tree = Seq::new(len as nat, |t: int| tree_edge(edges, p, j0 + t) as usize);
    let c = tree.push(idx);
    assert forall|t: int| 0 <= t < len implies support_edge(edges, (#[trigger] tree[t]) as int, p[j0 + t], p[j0 + t + 1]) by {
        assert(path_link(edges, p, j0 + t));
        assert(support_edge(edges, tree_edge(edges, p, j0 + t), p[j0 + t], p[j0 + t + 1]));
    }
    assert forall|t: int|
        0 <= t < c.len() implies (#[trigger] c[t]) < edges.len() && is_support(edges[c[t] as int].relation)
            && !Seq::<usize>::empty().contains(c[t]) by {
        if t < len {
            assert(c[t] == tree[t]);
            assert(support_edge(edges, tree[t] as int, p[j0 + t], p[j0 + t + 1]));
        }
    }
    assert forall|t: int| 0 <= t < c.len() - 1 implies #[trigger] linked(edges, c, t) by {
        assert(c[t] == tree[t]);
        assert(support_edge(edges, tree[t] as int, p[j0 + t], p[j0 + t + 1]));
        if t + 1 < len {
            assert(c[t + 1] == tree[t + 1]);
            assert(support_edge(edges, tree[t + 1] as int, p[j0 + t + 1], p[j0 + t + 2]));
        } else {
            assert(c[t + 1] == idx);
            assert(j0 + t + 1 == p.len() - 1);
        }
    }
    if len > 0 {
        assert(c[0] == tree[0]);
        assert(support_edge(edges, tree[0] as int, p[j0], p[j0 + 1]));
    } else {
        assert(j0 == p.len() - 1);
        assert(c[0] == idx);
    }
    assert(c[c.len() - 1] == idx);
    assert(support_cycle(edges, c, Seq::empty()));
    assert(c.contains(idx)) by {
        assert(c[c.len() - 1] == idx);
    }
}

proof fn lemma_visit_inv(
    edges: Seq<EpistemicEdge>,
    nodes: Seq<u32>,
    node: u32,
    st: SearchState,
    fuel: nat,
    link: int,
)
    requires
        edges.len() <= usize::MAX,
        st.1.len() > 0 ==> support_edge(edges, link, st.1.last(), node),
        nodes.no_duplicates(),
        ends_in(edges, nodes),
        search_inv(edges, nodes, st),
        !st.0.contains(node),
        nodes.contains(node),
        st.1.len() + fuel >= nodes.len(),
    ensures
        ({
            let r = search_visit(edges, node, st, fuel);
            &&& search_inv(edges, nodes, r)
            &&& r.1 == st.1
            &&& forall|x: u32| st.0.contains(x) ==> #[trigger] r.0.contains(x)
            &&& extends(st.3, r.3)
            &&& r.3.contains(node)
            &&& forall|j: usize| st.2.contains(j) ==> #[trigger] r.2.contains(j)
        }),
    decreases fuel, 0int, 0int,
{
    assert(st.1.push(node).no_duplicates()) by {
        assert forall|a: int, b: int| 0 <= a < b < st.1.push(node).len() implies st.1.push(node)[a]
            != st.1.push(node)[b] by {
            if b == st.1.len() {
                assert(st.1.contains(st.1[a]));
            }
        }
    }
    assert forall|i: int| 0 <= i < st.1.push(node).len() implies nodes.contains(#[trigger] st.1.push(node)[i]) by {
        if i < st.1.len() {
            assert(st.1.contains(st.1[i]));
            assert(st.0.contains(st.1[i]));
        }
    }
    lemma_nodup_len_bound(st.1.push(node), nodes);
    let st1 = (st.0.push(node), st.1.push(node), st.2, st.3);
    assert(search_inv(edges, nodes, st1)) by {
        assert forall|j: int| 0 <= j < st1.1.len() - 1 implies #[trigger] path_link(edges, st1.1, j) by {
            if j < st.1.len() - 1 {
                assert(path_link(edges, st.1, j));
                let w = choose|w: int| #[trigger] support_edge(edges, w, st.1[j], st.1[j + 1]);
                assert(support_edge(edges, w, st1.1[j], st1.1[j + 1]));
            } else {
                assert(support_edge(edges, link, st1.1[j], st1.1[j + 1]));
            }
        }
        assert forall|x: u32| #[trigger] st1.0.contains(x) <==> (st1.1.contains(x) || st1.3.contains(x)) by {
            if st.0.contains(x) {
                let k0 = choose|k: int| 0 <= k < st.0.len() && st.0[k] == x;
                assert(st1.0[k0] == x);
                assert(st1.0.contains(x));
                if st.1.contains(x) {
                    let k = choose|k: int| 0 <= k < st.1.len() && st.1[k] == x;
                    assert(st1.1[k] == x);
                }
            }
            if st1.0.contains(x) && x != node {
                let k = choose|k: int| 0 <= k < st1.0.len() && st1.0[k] == x;
                assert(st.0[k] == x);
            }
            if st1.1.contains(x) && x != node {
                let k = choose|k: int| 0 <= k < st1.1.len() && st1.1[k] == x;
                assert(st.1[k] == x);
                assert(st.1.contains(x));
            }
            assert(st1.0[st.0.len() as int] == node);
            assert(st1.1[st.1.len() as int] == node);
        }
        assert forall|x: u32| #[trigger] st1.1.contains(x) implies !st1.3.contains(x) by {
            if x != node {
                let k = choose|k: int| 0 <= k < st1.1.len() && st1.1[k] == x;
                assert(st.1[k] == x);
                assert(st.1.contains(x));
            }
        }
        assert forall|x: u32| #[trigger] st1.0.contains(x) implies nodes.contains(x) by {
            if x != node {
                let k = choose|k: int| 0 <= k < st1.0.len() && st1.0[k] == x;
                assert(st.0[k] == x);
                assert(st.0.contains(x));
            }
        }
    }
    let list = sorted_out(edges, node);
    crate::epistemic::cycles::lemma_sorted_out_valid(edges, node);
    lemma_sorted_out_from(edges, node);
    assert(st1.1.len() + (fuel - 1) >= nodes.len());
    lemma_edges_inv(edges, nodes, list, 0, st1, (fuel - 1) as nat, node);
    let st2 = search_edges(edges, list, 0, st1, (fuel - 1) as nat);
    let r = search_visit(edges, node, st, fuel);
    assert(r == (st2.0, st2.1.drop_last(), st2.2, st2.3.push(node)));
    assert(st2.1 == st.1.push(node));
    assert(st2.1.drop_last() =~= st.1);
    assert(st2.1.contains(node)) by {
        assert(st2.1[st.1.len() as int] == node);
    }
    assert(!st2.3.contains(node));
    let f2 = st2.3;
    let f3 = f2.push(node);
    assert(f3.no_duplicates()) by {
        assert forall|a: int, b: int| 0 <= a < b < f3.len() implies f3[a] != f3[b] by {
            if b == f2.len() {
                assert(f2.contains(f2[a]));
            }
        }
    }
    assert(extends(f2, f3));
    assert(extends(st.3, f3)) by {
        assert forall|i: int| 0 <= i < st.3.len() implies #[trigger] f3[i] == st.3[i] by {
            assert(f2[i] == st.3[i]);
        }
    }
    assert(f3.contains(node)) by {
        assert(f3[f2.len() as int] == node);
    }
    assert forall|i: int|
        0 <= i < edges.len() && is_support(edges[i].relation) && #[trigger] f3.contains(edges[i].from)
            implies settled(edges, st2.2, f3, i) by {
        if f2.contains(edges[i].from) {
            lemma_settled_extends(edges, st2.2, f2, st2.2, f3, i);
        } else {
            let k = choose|k: int| 0 <= k < f3.len() && f3[k] == edges[i].from;
            assert(edges[i].from == node);
            lemma_sorted_out_complete(edges, node, i);
            let p = choose|p: int| 0 <= p < list.len() && list[p] == i as usize;
            assert(list[p] as int == i);
            assert(st2.2.contains(list[p]) || st2.3.contains(edges[list[p] as int].to));
            if !st2.2.contains(i as usize) {
                lemma_index_of_extends(f2, f3, edges[i].to);
                assert(f3[f3.index_of(node)] == node);
                assert(f3.index_of(node) == f2.len()) by {
                    if f3.index_of(node) < f2.len() {
                        assert(f2[f3.index_of(node)] == node);
                        assert(f2.contains(node));
                    }
                }
                assert(f2[f2.index_of(edges[i].to)] == edges[i].to);
            }
        }
    }
    assert(search_inv(edges, nodes, r)) by {
        assert forall|x: u32| #[trigger] r.0.contains(x) <==> (r.1.contains(x) || r.3.contains(x)) by {
            assert(st2.0.contains(x) <==> (st2.1.contains(x) || st2.3.contains(x)));
            if st2.1.contains(x) && x != node {
                let k = choose|k: int| 0 <= k < st2.1.len() && st2.1[k] == x;
                assert(k < st.1.len());
                assert(r.1[k] == x);
            }
            if r.1.contains(x) {
                let k = choose|k: int| 0 <= k < r.1.len() && r.1[k] == x;
                assert(st2.1[k] == x);
            }
            if st2.3.contains(x) {
                let k = choose|k: int| 0 <= k < st2.3.len() && st2.3[k] == x;
                assert(f3[k] == x);
            }
            if r.3.contains(x) && x != node {
                let k = choose|k: int| 0 <= k < f3.len() && f3[k] == x;
                assert(f2[k] == x);
            }
        }
        assert forall|x: u32| #[trigger] r.1.contains(x) implies !r.3.contains(x) by {
            let k = choose|k: int| 0 <= k < r.1.len() && r.1[k] == x;
            assert(st2.1[k] == x);
            assert(st2.1.contains(x));
            assert(!f2.contains(x));
            assert(x != node) by {
                assert(st.1[k] == x);
                assert(st.1.contains(x));
            }
            if f3.contains(x) {
                let j = choose|j: int| 0 <= j < f3.len() && f3[j] == x;
                assert(f2[j] == x);
            }
        }
        assert forall|x: u32| #[trigger] r.0.contains(x) implies nodes.contains(x) by {
            assert(st2.0.contains(x));
        }
    }
    assert forall|x: u32| st.0.contains(x) implies #[trigger] r.0.contains(x) by {
        let k = choose|k: int| 0 <= k < st.0.len() && st.0[k] == x;
        assert(st1.0[k] == x);
        assert(st1.0.contains(x));
    }
}

proof fn lemma_edges_inv(
    edges: Seq<EpistemicEdge>,
    nodes: Seq<u32>,
    list: Seq<usize>,
    pos: int,
    st: SearchState,
    fuel: nat,
    u: u32,
)
    requires
        edges.len() <= usize::MAX,
        nodes.no_duplicates(),
        ends_in(edges, nodes),
        search_inv(edges, nodes, st),
        st.1.len() + fuel >= nodes.len(),
        forall|k: int| 0 <= k < list.len() ==> #[trigger] list[k] < edges.len(),
        forall|k: int| 0 <= k < list.len() ==> edges[#[trigger] list[k] as int].from == u,
        st.1.len() >= 1,
        st.1.last() == u,
        0 <= pos,
    ensures
        ({
            let r = search_edges(edges, list, pos, st, fuel);
            &&& search_inv(edges, nodes, r)
            &&& r.1 == st.1
            &&& forall|x: u32| st.0.contains(x) ==> #[trigger] r.0.contains(x)
            &&& extends(st.3, r.3)
            &&& forall|j: usize| st.2.contains(j) ==> #[trigger] r.2.contains(j)
            &&& forall|k: int|
                pos <= k < list.len() && is_support(edges[list[k] as int].relation) ==> (#[trigger] r.2.contains(
                    list[k],
                ) || r.3.contains(edges[list[k] as int].to))
        }),
    decreases fuel, 1int, list.len() - pos,
{
    if pos < list.len() {
        let idx = list[pos];
        let e = edges[idx as int];
        let next = if !is_support(e.relation) {
            st
        } else if st.1.contains(e.to) {
            (st.0, st.1, st.2.push(idx), st.3)
        } else if !st.0.contains(e.to) {
            search_visit(edges, e.to, st, fuel)
        } else {
            st
        };
        if is_support(e.relation) && !st.1.contains(e.to) && !st.0.contains(e.to) {
            assert(nodes.contains(edges[idx as int].to));
            assert(edges[list[pos] as int].from == u);
            lemma_visit_inv(edges, nodes, e.to, st, fuel, idx as int);
        }
        if is_support(e.relation) && st.1.contains(e.to) {
            assert(edges[list[pos] as int].from == u);
            lemma_back_edge_cycle(edges, st.1, idx);
            assert(search_inv(edges, nodes, next)) by {
                assert forall|k: int| 0 <= k < next.2.len() implies #[trigger] on_cycle(edges, next.2[k]) by {
                    if k < st.2.len() {
                        assert(next.2[k] == st.2[k]);
                    }
                }
                assert forall|i: int|
                    0 <= i < edges.len() && is_support(edges[i].relation) && #[trigger] next.3.contains(edges[i].from)
                        implies settled(edges, next.2, next.3, i) by {
                    assert(settled(edges, st.2, st.3, i));
                    if st.2.contains(i as usize) {
                        let k = choose|k: int| 0 <= k < st.2.len() && st.2[k] == i as usize;
                        assert(next.2[k] == i as usize);
                    }
                }
            }
            assert(next.2[st.2.len() as int] == idx);
            assert forall|j: usize| st.2.contains(j) implies #[trigger] next.2.contains(j) by {
                let k = choose|k: int| 0 <= k < st.2.len() && st.2[k] == j;
                assert(next.2[k] == j);
            }
        }
        assert(extends(st.3, next.3));
        assert(forall|j: usize| st.2.contains(j) ==> #[trigger] next.2.contains(j));
        assert(is_support(e.relation) ==> next.2.contains(idx) || next.3.contains(e.to)) by {
            if is_support(e.relation) && !st.1.contains(e.to) && st.0.contains(e.to) {
                assert(st.3.contains(e.to));
            }
        }
        lemma_edges_inv(edges, nodes, list, pos + 1, next, fuel, u);
        let r = search_edges(edges, list, pos, st, fuel);
        assert(r == search_edges(edges, list, pos + 1, next, fuel));
        assert(extends(st.3, r.3)) by {
            assert forall|i: int| 0 <= i < st.3.len() implies #[trigger] r.3[i] == st.3[i] by {
                assert(next.3[i] == st.3[i]);
            }
        }
        assert forall|k: int|
            pos <= k < list.len() && is_support(edges[list[k] as int].relation) implies (#[trigger] r.2.contains(
                list[k],
            ) || r.3.contains(edges[list[k] as int].to)) by {
            if k == pos {
                if next.2.contains(idx) {
                    assert(r.2.contains(idx));
                } else {
                    assert(next.3.contains(e.to));
                    let j = choose|j: int| 0 <= j < next.3.len() && next.3[j] == e.to;
                    assert(r.3[j] == e.to);
                }
            }
        }
    }
}

proof fn lemma_all_inv(edges: Seq<EpistemicEdge>, nodes: Seq<u32>, k: int)
    requires
        edges.len() <= usize::MAX,
        nodes.no_duplicates(),
        ends_in(edges, nodes),
        0 <= k <= nodes.len(),
    ensures
        search_inv(edges, nodes, search_all(edges, nodes, k)),
        search_all(edges, nodes, k).1.len() == 0,
        forall|j: int| 0 <= j < k ==> search_all(edges, nodes, k).0.contains(#[trigger] nodes[j]),
    decreases k,
{
    if k > 0 {
        lemma_all_inv(edges, nodes, k - 1);
        let st = search_all(edges, nodes, k - 1);
        if !st.0.contains(nodes[k - 1]) {
            lemma_visit_inv(edges, nodes, nodes[k - 1], st, nodes.len(), 0);
        }
    }
}

/// A cycle of support edges none of which is in `removed`: edge indices
/// `c`, each a support edge, each ending where the next begins and the
/// last where the first begins.
pub open spec fn support_cycle(edges: Seq<EpistemicEdge>, c: Seq<usize>, removed: Seq<usize>) -> bool {
    &&& c.len() > 0
    &&& forall|j: int|
        0 <= j < c.len() ==> (#[trigger] c[j]) < edges.len() && is_support(edges[c[j] as int].relation)
            && !removed.contains(c[j])
    &&& forall|j: int| 0 <= j < c.len() - 1 ==> #[trigger] linked(edges, c, j)
    &&& edges[c[c.len() - 1] as int].to == edges[c[0] as int].from
}

/// Edge `c[j]` ends where edge `c[j + 1]` begins.
pub open spec fn linked(edges: Seq<EpistemicEdge>, c: Seq<usize>, j: int) -> bool {
    edges[c[j] as int].to == edges[c[j + 1] as int].from
}

/// Edge `i` ends at a claim that finished before the claim it leaves.
pub open spec fn ranked(edges: Seq<EpistemicEdge>, f: Seq<u32>, i: int) -> bool {
    f.index_of(edges[i].to) < f.index_of(edges[i].from)
}

proof fn lemma_cycle_ranks(edges: Seq<EpistemicEdge>, c: Seq<usize>, f: Seq<u32>, j: int)
    requires
        0 <= j < c.len(),
        forall|t: int| 0 <= t < c.len() ==> ranked(edges, f, #[trigger] c[t] as int),
        forall|t: int| 0 <= t < c.len() - 1 ==> #[trigger] linked(edges, c, t),
    ensures
        f.index_of(edges[c[j] as int].from) <= f.index_of(edges[c[0] as int].from) - j,
    decreases j,
{
    if j > 0 {
        lemma_cycle_ranks(edges, c, f, j - 1);
        assert(ranked(edges, f, c[j - 1] as int));
        assert(linked(edges, c, j - 1));
    }
}

/// The order in which the search finishes its claims ranks every support
/// edge it leaves unmarked: such an edge ends at a claim finished earlier.
proof fn lemma_finish_order(edges: Seq<EpistemicEdge>) -> (f: Seq<u32>)
    requires
        edges.len() <= usize::MAX,
    ensures
        forall|i: int|
            0 <= i < edges.len() && is_support(edges[i].relation) && !cyclic_edges(edges).contains(i as usize)
                ==> #[trigger] ranked(edges, f, i),
{
    let nodes = graph_nodes(edges, edges.len() as int);
    lemma_graph_nodes(edges, edges.len() as int);
    assert(ends_in(edges, nodes)) by {
        assert forall|i: int| 0 <= i < edges.len() implies nodes.contains(#[trigger] edges[i].to) by {
            assert(nodes.contains(edges[i].from));
        }
    }
    lemma_all_inv(edges, nodes, nodes.len() as int);
    lemma_search_all_marks(edges, nodes, nodes.len() as int);
    let st = search_all(edges, nodes, nodes.len() as int);
    assert(cyclic_edges(edges) == st.2);
    let f = st.3;
    assert forall|i: int|
        0 <= i < edges.len() && is_support(edges[i].relation) && !cyclic_edges(edges).contains(i as usize)
            implies #[trigger] ranked(edges, f, i) by {
        assert(nodes.contains(edges[i].from));
        let j = choose|j: int| 0 <= j < nodes.len() && nodes[j] == edges[i].from;
        assert(st.0.contains(nodes[j]));
        if st.1.contains(edges[i].from) {
            let q = choose|q: int| 0 <= q < st.1.len() && st.1[q] == edges[i].from;
        }
        assert(f.contains(edges[i].from));
        assert(settled(edges, st.2, f, i));
    }
    f
}

/// Once the edges that the cycle search marks are removed, no cycle of
/// support edges is left; in particular, when the search marks nothing the
/// support edges form no cycle at all.
pub proof fn law_marked_edges_break_every_cycle(edges: Seq<EpistemicEdge>, c: Seq<usize>)
    requires
        edges.len() <= usize::MAX,
    ensures
        !support_cycle(edges, c, cyclic_edges(edges)),
        cyclic_edges(edges).len() == 0 ==> !support_cycle(edges, c, Seq::empty()),
{
    let m = cyclic_edges(edges);
    let f = lemma_finish_order(edges);
    if m.len() == 0 {
        assert(m =~= Seq::<usize>::empty());
    }
    if support_cycle(edges, c, m) {
        assert forall|t: int| 0 <= t < c.len() implies ranked(edges, f, #[trigger] c[t] as int) by {
            let i = c[t] as int;
            assert(i < edges.len() && is_support(edges[i].relation) && !m.contains(c[t]));
            assert(c[t] == i as usize);
            assert(ranked(edges, f, i));
        }
        lemma_cycle_ranks(edges, c, f, c.len() - 1);
        assert(ranked(edges, f, c[c.len() - 1] as int));
    }
}

/// The cycle search marks an edge only on a cycle of support edges, so it
/// marks nothing exactly when the support edges form no cycle.
pub proof fn law_marks_empty_iff_acyclic(edges: Seq<EpistemicEdge>)
    requires
        edges.len() <= usize::MAX,
    ensures
        forall|k: int| 0 <= k < cyclic_edges(edges).len() ==> #[trigger] on_cycle(edges, cyclic_edges(edges)[k]),
        (cyclic_edges(edges).len() == 0) <==> !(exists|c: Seq<usize>| #[trigger] support_cycle(edges, c, Seq::empty())),
{
    let nodes = graph_nodes(edges, edges.len() as int);
    lemma_graph_nodes(edges, edges.len() as int);
    assert(ends_in(edges, nodes)) by {
        assert forall|i: int| 0 <= i < edges.len() implies nodes.contains(#[trigger] edges[i].to) by {
            assert(nodes.contains(edges[i].from));
        }
    }
    lemma_all_inv(edges, nodes, nodes.len() as int);
    lemma_search_all_marks(edges, nodes, nodes.len() as int);
    let m = cyclic_edges(edges);
    assert(m == search_all(edges, nodes, nodes.len() as int).2);
    if m.len() == 0 {
        assert forall|c: Seq<usize>| !#[trigger] support_cycle(edges, c, Seq::empty()) by {
            law_marked_edges_break_every_cycle(edges, c);
        }
    } else {
        assert(on_cycle(edges, m[0]));
    }
}

} // verus!
