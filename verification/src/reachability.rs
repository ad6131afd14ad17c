//! Reachability over a directed graph given as adjacency lists, and a
//! verified worklist traversal that computes the reachable set.
//!
//! The asset registry walks two such graphs: the dependency graph (to find
//! which assets are still held alive) and the reverse-dependency graph (to find
//! which assets an invalidation reaches).
use vstd::prelude::*;

verus! {

/// `adj` holds an edge from `u` to `v`.
pub open spec fn has_edge(adj: Seq<Seq<usize>>, u: usize, v: usize) -> bool {
    u < adj.len() && adj[u as int].contains(v)
}

/// Every node named by an edge of `adj` is a node of `adj`.
pub open spec fn edges_in_range(adj: Seq<Seq<usize>>) -> bool {
    forall|u: int, j: int|
        0 <= u < adj.len() && 0 <= j < adj[u].len() ==> #[trigger] adj[u][j] < adj.len()
}

/// The edge relation of the adjacency lists `adj`.
pub open spec fn adj_edges(adj: Seq<Seq<usize>>) -> spec_fn(usize, usize) -> bool {
    |u: usize, v: usize| has_edge(adj, u, v)
}

/// `p` is a non-empty walk along the edge relation `edge`.
pub open spec fn is_walk(edge: spec_fn(usize, usize) -> bool, p: Seq<usize>) -> bool {
    &&& p.len() > 0
    &&& forall|i: int| 0 <= i < p.len() - 1 ==> #[trigger] edge(p[i], p[i + 1])
}

/// `v` can be reached from one of `starts` by following `edge`
/// (every start reaches itself).
pub open spec fn reachable(edge: spec_fn(usize, usize) -> bool, starts: Set<usize>, v: usize) -> bool {
    exists|p: Seq<usize>|
        #![trigger is_walk(edge, p), starts.contains(p[0])]
        is_walk(edge, p) && starts.contains(p[0]) && p.last() == v
}

/// The adjacency lists of `adj` as mathematical sequences.
pub open spec fn view_adj(adj: Seq<Vec<usize>>) -> Seq<Seq<usize>> {
    adj.map_values(|a: Vec<usize>| a@)
}

/// An item is in a filtered sequence exactly when it is in the sequence and
/// passes the filter.
pub proof fn lemma_filter_contains_iff<T>(s: Seq<T>, pred: spec_fn(T) -> bool, x: T)
    ensures
        s.filter(pred).contains(x) <==> s.contains(x) && pred(x),
{
    broadcast use vstd::seq_lib::group_filter_ensures;

    if s.filter(pred).contains(x) {
        s.lemma_filter_contains_rev(pred, x);
        let i = choose|i: int| 0 <= i < s.filter(pred).len() && s.filter(pred)[i] == x;
        assert(pred(s.filter(pred)[i]));
    }
    if s.contains(x) && pred(x) {
        let i = choose|i: int| 0 <= i < s.len() && s[i] == x;
        assert(s.filter(pred).contains(s[i]));
    }
}

/// Number of `true` entries in `s`.
pub open spec fn count_true(s: Seq<bool>) -> nat
    decreases s.len(),
{
    if s.len() == 0 {
        0
    } else {
        count_true(s.drop_last()) + if s.last() {
            1nat
        } else {
            0nat
        }
    }
}

proof fn lemma_count_true_bound(s: Seq<bool>)
    ensures
        count_true(s) <= s.len(),
    decreases s.len(),
{
    if s.len() > 0 {
        lemma_count_true_bound(s.drop_last());
    }
}

proof fn lemma_count_true_set(s: Seq<bool>, i: int)
    requires
        0 <= i < s.len(),
        !s[i],
    ensures
        count_true(s.update(i, true)) == count_true(s) + 1,
    decreases s.len(),
{
    let t = s.update(i, true);
    if i == s.len() - 1 {
        assert(t.drop_last() =~= s.drop_last());
    } else {
        lemma_count_true_set(s.drop_last(), i);
        assert(t.drop_last() =~= s.drop_last().update(i, true));
    }
}

/// A start reaches itself.
pub proof fn lemma_start_reachable(edge: spec_fn(usize, usize) -> bool, starts: Set<usize>, s: usize)
    requires
        starts.contains(s),
    ensures
        reachable(edge, starts, s),
{
    let p = seq![s];
    assert(is_walk(edge, p));
    assert(starts.contains(p[0]));
}

/// Reachability is closed under following one more edge.
pub proof fn lemma_reachable_step(
    edge: spec_fn(usize, usize) -> bool,
    starts: Set<usize>,
    u: usize,
    v: usize,
)
    requires
        reachable(edge, starts, u),
        edge(u, v),
    ensures
        reachable(edge, starts, v),
{
    let p = choose|p: Seq<usize>|
        #![trigger is_walk(edge, p), starts.contains(p[0])]
        is_walk(edge, p) && starts.contains(p[0]) && p.last() == u;
    let q = p.push(v);
    assert forall|i: int| 0 <= i < q.len() - 1 implies #[trigger] edge(q[i], q[i + 1]) by {
        if i < p.len() - 1 {
            assert(edge(p[i], p[i + 1]));
        }
    }
    assert(is_walk(edge, q));
    assert(q[0] == p[0]);
}

/// Adding starts never makes a node unreachable.
pub proof fn lemma_reachable_more_starts(
    edge: spec_fn(usize, usize) -> bool,
    starts: Set<usize>,
    more: Set<usize>,
    v: usize,
)
    requires
        reachable(edge, starts, v),
        starts.subset_of(more),
    ensures
        reachable(edge, more, v),
{
    let p = choose|p: Seq<usize>|
        #![trigger is_walk(edge, p), starts.contains(p[0])]
        is_walk(edge, p) && starts.contains(p[0]) && p.last() == v;
    assert(more.contains(p[0]));
}

/// A set of nodes below `n` that holds every start and is closed under the
/// edges holds every reachable node.
pub proof fn lemma_closed_set_holds_reachable(
    edge: spec_fn(usize, usize) -> bool,
    starts: Set<usize>,
    marked: Seq<bool>,
    v: usize,
)
    requires
        forall|s: usize| #[trigger] starts.contains(s) ==> s < marked.len() && marked[s as int],
        forall|u: usize, w: usize|
            u < marked.len() && marked[u as int] && #[trigger] edge(u, w) ==> w < marked.len()
                && marked[w as int],
        reachable(edge, starts, v),
    ensures
        v < marked.len() && marked[v as int],
{
    let p = choose|p: Seq<usize>|
        #![trigger is_walk(edge, p), starts.contains(p[0])]
        is_walk(edge, p) && starts.contains(p[0]) && p.last() == v;
    lemma_walk_prefix_marked(edge, starts, marked, p, p.len() - 1);
}

proof fn lemma_walk_prefix_marked(
    edge: spec_fn(usize, usize) -> bool,
    starts: Set<usize>,
    marked: Seq<bool>,
    p: Seq<usize>,
    k: int,
)
    requires
        forall|s: usize| #[trigger] starts.contains(s) ==> s < marked.len() && marked[s as int],
        forall|u: usize, w: usize|
            u < marked.len() && marked[u as int] && #[trigger] edge(u, w) ==> w < marked.len()
                && marked[w as int],
        is_walk(edge, p),
        starts.contains(p[0]),
        0 <= k < p.len(),
    ensures
        p[k] < marked.len() && marked[p[k] as int],
    decreases k,
{
    if k > 0 {
        lemma_walk_prefix_marked(edge, starts, marked, p, k - 1);
        assert(edge(p[k - 1], p[(k - 1) + 1]));
    }
}

proof fn lemma_mark(marked: Seq<bool>, order: Seq<usize>, s: usize, n: nat)
    requires
        marked.len() == n,
        s < n,
        !marked[s as int],
        forall|v: usize| v < n ==> (#[trigger] marked[v as int] <==> order.contains(v)),
    ensures
        forall|v: usize|
            v < n ==> (#[trigger] marked.update(s as int, true)[v as int] <==> order.push(
                s,
            ).contains(v)),
{
    let m2 = marked.update(s as int, true);
    let o2 = order.push(s);
    assert forall|v: usize| v < n implies (#[trigger] m2[v as int] <==> o2.contains(v)) by {
        if v == s {
            assert(o2[o2.len() - 1] == s);
        } else {
            if order.contains(v) {
                let t = choose|t: int| 0 <= t < order.len() && order[t] == v;
                assert(o2[t] == v);
            }
            if o2.contains(v) {
                let t = choose|t: int| 0 <= t < o2.len() && o2[t] == v;
                assert(t != o2.len() - 1);
                assert(order[t] == v);
            }
        }
    }
}

/// Marks every node that can be reached from `starts` along the edges of `adj`.
///
/// Each node is queued at most once, so the traversal ends on every graph,
/// cyclic or not.
pub fn reachable_from(adj: &Vec<Vec<usize>>, starts: &Vec<usize>) -> (marked: Vec<bool>)
    requires
        edges_in_range(view_adj(adj@)),
        forall|i: int| 0 <= i < starts.len() ==> #[trigger] starts[i] < adj.len(),
    ensures
        marked.len() == adj.len(),
        forall|v: usize|
            v < adj.len() ==> (#[trigger] marked[v as int] <==> reachable(
                adj_edges(view_adj(adj@)),
                starts@.to_set(),
                v,
            )),
{
    let ghost ga = view_adj(adj@);
    let ghost g = adj_edges(ga);
    let ghost st = starts@.to_set();
    let n = adj.len();
    let mut marked: Vec<bool> = Vec::new();
    let mut k: usize = 0;
    while k < n
        invariant
            k <= n,
            marked.len() == k,
            forall|i: int| 0 <= i < k ==> !marked[i],
            count_true(marked@) == 0,
        decreases n - k,
    {
        proof {
            assert(marked@.push(false).drop_last() =~= marked@);
        }
        marked.push(false);
        k = k + 1;
    }
    let mut order: Vec<usize> = Vec::new();
    let mut i: usize = 0;
    while i < starts.len()
        invariant
            n == adj.len(),
            ga == view_adj(adj@),
            g == adj_edges(ga),
            st == starts@.to_set(),
            edges_in_range(ga),
            forall|t: int| 0 <= t < starts.len() ==> #[trigger] starts[t] < adj.len(),
            i <= starts.len(),
            marked.len() == n,
            order.len() == count_true(marked@),
            forall|t: int| 0 <= t < order.len() ==> #[trigger] order[t] < n,
            forall|v: usize| v < n ==> (#[trigger] marked[v as int] <==> order@.contains(v)),
            forall|t: int| 0 <= t < order.len() ==> reachable(g, st, #[trigger] order[t]),
            forall|t: int| 0 <= t < i ==> marked[#[trigger] starts[t] as int],
        decreases starts.len() - i,
    {
        let s = starts[i];
        proof {
            assert(st.contains(starts@[i as int]));
            lemma_start_reachable(g, st, s);
        }
        if !marked[s] {
            proof {
                lemma_count_true_set(marked@, s as int);
                lemma_mark(marked@, order@, s, n as nat);
            }
            marked.set(s, true);
            order.push(s);
        }
        i = i + 1;
    }
    let mut head: usize = 0;
    while head < order.len()
        invariant
            n == adj.len(),
            ga == view_adj(adj@),
            g == adj_edges(ga),
            st == starts@.to_set(),
            edges_in_range(ga),
            marked.len() == n,
            head <= order.len(),
            order.len() == count_true(marked@),
            forall|t: int| 0 <= t < order.len() ==> #[trigger] order[t] < n,
            forall|v: usize| v < n ==> (#[trigger] marked[v as int] <==> order@.contains(v)),
            forall|t: int| 0 <= t < order.len() ==> reachable(g, st, #[trigger] order[t]),
            forall|t: int| 0 <= t < starts.len() ==> #[trigger] starts[t] < adj.len(),
            forall|t: int| 0 <= t < starts.len() ==> marked[#[trigger] starts[t] as int],
            forall|t: int, w: usize|
                0 <= t < head && #[trigger] has_edge(ga, order[t], w) ==> marked[w as int],
        decreases n - head,
    {
        proof {
            lemma_count_true_bound(marked@);
        }
        let u = order[head];
        let succ = &adj[u as usize];
        assert(succ@ == ga[u as int]);
        let ghost order0 = order@;
        let ghost marked0 = marked@;
        let mut j: usize = 0;
        while j < succ.len()
            invariant
                n == adj.len(),
                ga == view_adj(adj@),
            g == adj_edges(ga),
                st == starts@.to_set(),
                edges_in_range(ga),
                succ@ == ga[u as int],
                u < n,
                head < order0.len(),
                order0[head as int] == u,
                j <= succ.len(),
                marked.len() == n,
                order.len() >= order0.len(),
                forall|t: int| 0 <= t < order0.len() ==> order[t] == order0[t],
                marked0.len() == n,
                forall|v: int| 0 <= v < n && marked0[v] ==> marked[v],
                order.len() == count_true(marked@),
                forall|t: int| 0 <= t < order.len() ==> #[trigger] order[t] < n,
                forall|v: usize| v < n ==> (#[trigger] marked[v as int] <==> order@.contains(v)),
                forall|t: int| 0 <= t < order.len() ==> reachable(g, st, #[trigger] order[t]),
                forall|t: int| 0 <= t < starts.len() ==> #[trigger] starts[t] < adj.len(),
                forall|t: int| 0 <= t < starts.len() ==> marked[#[trigger] starts[t] as int],
                forall|t: int, w: usize|
                    0 <= t < head && #[trigger] has_edge(ga, order0[t], w) ==> marked0[w as int],
                forall|jj: int| 0 <= jj < j ==> marked[#[trigger] succ[jj] as int],
            decreases succ.len() - j,
        {
            let v = succ[j];
            proof {
                assert(ga[u as int][j as int] == v);
                assert(v < n);
                assert(has_edge(ga, u, v));
                assert(reachable(g, st, order0[head as int]));
                lemma_reachable_step(g, st, u, v);
            }
            if !marked[v] {
                proof {
                    lemma_count_true_set(marked@, v as int);
                    lemma_mark(marked@, order@, v, n as nat);
                }
                marked.set(v, true);
                order.push(v);
            }
            j = j + 1;
        }
        proof {
            assert forall|t: int, w: usize|
                0 <= t < head + 1 && #[trigger] has_edge(ga, order[t], w) implies marked[w as int] by {
                if t < head {
                    assert(order[t] == order0[t]);
                    assert(has_edge(ga, order0[t], w));
                } else {
                    assert(order[t] == u);
                    let jj = choose|jj: int| 0 <= jj < succ.len() && succ@[jj] == w;
                    assert(marked[succ[jj] as int]);
                }
            }
        }
        head = head + 1;
    }
    proof {
        assert forall|s: usize| #[trigger] st.contains(s) implies s < n && marked[s as int] by {
            assert(starts@.contains(s));
            let t = choose|t: int| 0 <= t < starts.len() && starts@[t] == s;
            assert(marked[starts[t] as int]);
        }
        assert forall|x: usize, w: usize|
            x < n && marked[x as int] && #[trigger] has_edge(ga, x, w) implies marked[w as int] by {
            assert(order@.contains(x));
            let t = choose|t: int| 0 <= t < order.len() && order@[t] == x;
            assert(has_edge(ga, order[t], w));
        }
        assert forall|v: usize| v < n implies (#[trigger] marked[v as int] <==> reachable(
            g,
            st,
            v,
        )) by {
            if marked[v as int] {
                let t = choose|t: int| 0 <= t < order.len() && order@[t] == v;
                assert(reachable(g, st, order[t]));
            }
            if reachable(g, st, v) {
                assert forall|x: usize, w: usize|
                    x < marked.len() && marked[x as int] && #[trigger] g(x, w) implies w < marked.len()
                        && marked[w as int] by {
                    assert(has_edge(ga, x, w));
                    let jj = choose|jj: int| 0 <= jj < ga[x as int].len() && ga[x as int][jj] == w;
                    assert(ga[x as int][jj] < ga.len());
                }
                lemma_closed_set_holds_reachable(g, st, marked@, v);
            }
        }
    }
    marked
}

} // verus!
