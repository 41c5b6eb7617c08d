//! The mathematical model of the graph: edges, paths, reachability,
//! acyclicity, and deletion of a vertex set.

use vstd::prelude::*;

verus! {

/// A graph is modelled as a map from each registered vertex to the set of
/// vertices it points to (its successor set). An edge target may appear in a
/// successor set without being registered as a key of its own.
pub type Graph = Map<u64, Set<u64>>;

/// There is an edge from `a` to `b`: `a` is registered and `b` belongs to
/// `a`'s successor set.
pub open spec fn edge(g: Graph, a: u64, b: u64) -> bool {
    g.contains_key(a) && g[a].contains(b)
}

/// `p` is a directed path from `a` to `b`: it is nonempty, starts at `a`,
/// ends at `b`, and every consecutive pair of entries is an edge. A path of
/// length one (zero edges) connects every vertex to itself.
pub open spec fn is_path(g: Graph, p: Seq<u64>, a: u64, b: u64) -> bool {
    &&& p.len() >= 1
    &&& p[0] == a
    &&& p[p.len() - 1] == b
    &&& forall|i: int| 0 <= i < p.len() - 1 ==> edge(g, #[trigger] p[i], p[i + 1])
}

/// `b` can be reached from `a` by following zero or more edges.
pub open spec fn reachable(g: Graph, a: u64, b: u64) -> bool {
    exists|p: Seq<u64>| is_path(g, p, a, b)
}

/// No edge closes a directed path back to its own source: the graph induced
/// by the registered vertices contains no directed cycle.
pub open spec fn acyclic(g: Graph) -> bool {
    forall|a: u64, b: u64| edge(g, a, b) ==> !reachable(g, b, a)
}

/// The registered vertices reachable from `x`, including `x` itself whenever
/// `x` is registered.
pub open spec fn reach_set(g: Graph, x: u64) -> Set<u64> {
    Set::new(|v: u64| g.contains_key(v) && reachable(g, x, v))
}

/// The graph after deleting the vertex set `d`: members of `d` lose their own
/// entries and disappear from every remaining successor set.
pub open spec fn pruned(g: Graph, d: Set<u64>) -> Graph {
    Map::new(|v: u64| g.contains_key(v) && !d.contains(v), |v: u64| g[v].difference(d))
}

/// The graph after a successful edge removal: `y` leaves `x`'s successor set.
pub open spec fn remove_edge_map(g: Graph, x: u64, y: u64) -> Graph {
    g.insert(x, g[x].remove(y))
}

/// The graph after a successful edge insertion: `y` joins `x`'s successor set.
pub open spec fn add_edge_map(g: Graph, x: u64, y: u64) -> Graph {
    g.insert(x, g[x].insert(y))
}

/// Removing the same edge twice in a row gives the same graph as removing it
/// once, and keeps both endpoints registered: edge removal is idempotent.
pub proof fn lemma_remove_edge_idempotent(g: Graph, x: u64, y: u64)
    requires
        g.contains_key(x),
        g.contains_key(y),
    ensures
        remove_edge_map(remove_edge_map(g, x, y), x, y) == remove_edge_map(g, x, y),
        remove_edge_map(g, x, y).contains_key(x),
        remove_edge_map(g, x, y).contains_key(y),
{
    let g1 = remove_edge_map(g, x, y);
    assert(g1[x].remove(y) =~= g1[x]);
    assert(remove_edge_map(g1, x, y) =~~= g1);
}

/// Every vertex can reach itself.
pub proof fn lemma_reachable_refl(g: Graph, a: u64)
    ensures
        reachable(g, a, a),
{
    let p: Seq<u64> = seq![a];
    assert(is_path(g, p, a, a));
}

/// An edge is a path of one step.
pub proof fn lemma_edge_reachable(g: Graph, a: u64, b: u64)
    requires
        edge(g, a, b),
    ensures
        reachable(g, a, b),
{
    let p: Seq<u64> = seq![a, b];
    assert(p.len() - 1 == 1);
    assert(edge(g, p[0], p[1]));
    assert(is_path(g, p, a, b));
}

/// A path can be extended by one edge at its end.
pub proof fn lemma_reachable_step(g: Graph, a: u64, b: u64, c: u64)
    requires
        reachable(g, a, b),
        edge(g, b, c),
    ensures
        reachable(g, a, c),
{
    let p = choose|p: Seq<u64>| is_path(g, p, a, b);
    let q = p.push(c);
    assert forall|i: int| 0 <= i < q.len() - 1 implies edge(g, #[trigger] q[i], q[i + 1]) by {
        if i < p.len() - 1 {
            assert(q[i] == p[i] && q[i + 1] == p[i + 1]);
        } else {
            assert(q[i] == p[p.len() - 1] && q[i + 1] == c);
        }
    }
    assert(is_path(g, q, a, c));
}

proof fn lemma_reachable_trans_path(g: Graph, a: u64, b: u64, c: u64, q: Seq<u64>)
    requires
        reachable(g, a, b),
        is_path(g, q, b, c),
    ensures
        reachable(g, a, c),
    decreases q.len(),
{
    if q.len() == 1 {
        assert(b == c);
    } else {
        assert(edge(g, q[0], q[1]));
        lemma_reachable_step(g, a, b, q[1]);
        let q2 = q.subrange(1, q.len() as int);
        assert forall|i: int| 0 <= i < q2.len() - 1 implies edge(g, #[trigger] q2[i], q2[i + 1]) by {
            assert(q2[i] == q[i + 1] && q2[i + 1] == q[i + 2]);
        }
        assert(is_path(g, q2, q[1], c));
        lemma_reachable_trans_path(g, a, q[1], c, q2);
    }
}

/// Reachability is transitive.
pub proof fn lemma_reachable_trans(g: Graph, a: u64, b: u64, c: u64)
    requires
        reachable(g, a, b),
        reachable(g, b, c),
    ensures
        reachable(g, a, c),
{
    let q = choose|q: Seq<u64>| is_path(g, q, b, c);
    lemma_reachable_trans_path(g, a, b, c, q);
}

/// Every prefix endpoint of a path is reachable from the path's start.
pub proof fn lemma_path_prefix(g: Graph, p: Seq<u64>, a: u64, b: u64, i: int)
    requires
        is_path(g, p, a, b),
        0 <= i < p.len(),
    ensures
        reachable(g, a, p[i]),
{
    let pre = p.subrange(0, i + 1);
    assert forall|j: int| 0 <= j < pre.len() - 1 implies edge(g, #[trigger] pre[j], pre[j + 1]) by {
        assert(pre[j] == p[j] && pre[j + 1] == p[j + 1]);
    }
    assert(is_path(g, pre, a, p[i]));
}

/// The end of a path is reachable from every vertex on the path.
pub proof fn lemma_path_suffix(g: Graph, p: Seq<u64>, a: u64, b: u64, i: int)
    requires
        is_path(g, p, a, b),
        0 <= i < p.len(),
    ensures
        reachable(g, p[i], b),
{
    let suf = p.subrange(i, p.len() as int);
    assert forall|j: int| 0 <= j < suf.len() - 1 implies edge(g, #[trigger] suf[j], suf[j + 1]) by {
        assert(suf[j] == p[i + j] && suf[j + 1] == p[i + j + 1]);
    }
    assert(suf[suf.len() - 1] == p[p.len() - 1]);
    assert(is_path(g, suf, p[i], b));
}

/// A path in a graph whose edges all exist in another graph is a path there
/// as well.
pub proof fn lemma_reachable_mono(g1: Graph, g2: Graph, a: u64, b: u64)
    requires
        reachable(g2, a, b),
        forall|u: u64, v: u64| edge(g2, u, v) ==> edge(g1, u, v),
    ensures
        reachable(g1, a, b),
{
    let p = choose|p: Seq<u64>| is_path(g2, p, a, b);
    assert forall|i: int| 0 <= i < p.len() - 1 implies edge(g1, #[trigger] p[i], p[i + 1]) by {
        assert(edge(g2, p[i], p[i + 1]));
    }
    assert(is_path(g1, p, a, b));
}

/// Dropping edges from an acyclic graph cannot introduce a cycle.
pub proof fn lemma_acyclic_subgraph(g1: Graph, g2: Graph)
    requires
        acyclic(g1),
        forall|u: u64, v: u64| edge(g2, u, v) ==> edge(g1, u, v),
    ensures
        acyclic(g2),
{
    assert forall|a: u64, b: u64| edge(g2, a, b) implies !reachable(g2, b, a) by {
        assert(edge(g1, a, b));
        if reachable(g2, b, a) {
            lemma_reachable_mono(g1, g2, b, a);
        }
    }
}

proof fn lemma_path_stays_in_closed(g: Graph, p: Seq<u64>, a: u64, b: u64, s: Set<u64>)
    requires
        is_path(g, p, a, b),
        s.contains(a),
        forall|u: u64, v: u64| #![trigger s.contains(u), s.contains(v)]
            s.contains(u) && edge(g, u, v) ==> s.contains(v),
    ensures
        s.contains(b),
    decreases p.len(),
{
    if p.len() == 1 {
        assert(b == a);
    } else {
        assert(edge(g, p[0], p[1]));
        assert(s.contains(p[1]));
        let p2 = p.subrange(1, p.len() as int);
        assert forall|i: int| 0 <= i < p2.len() - 1 implies edge(g, #[trigger] p2[i], p2[i + 1]) by {
            assert(p2[i] == p[i + 1] && p2[i + 1] == p[i + 2]);
        }
        assert(is_path(g, p2, p[1], b));
        lemma_path_stays_in_closed(g, p2, p[1], b, s);
    }
}

/// A set that contains `a` and is closed under following edges blocks
/// reachability to anything outside it.
pub proof fn lemma_closed_set_blocks(g: Graph, a: u64, b: u64, s: Set<u64>)
    requires
        s.contains(a),
        forall|u: u64, v: u64| #![trigger s.contains(u), s.contains(v)]
            s.contains(u) && edge(g, u, v) ==> s.contains(v),
        !s.contains(b),
    ensures
        !reachable(g, a, b),
{
    if reachable(g, a, b) {
        let p = choose|p: Seq<u64>| is_path(g, p, a, b);
        lemma_path_stays_in_closed(g, p, a, b, s);
    }
}

/// A nonempty reach decomposes into a first edge followed by a shorter
/// reach.
pub proof fn lemma_reachable_head(g: Graph, a: u64, b: u64)
    requires
        reachable(g, a, b),
        a != b,
    ensures
        exists|z: u64| edge(g, a, z) && reachable(g, z, b),
{
    let p = choose|p: Seq<u64>| is_path(g, p, a, b);
    assert(p.len() >= 2);
    assert(edge(g, p[0], p[1]));
    lemma_path_suffix(g, p, a, b, 1);
    assert(edge(g, a, p[1]) && reachable(g, p[1], b));
}

/// Whatever is reachable after inserting the edge `x -> y` was either already
/// reachable, or goes through the new edge: the source could already reach
/// `x`, and the target is reachable from `y`.
pub proof fn lemma_reachable_insert_decompose(g: Graph, x: u64, y: u64, a: u64, b: u64)
    requires
        g.contains_key(x),
        reachable(add_edge_map(g, x, y), a, b),
    ensures
        reachable(g, a, b) || (reachable(g, a, x) && reachable(g, y, b)),
{
    let g2 = add_edge_map(g, x, y);
    let s = Set::new(
        |w: u64| reachable(g, a, w) || (reachable(g, a, x) && reachable(g, y, w)),
    );
    assert forall|u: u64, v: u64| #![trigger s.contains(u), s.contains(v)]
        s.contains(u) && edge(g2, u, v) implies s.contains(v) by {
        if edge(g, u, v) {
            if reachable(g, a, u) {
                lemma_reachable_step(g, a, u, v);
            } else {
                lemma_reachable_step(g, y, u, v);
            }
        } else {
            assert(u == x && v == y);
            lemma_reachable_refl(g, y);
        }
    }
    lemma_reachable_refl(g, a);
    assert(s.contains(a));
    let p = choose|p: Seq<u64>| is_path(g2, p, a, b);
    lemma_path_stays_in_closed(g2, p, a, b, s);
    assert(s.contains(b));
}

/// Adding the edge `x -> y` keeps the graph acyclic, provided `x` could not
/// already be reached from `y`.
pub proof fn lemma_add_edge_preserves_acyclic(g: Graph, x: u64, y: u64)
    requires
        acyclic(g),
        g.contains_key(x),
        !reachable(g, y, x),
    ensures
        acyclic(add_edge_map(g, x, y)),
{
    let g2 = add_edge_map(g, x, y);
    assert forall|a: u64, b: u64| edge(g2, a, b) implies !reachable(g2, b, a) by {
        if reachable(g2, b, a) {
            lemma_reachable_insert_decompose(g, x, y, b, a);
            if edge(g, a, b) {
                if reachable(g, b, a) {
                    assert(false);
                } else {
                    assert(reachable(g, b, x) && reachable(g, y, a));
                    lemma_reachable_step(g, y, a, b);
                    lemma_reachable_trans(g, y, b, x);
                    assert(false);
                }
            } else {
                assert(a == x && b == y);
                assert(false);
            }
        }
    }
}

/// Deleting two vertex sets in turn is the same as deleting their union at
/// once.
pub proof fn lemma_pruned_pruned(g: Graph, d: Set<u64>, e: Set<u64>)
    ensures
        pruned(pruned(g, d), e) == pruned(g, d.union(e)),
{
    assert(pruned(pruned(g, d), e) =~~= pruned(g, d.union(e)));
}

/// Deleting the empty vertex set changes nothing.
pub proof fn lemma_pruned_empty(g: Graph)
    ensures
        pruned(g, Set::empty()) == g,
{
    assert(pruned(g, Set::empty()) =~~= g);
}

/// An unregistered vertex reaches no registered vertex, so deleting its
/// reachable set deletes nothing.
pub proof fn lemma_reach_set_unregistered(g: Graph, x: u64)
    requires
        !g.contains_key(x),
    ensures
        reach_set(g, x) == Set::<u64>::empty(),
        pruned(g, reach_set(g, x)) == g,
{
    assert forall|v: u64| !(g.contains_key(v) && reachable(g, x, v)) by {
        if g.contains_key(v) && reachable(g, x, v) {
            let p = choose|p: Seq<u64>| is_path(g, p, x, v);
            if p.len() == 1 {
                assert(v == x);
            } else {
                assert(edge(g, p[0], p[1]));
            }
        }
    }
    assert(reach_set(g, x) =~= Set::<u64>::empty());
    lemma_pruned_empty(g);
}

/// Everything reachable from a successor of `x` is reachable from `x`.
pub proof fn lemma_reach_set_child(g: Graph, x: u64, s: u64)
    requires
        edge(g, x, s),
    ensures
        reach_set(g, s).subset_of(reach_set(g, x)),
{
    assert forall|v: u64| reach_set(g, s).contains(v) implies reach_set(g, x).contains(v) by {
        lemma_edge_reachable(g, x, s);
        lemma_reachable_trans(g, x, s, v);
    }
}

/// The reachable set is closed under reachability.
pub proof fn lemma_reach_set_closed(g: Graph, x: u64, v: u64, w: u64)
    requires
        reach_set(g, x).contains(v),
        g.contains_key(w),
        reachable(g, v, w),
    ensures
        reach_set(g, x).contains(w),
{
    lemma_reachable_trans(g, x, v, w);
}

proof fn lemma_pruned_keeps_path(g: Graph, d: Set<u64>, p: Seq<u64>, s: u64, v: u64)
    requires
        is_path(g, p, s, v),
        g.contains_key(v),
        !d.contains(v),
        forall|w: u64, z: u64| #![trigger d.contains(w), d.contains(z)]
            d.contains(w) && reachable(g, s, w) && g.contains_key(z) && reachable(g, w, z)
                ==> d.contains(z),
    ensures
        is_path(pruned(g, d), p, s, v),
{
    assert forall|i: int| 0 <= i < p.len() implies !d.contains(#[trigger] p[i]) by {
        if d.contains(p[i]) {
            lemma_path_prefix(g, p, s, v, i);
            lemma_path_suffix(g, p, s, v, i);
            assert(d.contains(v));
        }
    }
    assert forall|i: int| 0 <= i < p.len() - 1 implies
        edge(pruned(g, d), #[trigger] p[i], p[i + 1]) by {
        assert(edge(g, p[i], p[i + 1]));
        assert(!d.contains(p[i]) && !d.contains(p[i + 1]));
    }
}

/// The deletion step of the cascade: with a set `d` already deleted that is
/// closed under reachability (except at the cascade's root `x`), the vertices
/// a child `s` of `x` still reaches are exactly those it reached at the
/// start, less the ones already gone.
pub proof fn lemma_prune_child(g: Graph, d: Set<u64>, x: u64, s: u64)
    requires
        acyclic(g),
        edge(g, x, s),
        d.contains(x),
        forall|v: u64| #[trigger] d.contains(v) ==> g.contains_key(v),
        forall|v: u64, z: u64| #![trigger d.contains(v), d.contains(z)]
            d.contains(v) && v != x && g.contains_key(z) && reachable(g, v, z)
                ==> d.contains(z),
    ensures
        reach_set(pruned(g, d), s) == reach_set(g, s).difference(d),
{
    let gp = pruned(g, d);
    assert forall|u: u64, v: u64| edge(gp, u, v) implies edge(g, u, v) by {}
    assert forall|v: u64| reach_set(gp, s).contains(v) implies
        reach_set(g, s).difference(d).contains(v) by {
        lemma_reachable_mono(g, gp, s, v);
    }
    assert forall|v: u64| reach_set(g, s).difference(d).contains(v) implies
        reach_set(gp, s).contains(v) by {
        let p = choose|p: Seq<u64>| is_path(g, p, s, v);
        assert forall|w: u64, z: u64| #![trigger d.contains(w), d.contains(z)]
            d.contains(w) && reachable(g, s, w) && g.contains_key(z) && reachable(g, w, z)
                implies d.contains(z) by {
            if w == x {
                assert(reachable(g, s, x));
                assert(false);
            }
        }
        lemma_pruned_keeps_path(g, d, p, s, v);
    }
    assert(reach_set(gp, s) =~= reach_set(g, s).difference(d));
}

} // verus!
