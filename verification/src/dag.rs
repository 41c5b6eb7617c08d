//! The DAG container: an adjacency map from each registered vertex to its
//! successor set, with cycle-checked edge insertion and cascading removal.

use vstd::prelude::*;
use vstd::pervasive::VecAdditionalExecFns;
use crate::model::{
    Graph, acyclic, add_edge_map, edge, pruned, reach_set, reachable, remove_edge_map,
    lemma_acyclic_subgraph, lemma_add_edge_preserves_acyclic, lemma_closed_set_blocks,
    lemma_prune_child, lemma_pruned_pruned, lemma_reach_set_child, lemma_reach_set_closed,
    lemma_reach_set_unregistered, lemma_reachable_head, lemma_reachable_refl,
    lemma_reachable_step,
};

verus! {

/// The failure signals of the container.
#[derive(Clone, Copy, Debug, PartialEq, Eq, Structural)]
pub enum DagError {
    /// An operation referenced a vertex that is not registered where the
    /// contract requires one.
    VertexNotFound,
    /// An edge insertion was rejected because it would close a directed
    /// cycle.
    CycleDetected,
}

/// One registered vertex together with its outgoing-neighbor list.
#[derive(Clone, Debug, PartialEq, Eq)]
pub(crate) struct Node {
    pub key: u64,
    pub succs: Vec<u64>,
}

/// A directed acyclic graph keyed by ordered `u64` vertices. Each registered
/// vertex owns the set of vertices it points to; edge insertion is refused
/// whenever it would close a cycle.
#[derive(Clone, Debug, PartialEq, Eq)]
pub struct BTreeDAG {
    nodes: Vec<Node>,
}

/// The entries of `v` are strictly increasing: the sequence is sorted in
/// ascending order and free of duplicates.
pub open spec fn ascending(v: Seq<u64>) -> bool {
    forall|a: int, b: int| 0 <= a < b < v.len() ==> v[a] < v[b]
}

pub(crate) open spec fn keys_distinct(s: Seq<Node>) -> bool {
    forall|i: int, j: int| 0 <= i < j < s.len() ==> (#[trigger] s[i]).key != (#[trigger] s[j]).key
}

pub(crate) open spec fn succs_distinct(s: Seq<Node>) -> bool {
    forall|i: int| 0 <= i < s.len() ==> (#[trigger] s[i]).succs@.no_duplicates()
}

pub(crate) open spec fn keys_sorted(s: Seq<Node>) -> bool {
    forall|i: int, j: int| 0 <= i < j < s.len() ==> (#[trigger] s[i]).key < (#[trigger] s[j]).key
}

pub(crate) open spec fn succs_sorted(s: Seq<Node>) -> bool {
    forall|i: int| 0 <= i < s.len() ==> ascending((#[trigger] s[i]).succs@)
}

proof fn lemma_ascending_nodup(v: Seq<u64>)
    requires
        ascending(v),
    ensures
        v.no_duplicates(),
{
    assert forall|i: int, j: int| 0 <= i < v.len() && 0 <= j < v.len() && i != j implies v[i]
        != v[j] by {
        if i < j {
            assert(v[i] < v[j]);
        } else {
            assert(v[j] < v[i]);
        }
    }
}

pub(crate) open spec fn has_key(s: Seq<Node>, k: u64) -> bool {
    exists|i: int| 0 <= i < s.len() && (#[trigger] s[i]).key == k
}

pub(crate) open spec fn key_index(s: Seq<Node>, k: u64) -> int {
    choose|i: int| 0 <= i < s.len() && (#[trigger] s[i]).key == k
}

/// The abstract graph that a node list stands for.
pub(crate) open spec fn graph_of(s: Seq<Node>) -> Graph {
    Map::new(|k: u64| has_key(s, k), |k: u64| s[key_index(s, k)].succs@.to_set())
}

impl View for BTreeDAG {
    type V = Graph;

    closed spec fn view(&self) -> Graph {
        graph_of(self.nodes@)
    }
}

proof fn lemma_graph_at(s: Seq<Node>, i: int)
    requires
        keys_distinct(s),
        0 <= i < s.len(),
    ensures
        graph_of(s).contains_key(s[i].key),
        graph_of(s)[s[i].key] == s[i].succs@.to_set(),
{
    assert(has_key(s, s[i].key));
    let j = key_index(s, s[i].key);
    assert(0 <= j < s.len() && s[j].key == s[i].key);
    if i < j {
        assert(s[i].key != s[j].key);
    } else if j < i {
        assert(s[j].key != s[i].key);
    }
}

proof fn lemma_graph_update(s: Seq<Node>, i: int, n: Node)
    requires
        keys_sorted(s),
        succs_sorted(s),
        keys_distinct(s),
        succs_distinct(s),
        0 <= i < s.len(),
        n.key == s[i].key,
        ascending(n.succs@),
    ensures
        keys_sorted(s.update(i, n)),
        succs_sorted(s.update(i, n)),
        keys_distinct(s.update(i, n)),
        succs_distinct(s.update(i, n)),
        graph_of(s.update(i, n)) == graph_of(s).insert(n.key, n.succs@.to_set()),
{
    let s2 = s.update(i, n);
    lemma_ascending_nodup(n.succs@);
    assert forall|j: int| 0 <= j < s2.len() implies ascending((#[trigger] s2[j]).succs@)
        && s2[j].succs@.no_duplicates() by {
        if j != i {
            assert(s2[j] == s[j]);
            lemma_ascending_nodup(s[j].succs@);
        }
    }
    assert forall|j: int| 0 <= j < s2.len() implies (#[trigger] s2[j]).key == s[j].key by {}
    assert forall|k: u64| has_key(s, k) implies has_key(s2, k) by {
        let j = choose|j: int| 0 <= j < s.len() && (#[trigger] s[j]).key == k;
        assert(s2[j].key == k);
    }
    assert forall|k: u64| has_key(s2, k) implies has_key(s, k) by {
        let j = choose|j: int| 0 <= j < s2.len() && (#[trigger] s2[j]).key == k;
        assert(s[j].key == k);
    }
    assert forall|k: u64| #[trigger] graph_of(s2).contains_key(k) implies
        graph_of(s2)[k] == graph_of(s).insert(n.key, n.succs@.to_set())[k] by {
        if k == n.key {
            lemma_graph_at(s2, i);
        } else {
            let j = choose|j: int| 0 <= j < s2.len() && (#[trigger] s2[j]).key == k;
            assert(j != i);
            lemma_graph_at(s2, j);
            lemma_graph_at(s, j);
        }
    }
    assert(graph_of(s2) =~~= graph_of(s).insert(n.key, n.succs@.to_set()));
}

proof fn lemma_graph_insert_node(s: Seq<Node>, p: int, n: Node)
    requires
        keys_sorted(s),
        succs_sorted(s),
        keys_distinct(s),
        succs_distinct(s),
        0 <= p <= s.len(),
        ascending(n.succs@),
        forall|a: int| 0 <= a < p ==> (#[trigger] s[a]).key < n.key,
        forall|a: int| p <= a < s.len() ==> (#[trigger] s[a]).key > n.key,
    ensures
        keys_sorted(s.insert(p, n)),
        succs_sorted(s.insert(p, n)),
        keys_distinct(s.insert(p, n)),
        succs_distinct(s.insert(p, n)),
        graph_of(s.insert(p, n)) == graph_of(s).insert(n.key, n.succs@.to_set()),
{
    let s2 = s.insert(p, n);
    s.insert_ensures(p, n);
    lemma_ascending_nodup(n.succs@);
    assert forall|j: int| 0 <= j < s2.len() implies (#[trigger] s2[j]) == (if j < p {
        s[j]
    } else if j == p {
        n
    } else {
        s[j - 1]
    }) by {
        if j > p {
            assert(s2[(j - 1) + 1] == s[j - 1]);
        }
    }
    assert forall|i: int, j: int| 0 <= i < j < s2.len() implies
        (#[trigger] s2[i]).key < (#[trigger] s2[j]).key by {}
    assert forall|j: int| 0 <= j < s2.len() implies ascending((#[trigger] s2[j]).succs@)
        && s2[j].succs@.no_duplicates() by {
        if j != p {
            let oj: int = if j < p {
                j
            } else {
                j - 1
            };
            assert(s2[j] == s[oj]);
            lemma_ascending_nodup(s[oj].succs@);
        }
    }
    assert forall|k: u64| has_key(s, k) implies has_key(s2, k) by {
        let j = choose|j: int| 0 <= j < s.len() && (#[trigger] s[j]).key == k;
        if j < p {
            assert(s2[j].key == k);
        } else {
            assert(s2[j + 1].key == k);
        }
    }
    assert forall|k: u64| has_key(s2, k) implies has_key(s, k) || k == n.key by {
        let j = choose|j: int| 0 <= j < s2.len() && (#[trigger] s2[j]).key == k;
        if j < p {
            assert(s[j].key == k);
        } else if j > p {
            assert(s[j - 1].key == k);
        }
    }
    assert(s2[p] == n);
    assert(has_key(s2, n.key));
    assert forall|k: u64| #[trigger] graph_of(s2).contains_key(k) implies
        graph_of(s2)[k] == graph_of(s).insert(n.key, n.succs@.to_set())[k] by {
        if k == n.key {
            lemma_graph_at(s2, p);
        } else {
            let j = choose|j: int| 0 <= j < s2.len() && (#[trigger] s2[j]).key == k;
            let oj: int = if j < p {
                j
            } else {
                j - 1
            };
            assert(j != p);
            assert(s2[j] == s[oj]);
            lemma_graph_at(s2, j);
            lemma_graph_at(s, oj);
        }
    }
    assert(graph_of(s2) =~~= graph_of(s).insert(n.key, n.succs@.to_set()));
}

proof fn lemma_graph_remove_at(s: Seq<Node>, i: int)
    requires
        keys_sorted(s),
        succs_sorted(s),
        keys_distinct(s),
        succs_distinct(s),
        0 <= i < s.len(),
    ensures
        keys_sorted(s.remove(i)),
        succs_sorted(s.remove(i)),
        keys_distinct(s.remove(i)),
        succs_distinct(s.remove(i)),
        graph_of(s.remove(i)) == graph_of(s).remove(s[i].key),
{
    let s2 = s.remove(i);
    s.remove_ensures(i);
    assert forall|a: int, b: int| 0 <= a < b < s2.len() implies
        (#[trigger] s2[a]).key < (#[trigger] s2[b]).key by {
        let oa: int = if a < i { a } else { a + 1 };
        let ob: int = if b < i { b } else { b + 1 };
        assert(s2[a] == s[oa] && s2[b] == s[ob]);
    }
    assert forall|j: int| 0 <= j < s2.len() implies ascending((#[trigger] s2[j]).succs@)
        && s2[j].succs@.no_duplicates() by {
        let oj: int = if j < i { j } else { j + 1 };
        assert(s2[j] == s[oj]);
    }
    assert forall|k: u64| has_key(s2, k) implies has_key(s, k) && k != s[i].key by {
        let j = choose|j: int| 0 <= j < s2.len() && (#[trigger] s2[j]).key == k;
        let oj: int = if j < i { j } else { j + 1 };
        assert(s2[j] == s[oj]);
        assert(s[oj].key == k);
        if oj < i {
            assert(s[oj].key != s[i].key);
        } else {
            assert(s[i].key != s[oj].key);
        }
    }
    assert forall|k: u64| has_key(s, k) && k != s[i].key implies has_key(s2, k) by {
        let j = choose|j: int| 0 <= j < s.len() && (#[trigger] s[j]).key == k;
        if j < i {
            assert(s2[j] == s[j]);
            assert(s2[j].key == k);
        } else {
            assert(j != i);
            assert(s2[j - 1] == s[j]);
            assert(s2[j - 1].key == k);
        }
    }
    assert forall|k: u64| #[trigger] graph_of(s2).contains_key(k) implies
        graph_of(s2)[k] == graph_of(s).remove(s[i].key)[k] by {
        let j = choose|j: int| 0 <= j < s2.len() && (#[trigger] s2[j]).key == k;
        let oj: int = if j < i { j } else { j + 1 };
        assert(s2[j] == s[oj]);
        lemma_graph_at(s2, j);
        lemma_graph_at(s, oj);
    }
    assert(graph_of(s2) =~~= graph_of(s).remove(s[i].key));
}

proof fn lemma_dom_finite(s: Seq<Node>)
    ensures
        graph_of(s).dom().finite(),
{
    let keys = s.map_values(|n: Node| n.key);
    assert forall|k: u64| has_key(s, k) implies keys.contains(k) by {
        let j = choose|j: int| 0 <= j < s.len() && (#[trigger] s[j]).key == k;
        assert(keys[j] == k);
    }
    assert forall|k: u64| keys.contains(k) implies has_key(s, k) by {
        let j = choose|j: int| 0 <= j < keys.len() && keys[j] == k;
        assert(s[j].key == k);
    }
    assert(graph_of(s).dom() =~= keys.to_set());
    broadcast use vstd::seq_lib::seq_to_set_is_finite;

    assert(keys.to_set().finite());
}

proof fn lemma_push_contains(s: Seq<u64>, e0: u64)
    ensures
        forall|e: u64| s.push(e0).contains(e) <==> s.contains(e) || e == e0,
{
    assert forall|e: u64| #[trigger] s.push(e0).contains(e) implies s.contains(e) || e == e0 by {
        let j = choose|j: int| 0 <= j < s.push(e0).len() && s.push(e0)[j] == e;
        if j < s.len() {
            assert(s[j] == e);
        }
    }
    assert forall|e: u64| s.contains(e) implies s.push(e0).contains(e) by {
        let j = choose|j: int| 0 <= j < s.len() && s[j] == e;
        assert(s.push(e0)[j] == e);
    }
    assert(s.push(e0)[s.len() as int] == e0);
}

spec fn flat_succs(s: Seq<Node>) -> Seq<u64>
    decreases s.len(),
{
    if s.len() == 0 {
        Seq::empty()
    } else {
        flat_succs(s.drop_last()) + s.last().succs@
    }
}

/// The finite pool of vertices a successor walk starting at `from` can ever
/// touch: `from` itself and every member of some successor list.
spec fn search_space(s: Seq<Node>, from: u64) -> Set<u64> {
    flat_succs(s).to_set().insert(from)
}

proof fn lemma_flat_succs_contains(s: Seq<Node>, i: int, e: u64)
    requires
        0 <= i < s.len(),
        s[i].succs@.contains(e),
    ensures
        flat_succs(s).contains(e),
    decreases s.len(),
{
    if i == s.len() - 1 {
        let idx = choose|idx: int| 0 <= idx < s.last().succs@.len() && s.last().succs@[idx] == e;
        assert(flat_succs(s)[flat_succs(s.drop_last()).len() + idx] == e);
    } else {
        assert(s.drop_last()[i] == s[i]);
        lemma_flat_succs_contains(s.drop_last(), i, e);
        let idx = choose|idx: int|
            0 <= idx < flat_succs(s.drop_last()).len() && flat_succs(s.drop_last())[idx] == e;
        assert(flat_succs(s)[idx] == e);
    }
}

impl BTreeDAG {
    /// The representation invariant: the node list is strictly sorted by
    /// key and every successor list is strictly sorted, so keys are distinct
    /// and successor lists are free of duplicates.
    pub closed spec fn inv(&self) -> bool {
        &&& keys_sorted(self.nodes@)
        &&& succs_sorted(self.nodes@)
        &&& keys_distinct(self.nodes@)
        &&& succs_distinct(self.nodes@)
    }

    /// A well-formed container: a valid representation whose abstract graph
    /// is finite and contains no directed cycle among registered vertices.
    pub open spec fn wf(&self) -> bool {
        self.inv() && self@.dom().finite() && acyclic(self@)
    }

    /// Creates an empty container: no vertex is registered.
    pub fn new() -> (d: Self)
        ensures
            d.wf(),
            d@ == Map::<u64, Set<u64>>::empty(),
    {
        let nodes: Vec<Node> = Vec::new();
        let d = BTreeDAG { nodes };
        proof {
            assert(d@ =~= Map::<u64, Set<u64>>::empty());
            lemma_dom_finite(d.nodes@);
            assert forall|a: u64, b: u64| edge(d@, a, b) implies !reachable(d@, b, a) by {
                assert(!d@.contains_key(a));
            }
        }
        d
    }

    fn find_index(&self, k: u64) -> (r: Option<usize>)
        ensures
            match r {
                Some(i) => i < self.nodes@.len() && self.nodes@[i as int].key == k
                    && self@.contains_key(k),
                None => !self@.contains_key(k),
            },
    {
        let mut i: usize = 0;
        while i < self.nodes.len()
            invariant
                i <= self.nodes@.len(),
                forall|j: int| 0 <= j < i ==> (#[trigger] self.nodes@[j]).key != k,
            decreases self.nodes@.len() - i,
        {
            if self.nodes[i].key == k {
                proof {
                    assert(has_key(self.nodes@, k));
                }
                return Some(i);
            }
            i += 1;
        }
        proof {
            if has_key(self.nodes@, k) {
                let j = choose|j: int|
                    0 <= j < self.nodes@.len() && (#[trigger] self.nodes@[j]).key == k;
                assert(false);
            }
        }
        None
    }

    /// Lists every registered vertex, each exactly once, in ascending key
    /// order.
    pub fn vertices(&self) -> (r: Vec<u64>)
        requires
            self.wf(),
        ensures
            ascending(r@),
            r@.no_duplicates(),
            forall|v: u64| r@.contains(v) <==> self@.contains_key(v),
            r@.to_set() == self@.dom(),
    {
        let mut r: Vec<u64> = Vec::new();
        let mut i: usize = 0;
        while i < self.nodes.len()
            invariant
                i <= self.nodes@.len(),
                r@.len() == i,
                forall|j: int| 0 <= j < i ==> r@[j] == (#[trigger] self.nodes@[j]).key,
            decreases self.nodes@.len() - i,
        {
            r.push(self.nodes[i].key);
            i += 1;
        }
        proof {
            assert forall|a: int, b: int| 0 <= a < b < r@.len() implies r@[a] < r@[b] by {
                assert(r@[a] == self.nodes@[a].key && r@[b] == self.nodes@[b].key);
            }
            lemma_ascending_nodup(r@);
            assert forall|v: u64| #[trigger] r@.contains(v) implies self@.contains_key(v) by {
                let j = choose|j: int| 0 <= j < r@.len() && r@[j] == v;
                assert(self.nodes@[j].key == v);
                assert(has_key(self.nodes@, v));
            }
            assert forall|v: u64| self@.contains_key(v) implies r@.contains(v) by {
                let j = choose|j: int|
                    0 <= j < self.nodes@.len() && (#[trigger] self.nodes@[j]).key == v;
                assert(r@[j] == v);
            }
            assert(r@.to_set() =~= self@.dom());
        }
        r
    }

    /// Returns the successor set of `v` as a duplicate-free, ascending
    /// snapshot, or `None` when `v` is not registered.
    pub fn get_vertex_value(&self, v: u64) -> (r: Option<Vec<u64>>)
        requires
            self.wf(),
        ensures
            match r {
                Some(succs) => self@.contains_key(v) && succs@.to_set() == self@[v]
                    && succs@.no_duplicates() && ascending(succs@),
                None => !self@.contains_key(v),
            },
    {
        match self.find_index(v) {
            Some(i) => {
                let succs = clone_u64s(&self.nodes[i].succs);
                proof {
                    lemma_graph_at(self.nodes@, i as int);
                    assert(ascending(succs@));
                }
                Some(succs)
            },
            None => None,
        }
    }

    /// Returns the successor set of `x`, or `None` when `x` is not
    /// registered.
    pub fn connections(&self, x: u64) -> (r: Option<Vec<u64>>)
        requires
            self.wf(),
        ensures
            match r {
                Some(succs) => self@.contains_key(x) && succs@.to_set() == self@[x]
                    && succs@.no_duplicates() && ascending(succs@),
                None => !self@.contains_key(x),
            },
    {
        self.get_vertex_value(x)
    }

    /// Reports whether the edge `x -> y` exists. Both `x` and `y` must be
    /// registered; otherwise the call fails with `VertexNotFound`.
    pub fn adjacent(&self, x: u64, y: u64) -> (r: Result<bool, DagError>)
        requires
            self.wf(),
        ensures
            match r {
                Ok(b) => self@.contains_key(x) && self@.contains_key(y) && b == self@[x].contains(
                    y,
                ),
                Err(e) => e == DagError::VertexNotFound && !(self@.contains_key(x)
                    && self@.contains_key(y)),
            },
    {
        if self.find_index(y).is_none() {
            return Err(DagError::VertexNotFound);
        }
        match self.find_index(x) {
            Some(i) => {
                let b = vec_contains(&self.nodes[i].succs, y);
                proof {
                    lemma_graph_at(self.nodes@, i as int);
                }
                Ok(b)
            },
            None => Err(DagError::VertexNotFound),
        }
    }

    /// Registers `x` with an empty successor set. When `x` was already
    /// registered its previous successor set is returned and replaced by the
    /// empty set; the prior outgoing edges of `x` are lost.
    pub fn add_vertex(&mut self, x: u64) -> (r: Option<Vec<u64>>)
        requires
            old(self).wf(),
        ensures
            final(self).wf(),
            final(self)@ == old(self)@.insert(x, Set::<u64>::empty()),
            match r {
                Some(prev) => old(self)@.contains_key(x) && prev@.to_set() == old(self)@[x]
                    && prev@.no_duplicates() && ascending(prev@),
                None => !old(self)@.contains_key(x),
            },
    {
        let ghost g = self@;
        let r = match self.find_index(x) {
            Some(i) => {
                let prev = clone_u64s(&self.nodes[i].succs);
                proof {
                    lemma_graph_at(self.nodes@, i as int);
                    assert(ascending(prev@));
                }
                let empty: Vec<u64> = Vec::new();
                let n = Node { key: x, succs: empty };
                proof {
                    lemma_graph_update(self.nodes@, i as int, n);
                }
                self.nodes.set(i, n);
                Some(prev)
            },
            None => {
                let mut p: usize = 0;
                while p < self.nodes.len() && self.nodes[p].key < x
                    invariant
                        p <= self.nodes@.len(),
                        forall|a: int| 0 <= a < p ==> (#[trigger] self.nodes@[a]).key < x,
                        self.nodes@ == old(self).nodes@,
                    decreases self.nodes@.len() - p,
                {
                    p += 1;
                }
                proof {
                    assert forall|a: int| p <= a < self.nodes@.len() implies
                        (#[trigger] self.nodes@[a]).key > x by {
                        assert(self.nodes@[a].key != x) by {
                            if self.nodes@[a].key == x {
                                assert(has_key(self.nodes@, x));
                            }
                        }
                        if a > p {
                            assert(self.nodes@[p as int].key < self.nodes@[a].key);
                            assert(self.nodes@[p as int].key != x) by {
                                if self.nodes@[p as int].key == x {
                                    assert(has_key(self.nodes@, x));
                                }
                            }
                        }
                    }
                }
                let empty: Vec<u64> = Vec::new();
                let n = Node { key: x, succs: empty };
                proof {
                    lemma_graph_insert_node(self.nodes@, p as int, n);
                }
                self.nodes.insert(p, n);
                None
            },
        };
        proof {
            assert(self@ =~~= g.insert(x, Set::<u64>::empty()));
            lemma_dom_finite(self.nodes@);
            assert forall|u: u64, v: u64| edge(self@, u, v) implies edge(g, u, v) by {
                assert(u != x);
            }
            lemma_acyclic_subgraph(g, self@);
        }
        r
    }

    /// Inserts the edge `x -> y`. The source `x` must be registered; the
    /// target `y` need not be. The call fails with `CycleDetected` when `x`
    /// is already reachable from `y`, since the new edge would close a
    /// cycle. On success the previous successor set of `x` is returned; on
    /// failure the graph is unchanged.
    pub fn add_edge(&mut self, x: u64, y: u64) -> (r: Result<Vec<u64>, DagError>)
        requires
            old(self).wf(),
        ensures
            final(self).wf(),
            match r {
                Ok(prev) => old(self)@.contains_key(x) && !reachable(old(self)@, y, x)
                    && prev@.to_set() == old(self)@[x] && prev@.no_duplicates()
                    && ascending(prev@) && final(self)@ == add_edge_map(old(self)@, x, y),
                Err(DagError::VertexNotFound) => !old(self)@.contains_key(x)
                    && final(self)@ == old(self)@,
                Err(DagError::CycleDetected) => old(self)@.contains_key(x)
                    && reachable(old(self)@, y, x) && final(self)@ == old(self)@,
            },
    {
        let ghost g = self@;
        let i = match self.find_index(x) {
            Some(i) => i,
            None => {
                return Err(DagError::VertexNotFound);
            },
        };
        if self.cyclic_relationship_exists(x, y) {
            return Err(DagError::CycleDetected);
        }
        let prev = clone_u64s(&self.nodes[i].succs);
        proof {
            lemma_graph_at(self.nodes@, i as int);
            assert(ascending(prev@));
        }
        let succs = if index_of(&prev, y).is_none() {
            insert_sorted(&prev, y)
        } else {
            clone_u64s(&prev)
        };
        proof {
            assert(succs@.to_set() =~= g[x].insert(y));
        }
        let n = Node { key: x, succs };
        proof {
            lemma_graph_update(self.nodes@, i as int, n);
        }
        self.nodes.set(i, n);
        proof {
            assert(self@ =~~= add_edge_map(g, x, y));
            lemma_dom_finite(self.nodes@);
            lemma_add_edge_preserves_acyclic(g, x, y);
        }
        Ok(prev)
    }

    /// Removes the edge `x -> y` from `x`'s successor set. Both `x` and `y`
    /// must be registered. Removing an edge that is not present succeeds and
    /// leaves the set unchanged. On success the previous successor set of
    /// `x` is returned; on failure the graph is unchanged.
    pub fn remove_edge(&mut self, x: u64, y: u64) -> (r: Result<Vec<u64>, DagError>)
        requires
            old(self).wf(),
        ensures
            final(self).wf(),
            match r {
                Ok(prev) => old(self)@.contains_key(x) && old(self)@.contains_key(y)
                    && prev@.to_set() == old(self)@[x] && prev@.no_duplicates()
                    && ascending(prev@) && final(self)@ == remove_edge_map(old(self)@, x, y),
                Err(e) => e == DagError::VertexNotFound && !(old(self)@.contains_key(x)
                    && old(self)@.contains_key(y)) && final(self)@ == old(self)@,
            },
    {
        let ghost g = self@;
        if self.find_index(y).is_none() {
            return Err(DagError::VertexNotFound);
        }
        let i = match self.find_index(x) {
            Some(i) => i,
            None => {
                return Err(DagError::VertexNotFound);
            },
        };
        let prev = clone_u64s(&self.nodes[i].succs);
        proof {
            lemma_graph_at(self.nodes@, i as int);
            assert(ascending(prev@));
        }
        let stripped = remove_all(&self.nodes[i].succs, y);
        proof {
            assert(stripped@.to_set() =~= g[x].remove(y));
        }
        let n = Node { key: x, succs: stripped };
        proof {
            lemma_graph_update(self.nodes@, i as int, n);
        }
        self.nodes.set(i, n);
        proof {
            assert(self@ =~~= remove_edge_map(g, x, y));
            lemma_dom_finite(self.nodes@);
            assert forall|u: u64, v: u64| edge(self@, u, v) implies edge(g, u, v) by {
                if u == x {
                    assert(self@[x].contains(v));
                }
            }
            lemma_acyclic_subgraph(g, self@);
        }
        Ok(prev)
    }
}

impl BTreeDAG {
    /// Reports whether the edge `x -> y` may not be inserted because `x` is
    /// already reachable from `y`: the edge would close a directed cycle.
    /// The search follows successor edges starting at `y` and dead-ends at
    /// unregistered vertices.
    #[verifier::loop_isolation(false)]
    #[verifier::rlimit(100)]
    pub fn cyclic_relationship_exists(&self, x: u64, y: u64) -> (r: bool)
        requires
            self.wf(),
        ensures
            r == reachable(self@, y, x),
    {
        let ghost g = self@;
        if y == x {
            proof {
                lemma_reachable_refl(g, y);
            }
            return true;
        }
        let mut visited: Vec<u64> = Vec::new();
        visited.push(y);
        let mut stack: Vec<u64> = Vec::new();
        stack.push(y);
        let ghost uni = search_space(self.nodes@, y);
        proof {
            broadcast use vstd::seq_lib::seq_to_set_is_finite;

            assert(uni.finite());
            lemma_reachable_refl(g, y);
            assert(visited@[0] == y);
            assert(stack@[0] == y);
            assert(visited@.contains(y));
            assert forall|e: u64| visited@.to_set().contains(e) implies uni.contains(e) by {
                let j = choose|j: int| 0 <= j < visited@.len() && visited@[j] == e;
                assert(j == 0);
            }
        }
        while stack.len() > 0
            invariant
                forall|v: u64| #[trigger] stack@.contains(v) ==> visited@.contains(v),
                visited@.contains(y),
                forall|v: u64| #[trigger] visited@.contains(v) ==> reachable(g, y, v),
                forall|v: u64| #[trigger] visited@.contains(v) && !stack@.contains(v) ==> v != x,
                forall|v: u64, z: u64| #![trigger visited@.contains(v), visited@.contains(z)]
                    visited@.contains(v) && !stack@.contains(v) && edge(g, v, z)
                        ==> visited@.contains(z),
                visited@.to_set().subset_of(uni),
            decreases uni.difference(visited@.to_set()).len() + stack@.len(),
        {
            let ghost m0 = uni.difference(visited@.to_set()).len() + stack@.len();
            let ghost stack_pre = stack@;
            let u = stack.pop().unwrap();
            proof {
                assert(stack_pre[stack_pre.len() - 1] == u);
                assert(stack_pre.contains(u));
                assert(visited@.contains(u));
                assert forall|v: u64| #[trigger] stack@.contains(v) implies stack_pre.contains(
                    v,
                ) by {
                    let j = choose|j: int| 0 <= j < stack@.len() && stack@[j] == v;
                    assert(stack_pre[j] == v);
                }
            }
            if u == x {
                return true;
            }
            proof {
                assert forall|v: u64| stack_pre.contains(v) && v != u implies stack@.contains(
                    v,
                ) by {
                    let j = choose|j: int| 0 <= j < stack_pre.len() && stack_pre[j] == v;
                    assert(stack@[j] == v);
                }
                assert forall|v: u64| #[trigger] visited@.contains(v) && !stack@.contains(v)
                    implies v != x by {
                    if v != u {
                        assert(!stack_pre.contains(v));
                    }
                }
                assert forall|v: u64, z: u64|
                    #![trigger visited@.contains(v), visited@.contains(z)]
                    visited@.contains(v) && !stack@.contains(v) && v != u && edge(g, v, z) implies
                    visited@.contains(z) by {
                    assert(!stack_pre.contains(v));
                }
            }
            match self.find_index(u) {
                Some(ni) => {
                    proof {
                        lemma_graph_at(self.nodes@, ni as int);
                    }
                    let mut j: usize = 0;
                    while j < self.nodes[ni].succs.len()
                        invariant
                            ni < self.nodes@.len(),
                            self.nodes@[ni as int].key == u,
                            j <= self.nodes@[ni as int].succs@.len(),
                            forall|v: u64| #[trigger] stack@.contains(v) ==> visited@.contains(v),
                            visited@.contains(y),
                            visited@.contains(u),
                            forall|v: u64| #[trigger] visited@.contains(v) ==> reachable(g, y, v),
                            forall|v: u64| #[trigger] visited@.contains(v) && !stack@.contains(v)
                                ==> v != x,
                            u != x,
                            forall|v: u64, z: u64|
                                #![trigger visited@.contains(v), visited@.contains(z)]
                                visited@.contains(v) && !stack@.contains(v) && v != u
                                    && edge(g, v, z) ==> visited@.contains(z),
                            forall|jj: int| 0 <= jj < j ==> visited@.contains(
                                #[trigger] self.nodes@[ni as int].succs@[jj],
                            ),
                            visited@.to_set().subset_of(uni),
                            uni.difference(visited@.to_set()).len() + stack@.len() == m0 - 1,
                        decreases self.nodes@[ni as int].succs@.len() - j,
                    {
                        let z = self.nodes[ni].succs[j];
                        proof {
                            assert(self.nodes@[ni as int].succs@.contains(z));
                            assert(g[u].contains(z));
                            assert(edge(g, u, z));
                            lemma_reachable_step(g, y, u, z);
                            lemma_flat_succs_contains(self.nodes@, ni as int, z);
                            assert(uni.contains(z));
                        }
                        if !vec_contains(&visited, z) {
                            let ghost vis_pre = visited@;
                            let ghost stk_pre = stack@;
                            proof {
                                let ghost a = vis_pre.to_set();
                                assert(!a.contains(z));
                                assert(uni.difference(a.insert(z)) =~= uni.difference(a).remove(
                                    z,
                                ));
                                vstd::set_lib::lemma_len_subset(a, uni);
                                assert(uni.difference(a).contains(z));
                                lemma_push_contains(vis_pre, z);
                                lemma_push_contains(stk_pre, z);
                                assert(vis_pre.push(z).to_set() =~= a.insert(z));
                            }
                            visited.push(z);
                            stack.push(z);
                            proof {
                                assert(stack@[stack@.len() - 1] == z);
                                assert(stack@.contains(z));
                                assert(visited@[visited@.len() - 1] == z);
                                assert(visited@.contains(z));
                                assert forall|v: u64| #[trigger] stack@.contains(v) implies
                                    visited@.contains(v) by {
                                    if v != z {
                                        assert(stk_pre.contains(v));
                                        assert(vis_pre.contains(v));
                                    }
                                }
                                assert forall|v: u64| #[trigger] visited@.contains(v) implies
                                    reachable(g, y, v) by {
                                    if v != z {
                                        assert(vis_pre.contains(v));
                                    }
                                }
                                assert forall|v: u64| #[trigger] visited@.contains(v)
                                    && !stack@.contains(v) implies v != x by {
                                    if v != z {
                                        assert(vis_pre.contains(v));
                                        assert(!stk_pre.contains(v));
                                    }
                                }
                                assert forall|v: u64, zz: u64|
                                    #![trigger visited@.contains(v), visited@.contains(zz)]
                                    visited@.contains(v) && !stack@.contains(v) && v != u
                                        && edge(g, v, zz) implies visited@.contains(zz) by {
                                    assert(v != z);
                                    assert(vis_pre.contains(v));
                                    assert(!stk_pre.contains(v));
                                    assert(vis_pre.contains(zz));
                                }
                                assert forall|jj: int| 0 <= jj < j + 1 implies visited@.contains(
                                    #[trigger] self.nodes@[ni as int].succs@[jj],
                                ) by {
                                    if jj < j {
                                        assert(vis_pre.contains(
                                            self.nodes@[ni as int].succs@[jj],
                                        ));
                                    }
                                }
                            }
                        } else {
                            proof {
                                assert(visited@.contains(self.nodes@[ni as int].succs@[j as int]));
                            }
                        }
                        j += 1;
                    }
                    proof {
                        assert forall|v: u64, z: u64|
                            #![trigger visited@.contains(v), visited@.contains(z)]
                            visited@.contains(v) && !stack@.contains(v) && edge(g, v, z) implies
                            visited@.contains(z) by {
                            if v == u {
                                assert(g[u].contains(z));
                                let jj = choose|jj: int|
                                    0 <= jj < self.nodes@[ni as int].succs@.len()
                                        && self.nodes@[ni as int].succs@[jj] == z;
                                assert(visited@.contains(self.nodes@[ni as int].succs@[jj]));
                            }
                        }
                    }
                },
                None => {
                    proof {
                        assert forall|v: u64, z: u64|
                            #![trigger visited@.contains(v), visited@.contains(z)]
                            visited@.contains(v) && !stack@.contains(v) && edge(g, v, z) implies
                            visited@.contains(z) by {
                            if v == u {
                                assert(!g.contains_key(u));
                            }
                        }
                    }
                },
            }
        }
        proof {
            let s_set = visited@.to_set();
            assert forall|v: u64| stack@.contains(v) implies false by {
                let j = choose|j: int| 0 <= j < stack@.len() && stack@[j] == v;
            }
            assert forall|u: u64, v: u64| #![trigger s_set.contains(u), s_set.contains(v)]
                s_set.contains(u) && edge(g, u, v) implies s_set.contains(v) by {
                assert(visited@.contains(u));
                assert(!stack@.contains(u));
                assert(visited@.contains(v));
            }
            assert(!s_set.contains(x)) by {
                if visited@.contains(x) {
                    assert(!stack@.contains(x));
                }
            }
            lemma_closed_set_blocks(g, y, x, s_set);
        }
        false
    }

    /// Removes `x` and every edge pointing into `x`. The outgoing targets
    /// of `x` keep their own entries. On success the former successor set
    /// of `x` is returned; afterwards no remaining successor set contains
    /// `x`. When `x` is not registered the call fails and the graph is
    /// unchanged.
    #[verifier::loop_isolation(false)]
    pub fn remove_vertex(&mut self, x: u64) -> (r: Result<Vec<u64>, DagError>)
        requires
            old(self).wf(),
        ensures
            final(self).wf(),
            match r {
                Ok(prev) => old(self)@.contains_key(x) && prev@.to_set() == old(self)@[x]
                    && prev@.no_duplicates() && ascending(prev@)
                    && final(self)@ == pruned(old(self)@, Set::<u64>::empty().insert(x))
                    && (forall|v: u64| final(self)@.contains_key(v)
                        ==> !(#[trigger] final(self)@[v]).contains(x)),
                Err(e) => e == DagError::VertexNotFound && !old(self)@.contains_key(x)
                    && final(self)@ == old(self)@,
            },
    {
        let ghost g = self@;
        let i0 = match self.find_index(x) {
            Some(i) => i,
            None => {
                return Err(DagError::VertexNotFound);
            },
        };
        let prev = clone_u64s(&self.nodes[i0].succs);
        proof {
            lemma_graph_at(self.nodes@, i0 as int);
            assert(ascending(prev@));
        }
        let ghost s0 = self.nodes@;
        let mut i: usize = 0;
        while i < self.nodes.len()
            invariant
                i <= s0.len(),
                self.nodes@.len() == s0.len(),
                keys_sorted(self.nodes@),
                succs_sorted(self.nodes@),
                keys_distinct(self.nodes@),
                succs_distinct(self.nodes@),
                forall|j: int| 0 <= j < s0.len() ==> (#[trigger] self.nodes@[j]).key == s0[j].key,
                forall|j: int| i <= j < s0.len() ==> (#[trigger] self.nodes@[j]) == s0[j],
                forall|j: int| 0 <= j < i ==> (#[trigger] self.nodes@[j]).succs@.to_set()
                    == s0[j].succs@.to_set().remove(x),
            decreases s0.len() - i,
        {
            let stripped = remove_all(&self.nodes[i].succs, x);
            let key_i = self.nodes[i].key;
            let n = Node { key: key_i, succs: stripped };
            proof {
                lemma_graph_update(self.nodes@, i as int, n);
            }
            self.nodes.set(i, n);
            i += 1;
        }
        proof {
            let s1 = self.nodes@;
            assert forall|k: u64| has_key(s1, k) implies has_key(s0, k) by {
                let j = choose|j: int| 0 <= j < s1.len() && (#[trigger] s1[j]).key == k;
                assert(s0[j].key == k);
            }
            assert forall|k: u64| has_key(s0, k) implies has_key(s1, k) by {
                let j = choose|j: int| 0 <= j < s0.len() && (#[trigger] s0[j]).key == k;
                assert(s1[j].key == k);
            }
            assert forall|k: u64| #[trigger] graph_of(s1).contains_key(k) implies graph_of(s1)[k]
                == g[k].remove(x) by {
                let j = choose|j: int| 0 <= j < s1.len() && (#[trigger] s1[j]).key == k;
                assert(s0[j].key == k);
                lemma_graph_at(s1, j);
                lemma_graph_at(s0, j);
            }
        }
        proof {
            lemma_graph_remove_at(self.nodes@, i0 as int);
        }
        let ghost g_strip = graph_of(self.nodes@);
        let _removed = self.nodes.remove(i0);
        proof {
            assert(self@ == g_strip.remove(x));
            assert(self@ =~~= pruned(g, Set::<u64>::empty().insert(x)));
            lemma_dom_finite(self.nodes@);
            assert forall|u: u64, v: u64| edge(self@, u, v) implies edge(g, u, v) by {
                assert(self@[u].contains(v));
                assert(g[u].remove(x).contains(v));
            }
            lemma_acyclic_subgraph(g, self@);
            assert forall|v: u64| self@.contains_key(v) implies !(#[trigger] self@[v]).contains(
                x,
            ) by {}
        }
        Ok(prev)
    }

    /// Removes `x` together with every registered vertex reachable from it,
    /// clearing all edges into the deleted set along the way. A successor
    /// that was already deleted through an earlier branch of the cascade is
    /// treated as already pruned and skipped. The call fails with
    /// `VertexNotFound` only when `x` itself is not registered, and then the
    /// graph is unchanged.
    #[verifier::loop_isolation(false)]
    pub fn prune(&mut self, x: u64) -> (r: Result<(), DagError>)
        requires
            old(self).wf(),
        ensures
            final(self).wf(),
            final(self)@ == pruned(old(self)@, reach_set(old(self)@, x)),
            match r {
                Ok(u) => old(self)@.contains_key(x),
                Err(e) => e == DagError::VertexNotFound && !old(self)@.contains_key(x),
            },
            forall|v: u64, w: u64| final(self)@.contains_key(v) && !final(self)@.contains_key(w)
                && old(self)@.contains_key(w) ==> !(#[trigger] final(self)@[v].contains(w)),
        decreases old(self)@.dom().len(),
    {
        let ghost g = self@;
        let kids = match self.remove_vertex(x) {
            Ok(kids) => kids,
            Err(e) => {
                proof {
                    lemma_reach_set_unregistered(g, x);
                }
                return Err(e);
            },
        };
        let ghost r0 = reach_set(g, x);
        let ghost mut d: Set<u64> = Set::<u64>::empty().insert(x);
        proof {
            lemma_reachable_refl(g, x);
            assert(r0.contains(x));
        }
        let mut i: usize = 0;
        while i < kids.len()
            invariant
                i <= kids@.len(),
                self.wf(),
                d.contains(x),
                forall|v: u64| #[trigger] d.contains(v) ==> g.contains_key(v),
                forall|v: u64, z: u64| #![trigger d.contains(v), d.contains(z)]
                    d.contains(v) && v != x && g.contains_key(z) && reachable(g, v, z)
                        ==> d.contains(z),
                d.subset_of(r0),
                forall|jj: int| 0 <= jj < i ==> (#[trigger] reach_set(g, kids@[jj])).subset_of(d),
                self@ == pruned(g, d),
            decreases kids@.len() - i,
        {
            let k = kids[i];
            proof {
                assert(kids@.contains(k));
                assert(g[x].contains(k));
                assert(edge(g, x, k));
                assert(self@.dom() =~= g.dom().difference(d));
                assert(g.dom().contains(x));
                vstd::set_lib::lemma_len_subset(self@.dom(), g.dom().remove(x));
                assert(self@.dom().len() < g.dom().len());
            }
            let ghost pre = self@;
            let _pruned_kid = self.prune(k);
            proof {
                lemma_prune_child(g, d, x, k);
                lemma_pruned_pruned(g, d, reach_set(pre, k));
                let d2 = d.union(reach_set(g, k));
                assert(d.union(reach_set(pre, k)) =~= d2);
                assert(self@ == pruned(g, d2));
                lemma_reach_set_child(g, x, k);
                assert forall|v: u64, z: u64| #![trigger d2.contains(v), d2.contains(z)]
                    d2.contains(v) && v != x && g.contains_key(z) && reachable(g, v, z) implies
                    d2.contains(z) by {
                    if d.contains(v) {
                        assert(d.contains(z));
                    } else {
                        assert(reach_set(g, k).contains(v));
                        lemma_reach_set_closed(g, k, v, z);
                    }
                }
                d = d2;
            }
            i += 1;
        }
        proof {
            assert forall|v: u64| r0.contains(v) implies d.contains(v) by {
                if v != x {
                    lemma_reachable_head(g, x, v);
                    let z = choose|z: u64| edge(g, x, z) && reachable(g, z, v);
                    assert(kids@.to_set().contains(z));
                    let jj = choose|jj: int| 0 <= jj < kids@.len() && kids@[jj] == z;
                    assert(reach_set(g, kids@[jj]).contains(v));
                }
            }
            assert(d =~= r0);
            assert forall|v: u64, w: u64| self@.contains_key(v) && !self@.contains_key(w)
                && g.contains_key(w) implies !(#[trigger] self@[v].contains(w)) by {
                assert(r0.contains(w));
            }
        }
        Ok(())
    }
}

impl Default for BTreeDAG {
    /// Creates an empty container.
    fn default() -> (d: Self)
        ensures
            d.wf(),
            d@ == Map::<u64, Set<u64>>::empty(),
    {
        Self::new()
    }
}

fn vec_contains(v: &Vec<u64>, x: u64) -> (b: bool)
    ensures
        b == v@.contains(x),
{
    let mut i: usize = 0;
    while i < v.len()
        invariant
            i <= v@.len(),
            forall|j: int| 0 <= j < i ==> v@[j] != x,
        decreases v@.len() - i,
    {
        if v[i] == x {
            return true;
        }
        i += 1;
    }
    proof {
        if v@.contains(x) {
            let j = choose|j: int| 0 <= j < v@.len() && v@[j] == x;
            assert(false);
        }
    }
    false
}

fn clone_u64s(v: &Vec<u64>) -> (r: Vec<u64>)
    ensures
        r@ == v@,
{
    let mut r: Vec<u64> = Vec::new();
    let mut i: usize = 0;
    while i < v.len()
        invariant
            i <= v@.len(),
            r@.len() == i,
            forall|j: int| 0 <= j < i ==> r@[j] == v@[j],
        decreases v@.len() - i,
    {
        r.push(v[i]);
        i += 1;
    }
    proof {
        assert(r@ =~= v@);
    }
    r
}

fn index_of(v: &Vec<u64>, x: u64) -> (r: Option<usize>)
    ensures
        match r {
            Some(i) => i < v@.len() && v@[i as int] == x && v@.contains(x),
            None => !v@.contains(x),
        },
{
    let mut i: usize = 0;
    while i < v.len()
        invariant
            i <= v@.len(),
            forall|j: int| 0 <= j < i ==> v@[j] != x,
        decreases v@.len() - i,
    {
        if v[i] == x {
            return Some(i);
        }
        i += 1;
    }
    proof {
        if v@.contains(x) {
            let j = choose|j: int| 0 <= j < v@.len() && v@[j] == x;
            assert(false);
        }
    }
    None
}

fn remove_all(v: &Vec<u64>, x: u64) -> (r: Vec<u64>)
    requires
        ascending(v@),
    ensures
        ascending(r@),
        r@.no_duplicates(),
        forall|e: u64| r@.contains(e) <==> (v@.contains(e) && e != x),
        r@.to_set() == v@.to_set().remove(x),
{
    proof {
        lemma_ascending_nodup(v@);
    }
    let mut r = clone_u64s(v);
    match index_of(v, x) {
        Some(j) => {
            r.remove(j);
            proof {
                let s2 = v@.remove(j as int);
                v@.remove_ensures(j as int);
                assert forall|a: int, b: int| 0 <= a < b < s2.len() implies s2[a] < s2[b] by {
                    let oa: int = if a < j { a } else { a + 1 };
                    let ob: int = if b < j { b } else { b + 1 };
                    assert(s2[a] == v@[oa] && s2[b] == v@[ob]);
                }
                lemma_ascending_nodup(s2);
                assert forall|e: u64| #[trigger] s2.contains(e) implies v@.contains(e) && e != x by {
                    let idx = choose|idx: int| 0 <= idx < s2.len() && s2[idx] == e;
                    let oi: int = if idx < j { idx } else { idx + 1 };
                    assert(s2[idx] == v@[oi]);
                    assert(v@.contains(v@[oi]));
                    assert(v@[oi] != v@[j as int]);
                }
                assert forall|e: u64| v@.contains(e) && e != x implies s2.contains(e) by {
                    let idx = choose|idx: int| 0 <= idx < v@.len() && v@[idx] == e;
                    if idx < j {
                        assert(s2[idx] == e);
                    } else {
                        assert(idx != j);
                        assert(s2[idx - 1] == e);
                    }
                }
                assert(r@.to_set() =~= v@.to_set().remove(x));
            }
        },
        None => {
            proof {
                assert forall|e: u64| #[trigger] r@.contains(e) implies v@.contains(e) && e != x by {
                    if e == x {
                        assert(v@.contains(x));
                    }
                }
                assert(r@.to_set() =~= v@.to_set().remove(x));
            }
        },
    }
    r
}

fn insert_sorted(v: &Vec<u64>, y: u64) -> (r: Vec<u64>)
    requires
        ascending(v@),
        !v@.contains(y),
    ensures
        ascending(r@),
        forall|e: u64| r@.contains(e) <==> (v@.contains(e) || e == y),
        r@.to_set() == v@.to_set().insert(y),
{
    let mut p: usize = 0;
    while p < v.len() && v[p] < y
        invariant
            p <= v@.len(),
            forall|a: int| 0 <= a < p ==> v@[a] < y,
        decreases v@.len() - p,
    {
        p += 1;
    }
    proof {
        assert forall|a: int| p <= a < v@.len() implies v@[a] > y by {
            assert(v@[a] != y) by {
                if v@[a] == y {
                    assert(v@.contains(y));
                }
            }
            if a > p {
                assert(v@[p as int] < v@[a]);
                assert(v@[p as int] != y) by {
                    if v@[p as int] == y {
                        assert(v@.contains(y));
                    }
                }
            }
        }
    }
    let mut r = clone_u64s(v);
    r.insert(p, y);
    proof {
        let s2 = v@.insert(p as int, y);
        v@.insert_ensures(p as int, y);
        assert forall|jj: int| 0 <= jj < s2.len() implies s2[jj] == (if jj < p {
            v@[jj]
        } else if jj == p {
            y
        } else {
            v@[jj - 1]
        }) by {
            if jj > p {
                assert(s2[(jj - 1) + 1] == v@[jj - 1]);
            }
        }
        assert forall|a: int, b: int| 0 <= a < b < s2.len() implies s2[a] < s2[b] by {
            if a != p && b != p {
                let oa: int = if a < p {
                    a
                } else {
                    a - 1
                };
                let ob: int = if b < p {
                    b
                } else {
                    b - 1
                };
                assert(s2[a] == v@[oa] && s2[b] == v@[ob]);
                assert(v@[oa] < v@[ob]);
            } else if a == p {
                assert(s2[b] == v@[b - 1]);
            } else {
                assert(s2[a] == v@[a]);
            }
        }
        assert forall|e: u64| #[trigger] s2.contains(e) implies (v@.contains(e) || e == y) by {
            let jj = choose|jj: int| 0 <= jj < s2.len() && s2[jj] == e;
            if jj < p {
                assert(v@[jj] == e);
            } else if jj > p {
                assert(v@[jj - 1] == e);
            }
        }
        assert forall|e: u64| v@.contains(e) implies s2.contains(e) by {
            let jj = choose|jj: int| 0 <= jj < v@.len() && v@[jj] == e;
            if jj < p {
                assert(s2[jj] == e);
            } else {
                assert(s2[jj + 1] == e);
            }
        }
        assert(s2[p as int] == y);
        assert(s2.contains(y));
        assert(r@.to_set() =~= v@.to_set().insert(y));
    }
    r
}

} // verus!
