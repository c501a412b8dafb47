//! The dependency graph: a set of target nodes and a set of directed
//! edges, where an edge from A to B means "B depends on A". Traversing
//! outgoing edges from a changed package therefore reaches everything
//! that transitively depends on it.
//!
//! Nodes live in an arena addressed by index; identity lookup scans for
//! the target's (name, flavor) pair. Insertion of nodes and edges is
//! idempotent, and `rdeps` visits each reachable node exactly once.

use vstd::prelude::*;

use crate::types::{Target, TargetView};

verus! {

/// An edge or query referred to a target that is not a node.
#[derive(Debug, Clone, Copy, PartialEq, Eq, Structural)]
pub enum GraphError {
    NodeMissing,
}

/// The views of a sequence of targets.
pub open spec fn target_views(v: Seq<Target>) -> Seq<TargetView> {
    v.map_values(|t: Target| t@)
}

/// The abstract content of a graph: node identities in insertion
/// order, and the edge relation over identities.
pub struct GraphModel {
    pub nodes: Seq<TargetView>,
    pub edges: Set<(TargetView, TargetView)>,
}

/// What `add_node` does to the abstract graph: nothing when the
/// identity is already present, otherwise one appended node.
pub open spec fn insert_node(m: GraphModel, t: TargetView) -> GraphModel {
    if m.nodes.contains(t) {
        m
    } else {
        GraphModel { nodes: m.nodes.push(t), edges: m.edges }
    }
}

/// What a successful `add_edge` does to the abstract graph.
pub open spec fn insert_edge(m: GraphModel, a: TargetView, b: TargetView) -> GraphModel {
    GraphModel { nodes: m.nodes, edges: m.edges.insert((a, b)) }
}

/// Inserting a node twice is the same as inserting it once.
pub proof fn lemma_add_node_idempotent(m: GraphModel, t: TargetView)
    ensures
        insert_node(insert_node(m, t), t) == insert_node(m, t),
{
    let m1 = insert_node(m, t);
    assert(m1.nodes.contains(t)) by {
        if !m.nodes.contains(t) {
            assert(m1.nodes.last() == t);
        }
    }
}

/// Inserting an edge twice is the same as inserting it once.
pub proof fn lemma_add_edge_idempotent(m: GraphModel, a: TargetView, b: TargetView)
    ensures
        insert_edge(insert_edge(m, a, b), a, b) == insert_edge(m, a, b),
{
    assert(insert_edge(insert_edge(m, a, b), a, b).edges =~= insert_edge(m, a, b).edges);
}

/// The dependency graph over targets.
pub struct TargetGraph {
    /// The node arena; a target's index is its handle.
    pub nodes: Vec<Target>,
    /// Directed edges as pairs of node indices.
    pub edges: Vec<(usize, usize)>,
}

impl TargetGraph {
    /// The node identities, in insertion order.
    pub open spec fn node_views(self) -> Seq<TargetView> {
        target_views(self.nodes@)
    }

    /// Whether some node carries the identity `t`.
    pub open spec fn has_node(self, t: TargetView) -> bool {
        self.node_views().contains(t)
    }

    /// Whether the node at index `i` carries the identity `t`.
    pub open spec fn is_node_at(self, i: int, t: TargetView) -> bool {
        0 <= i < self.nodes@.len() && self.node_views()[i] == t
    }

    /// Whether a directed edge runs from index `i` to index `j`.
    pub open spec fn edge_between(self, i: int, j: int) -> bool {
        exists|k: int|
            0 <= k < self.edges@.len() && (#[trigger] self.edges@[k]).0 == i && self.edges@[k].1
                == j
    }

    /// Whether a directed edge runs from identity `a` to identity `b`.
    pub open spec fn has_edge(self, a: TargetView, b: TargetView) -> bool {
        exists|i: int, j: int|
            self.is_node_at(i, a) && self.is_node_at(j, b) && #[trigger] self.edge_between(i, j)
    }

    /// The abstract content of the graph.
    pub open spec fn model(self) -> GraphModel {
        GraphModel {
            nodes: self.node_views(),
            edges: Set::new(|e: (TargetView, TargetView)| self.has_edge(e.0, e.1)),
        }
    }

    /// Well-formedness: node identities are distinct, and edges join
    /// existing nodes without duplicates.
    pub open spec fn wf(self) -> bool {
        &&& forall|i: int, j: int|
            0 <= i < j < self.nodes@.len() ==> self.node_views()[i] != self.node_views()[j]
        &&& forall|k: int|
            0 <= k < self.edges@.len() ==> (#[trigger] self.edges@[k]).0 < self.nodes@.len()
                && self.edges@[k].1 < self.nodes@.len()
        &&& forall|k: int, l: int|
            0 <= k < l < self.edges@.len() ==> self.edges@[k] != self.edges@[l]
    }

    /// A non-empty sequence of node indices whose consecutive entries
    /// are joined by edges.
    pub open spec fn is_index_path(self, p: Seq<int>) -> bool {
        &&& p.len() >= 1
        &&& forall|x: int| 0 <= x < p.len() ==> 0 <= #[trigger] p[x] < self.nodes@.len()
        &&& forall|x: int| 0 <= x < p.len() - 1 ==> self.edge_between(#[trigger] p[x], p[x + 1])
    }

    /// Whether some path leads from index `i` to index `j`.
    pub open spec fn reachable_between(self, i: int, j: int) -> bool {
        exists|p: Seq<int>| self.is_index_path(p) && p.first() == i && p.last() == j
    }

    /// Whether index `j` is reachable from any node whose identity is
    /// among `starts`; the start nodes themselves count as reached.
    pub open spec fn reachable_from_any(self, starts: Seq<TargetView>, j: int) -> bool {
        exists|i: int|
            #![trigger self.reachable_between(i, j)]
            0 <= i < self.nodes@.len() && starts.contains(self.node_views()[i])
                && self.reachable_between(i, j)
    }

    pub fn new() -> (r: Self)
        ensures
            r.wf(),
            r.nodes@.len() == 0,
            r.edges@.len() == 0,
    {
        TargetGraph { nodes: Vec::new(), edges: Vec::new() }
    }

    /// The arena index of the node carrying `t`'s identity, if any.
    fn find_index(&self, t: &Target) -> (r: Option<usize>)
        ensures
            match r {
                Some(i) => self.is_node_at(i as int, t@),
                None => !self.has_node(t@),
            },
    {
        let mut k: usize = 0;
        while k < self.nodes.len()
            invariant
                k <= self.nodes@.len(),
                forall|i: int| 0 <= i < k ==> self.node_views()[i] != t@,
            decreases self.nodes@.len() - k,
        {
            if self.nodes[k] == *t {
                return Some(k);
            }
            k += 1;
        }
        None
    }

    pub fn contains_node(&self, node: &Target) -> (r: bool)
        ensures
            r == self.has_node(node@),
    {
        self.find_index(node).is_some()
    }

    /// Inserts a node, keyed by target identity: a no-op when a node
    /// with the same identity is already present.
    pub fn add_node(&mut self, node: Target)
        requires
            old(self).wf(),
        ensures
            final(self).wf(),
            final(self).model() == insert_node(old(self).model(), node@),
            old(self).has_node(node@) ==> *final(self) == *old(self),
            !old(self).has_node(node@) ==> final(self).nodes@ == old(self).nodes@.push(node)
                && final(self).edges@ == old(self).edges@,
            final(self).has_node(node@),
            forall|t: TargetView| old(self).has_node(t) ==> final(self).has_node(t),
    {
        if self.contains_node(&node) {
            proof {
                assert(self.model() =~~= insert_node(self.model(), node@)) by {
                    assert(self.model().edges =~= insert_node(self.model(), node@).edges);
                }
            }
            return ;
        }
        let ghost pre = *self;
        self.nodes.push(node);
        proof {
            let nv = self.node_views();
            assert(nv.drop_last() =~= pre.node_views());
            assert forall|i: int, j: int| 0 <= i < j < self.nodes@.len() implies nv[i] != nv[j] by {
                if j < self.nodes@.len() - 1 {
                    assert(pre.node_views()[i] == nv[i] && pre.node_views()[j] == nv[j]);
                } else {
                    assert(pre.node_views()[i] == nv[i]);
                    if nv[i] == nv[j] {
                        assert(pre.has_node(nv[j]));
                    }
                }
            }
            assert(self.has_node(nv.last())) by {
                assert(nv[self.nodes@.len() - 1] == nv.last());
            }
            lemma_same_edges_identities(pre, *self);
            assert forall|t: TargetView| pre.has_node(t) implies self.has_node(t) by {
                let x = choose|x: int|
                    0 <= x < pre.node_views().len() && pre.node_views()[x] == t;
                assert(nv[x] == t);
            }
            assert(self.model() =~~= insert_node(pre.model(), nv.last())) by {
                assert(self.model().edges =~= insert_node(pre.model(), nv.last()).edges);
                assert(self.model().nodes =~= insert_node(pre.model(), nv.last()).nodes);
            }
        }
    }

    /// Inserts a directed edge between two already-present nodes;
    /// duplicate edges collapse to one. Fails, changing nothing, when
    /// either endpoint is absent: that absence marks a corrupted
    /// builder, never bad user input.
    pub fn add_edge(&mut self, src: &Target, dest: &Target) -> (r: Result<(), GraphError>)
        requires
            old(self).wf(),
        ensures
            final(self).wf(),
            match r {
                Ok(()) => old(self).has_node(src@) && old(self).has_node(dest@) && final(self).nodes@
                    == old(self).nodes@ && final(self).model() == insert_edge(
                    old(self).model(),
                    src@,
                    dest@,
                ) && (old(self).has_edge(src@, dest@) ==> *final(self) == *old(self)) && (!old(
                    self,
                ).has_edge(src@, dest@) ==> final(self).edges@.len() == old(self).edges@.len() + 1),
                Err(e) => e == GraphError::NodeMissing && *final(self) == *old(self) && (!old(
                    self,
                ).has_node(src@) || !old(self).has_node(dest@)),
            },
    {
        let s = match self.find_index(src) {
            Some(s) => s,
            None => {
                return Err(GraphError::NodeMissing);
            },
        };
        let d = match self.find_index(dest) {
            Some(d) => d,
            None => {
                return Err(GraphError::NodeMissing);
            },
        };
        let mut k: usize = 0;
        while k < self.edges.len()
            invariant
                k <= self.edges@.len(),
                *self == *old(self),
                self.wf(),
                self.is_node_at(s as int, src@),
                self.is_node_at(d as int, dest@),
                forall|l: int|
                    0 <= l < k ==> !((#[trigger] self.edges@[l]).0 == s && self.edges@[l].1 == d),
            decreases self.edges@.len() - k,
        {
            let e = self.edges[k];
            if e.0 == s && e.1 == d {
                proof {
                    lemma_node_index_unique(*self, s as int, src@);
                    lemma_node_index_unique(*self, d as int, dest@);
                    assert(self.has_edge(src@, dest@)) by {
                        assert(self.edge_between(s as int, d as int));
                    }
                    assert(self.model() =~~= insert_edge(self.model(), src@, dest@)) by {
                        assert(self.model().edges =~= insert_edge(
                            self.model(),
                            src@,
                            dest@,
                        ).edges);
                    }
                }
                return Ok(());
            }
            k += 1;
        }
        let ghost pre = *self;
        proof {
            assert(!pre.edge_between(s as int, d as int));
            lemma_node_index_unique(pre, s as int, src@);
            lemma_node_index_unique(pre, d as int, dest@);
            assert(!pre.has_edge(src@, dest@)) by {
                if pre.has_edge(src@, dest@) {
                    let (i, j) = choose|i: int, j: int|
                        pre.is_node_at(i, src@) && pre.is_node_at(j, dest@)
                            && #[trigger] pre.edge_between(i, j);
                }
            }
        }
        self.edges.push((s, d));
        proof {
            assert(self.edges@.drop_last() =~= pre.edges@);
            assert forall|k2: int, l: int|
                0 <= k2 < l < self.edges@.len() implies self.edges@[k2] != self.edges@[l] by {
                if l < self.edges@.len() - 1 {
                    assert(pre.edges@[k2] == self.edges@[k2] && pre.edges@[l] == self.edges@[l]);
                } else {
                    assert(pre.edges@[k2] == self.edges@[k2]);
                }
            }
            assert(self.edge_between(s as int, d as int)) by {
                assert(self.edges@[self.edges@.len() - 1] == (s, d));
            }
            assert(self.has_edge(src@, dest@)) by {
                assert(self.is_node_at(s as int, src@) && self.is_node_at(d as int, dest@));
            }
            assert forall|a: TargetView, b: TargetView| #[trigger]
                self.has_edge(a, b) implies pre.has_edge(a, b) || (a == src@ && b == dest@) by {
                let (i, j) = choose|i: int, j: int|
                    self.is_node_at(i, a) && self.is_node_at(j, b) && #[trigger] self.edge_between(
                        i,
                        j,
                    );
                let k2 = choose|k2: int|
                    0 <= k2 < self.edges@.len() && (#[trigger] self.edges@[k2]).0 == i
                        && self.edges@[k2].1 == j;
                if k2 < self.edges@.len() - 1 {
                    assert(pre.edge_between(i, j)) by {
                        assert(pre.edges@[k2].0 == i && pre.edges@[k2].1 == j);
                    }
                    assert(pre.has_edge(a, b));
                } else {
                    assert(i == s as int && j == d as int);
                    lemma_node_index_unique(pre, s as int, src@);
                    assert(a == pre.node_views()[i]);
                }
            }
            assert forall|a: TargetView, b: TargetView| #[trigger]
                pre.has_edge(a, b) implies self.has_edge(a, b) by {
                let (i, j) = choose|i: int, j: int|
                    pre.is_node_at(i, a) && pre.is_node_at(j, b) && #[trigger] pre.edge_between(
                        i,
                        j,
                    );
                let k2 = choose|k2: int|
                    0 <= k2 < pre.edges@.len() && (#[trigger] pre.edges@[k2]).0 == i
                        && pre.edges@[k2].1 == j;
                assert(self.edges@[k2].0 == i && self.edges@[k2].1 == j);
                assert(self.edge_between(i, j));
            }
            assert(self.model() =~~= insert_edge(pre.model(), src@, dest@)) by {
                assert(self.model().edges =~= insert_edge(pre.model(), src@, dest@).edges);
            }
        }
        Ok(())
    }
}

impl TargetGraph {
    /// The direct successors of `target`: the nodes its outgoing edges
    /// lead to, each exactly once.
    pub fn neighbors(&self, target: &Target) -> (r: Result<Vec<Target>, GraphError>)
        requires
            self.wf(),
        ensures
            match r {
                Ok(ns) => self.has_node(target@) && (forall|b: TargetView|
                    target_views(ns@).contains(b) <==> self.has_edge(target@, b)) && (forall|
                    x: int,
                    y: int,
                |
                    0 <= x < y < ns@.len() ==> ns@[x]@ != ns@[y]@),
                Err(e) => e == GraphError::NodeMissing && !self.has_node(target@),
            },
    {
        let i = match self.find_index(target) {
            Some(i) => i,
            None => {
                return Err(GraphError::NodeMissing);
            },
        };
        let mut ns: Vec<Target> = Vec::new();
        let ghost mut js: Seq<int> = Seq::empty();
        let mut k: usize = 0;
        while k < self.edges.len()
            invariant
                k <= self.edges@.len(),
                self.wf(),
                self.is_node_at(i as int, target@),
                ns@.len() == js.len(),
                forall|x: int|
                    0 <= x < js.len() ==> self.is_node_at(#[trigger] js[x], ns@[x]@) && ns@[x]
                        == self.nodes@[js[x]],
                forall|x: int| 0 <= x < js.len() ==> self.edge_between(i as int, #[trigger] js[x]),
                forall|x: int, y: int| 0 <= x < y < js.len() ==> js[x] != js[y],
                forall|j: int|
                    #![trigger js.contains(j)]
                    (exists|l: int|
                        0 <= l < k && (#[trigger] self.edges@[l]).0 == i && self.edges@[l].1 == j)
                        <==> js.contains(j),
            decreases self.edges@.len() - k,
        {
            let e = self.edges[k];
            if e.0 == i {
                let j = e.1;
                proof {
                    if js.contains(j as int) {
                        let l = choose|l: int|
                            0 <= l < k && (#[trigger] self.edges@[l]).0 == i && self.edges@[l].1
                                == j;
                        assert(self.edges@[l] == self.edges@[k as int]);
                        assert(false);
                    }
                }
                ns.push(self.nodes[j].clone());
                proof {
                    let js0 = js;
                    js = js.push(j as int);
                    assert forall|j2: int| #![trigger js.contains(j2)]
                        (exists|l: int|
                            0 <= l < k + 1 && (#[trigger] self.edges@[l]).0 == i
                                && self.edges@[l].1 == j2) <==> js.contains(j2) by {
                        if js.contains(j2) {
                            let x = choose|x: int| 0 <= x < js.len() && js[x] == j2;
                            if x < js0.len() {
                                assert(js0[x] == j2);
                                assert(js0.contains(j2));
                            } else {
                                assert(self.edges@[k as int].0 == i && self.edges@[k as int].1
                                    == j2);
                            }
                        }
                        if exists|l: int|
                            0 <= l < k + 1 && (#[trigger] self.edges@[l]).0 == i
                                && self.edges@[l].1 == j2 {
                            let l = choose|l: int|
                                0 <= l < k + 1 && (#[trigger] self.edges@[l]).0 == i
                                    && self.edges@[l].1 == j2;
                            if l < k {
                                assert(js0.contains(j2));
                                let x = choose|x: int| 0 <= x < js0.len() && js0[x] == j2;
                                assert(js[x] == j2);
                            } else {
                                assert(js[js.len() - 1] == j2);
                            }
                        }
                    }
                    assert(self.edge_between(i as int, j as int));
                }
            } else {
                proof {
                    assert forall|j2: int| #![trigger js.contains(j2)]
                        (exists|l: int|
                            0 <= l < k + 1 && (#[trigger] self.edges@[l]).0 == i
                                && self.edges@[l].1 == j2) <==> js.contains(j2) by {
                        if exists|l: int|
                            0 <= l < k + 1 && (#[trigger] self.edges@[l]).0 == i
                                && self.edges@[l].1 == j2 {
                            let l = choose|l: int|
                                0 <= l < k + 1 && (#[trigger] self.edges@[l]).0 == i
                                    && self.edges@[l].1 == j2;
                            assert(l < k);
                        }
                    }
                }
            }
            k += 1;
        }
        proof {
            assert forall|x: int, y: int| 0 <= x < y < ns@.len() implies ns@[x]@ != ns@[y]@ by {
                lemma_node_index_unique(*self, js[x], ns@[x]@);
                if ns@[x]@ == ns@[y]@ {
                    assert(self.is_node_at(js[y], ns@[x]@));
                    assert(js[y] == js[x]);
                }
            }
            assert forall|b: TargetView| #[trigger]
                target_views(ns@).contains(b) implies self.has_edge(target@, b) by {
                let x = choose|x: int|
                    0 <= x < target_views(ns@).len() && target_views(ns@)[x] == b;
                assert(self.is_node_at(js[x], b));
                assert(self.edge_between(i as int, js[x]));
            }
            assert forall|b: TargetView| #[trigger]
                self.has_edge(target@, b) implies target_views(ns@).contains(b) by {
                let (i2, j2) = choose|i2: int, j2: int|
                    self.is_node_at(i2, target@) && self.is_node_at(j2, b)
                        && #[trigger] self.edge_between(i2, j2);
                lemma_node_index_unique(*self, i as int, target@);
                assert(i2 == i as int);
                let l = choose|l: int|
                    0 <= l < self.edges@.len() && (#[trigger] self.edges@[l]).0 == i2
                        && self.edges@[l].1 == j2;
                assert(js.contains(j2));
                let x = choose|x: int| 0 <= x < js.len() && js[x] == j2;
                assert(target_views(ns@)[x] == ns@[x]@);
                lemma_node_index_unique(*self, j2, b);
                assert(ns@[x]@ == b);
            }
        }
        Ok(ns)
    }

    /// The reverse-dependency set: every node reachable over outgoing
    /// edges from any of the given start targets, the starts included,
    /// each reachable node exactly once. Fails, returning nothing, when
    /// a start target is not a node of the graph.
    #[verifier::rlimit(50)]
    pub fn rdeps(&self, targets: &Vec<Target>) -> (r: Result<Vec<Target>, GraphError>)
        requires
            self.wf(),
        ensures
            match r {
                Ok(res) => (forall|k: int|
                    0 <= k < targets@.len() ==> self.has_node(#[trigger] targets@[k]@)) && (forall|
                    x: int,
                    y: int,
                |
                    0 <= x < y < res@.len() ==> res@[x]@ != res@[y]@) && (forall|t: TargetView|
                    #![trigger target_views(res@).contains(t)]
                    target_views(res@).contains(t) <==> exists|j: int|
                        self.is_node_at(j, t) && self.reachable_from_any(
                            target_views(targets@),
                            j,
                        )),
                Err(e) => e == GraphError::NodeMissing && exists|k: int|
                    0 <= k < targets@.len() && !self.has_node(#[trigger] targets@[k]@),
            },
    {
        let ghost starts = target_views(targets@);
        let n = self.nodes.len();
        let mut visited: Vec<bool> = Vec::new();
        while visited.len() < n
            invariant
                visited@.len() <= n,
                forall|i: int| 0 <= i < visited@.len() ==> !(#[trigger] visited@[i]),
            decreases n - visited@.len(),
        {
            visited.push(false);
        }
        let mut work: Vec<usize> = Vec::new();
        let mut res: Vec<Target> = Vec::new();
        let ghost mut ris: Seq<int> = Seq::empty();

        // seed the traversal with the start nodes
        let mut k: usize = 0;
        while k < targets.len()
            invariant
                k <= targets@.len(),
                self.wf(),
                n == self.nodes@.len(),
                starts == target_views(targets@),
                forall|k2: int| 0 <= k2 < k ==> self.has_node(#[trigger] targets@[k2]@),
                self.traversal_inv(starts, visited@, work@, res@, ris, None::<int>),
                forall|i: int|
                    0 <= i < n && (exists|k2: int|
                        0 <= k2 < k && targets@[k2]@ == #[trigger] self.node_views()[i])
                        ==> visited@[i],
            decreases targets@.len() - k,
        {
            let t = &targets[k];
            let idx = match self.find_index(t) {
                Some(i) => i,
                None => {
                    return Err(GraphError::NodeMissing);
                },
            };
            let ghost pre_visited = visited@;
            if !visited[idx] {
                proof {
                    lemma_reachable_self(*self, idx as int);
                    assert(starts.contains(self.node_views()[idx as int])) by {
                        assert(starts[k as int] == targets@[k as int]@);
                    }
                    assert(self.reachable_from_any(starts, idx as int));
                    self.lemma_traversal_extend(
                        starts,
                        visited@,
                        work@,
                        res@,
                        ris,
                        idx,
                        None::<int>,
                    );
                }
                visited[idx] = true;
                work.push(idx);
                res.push(self.nodes[idx].clone());
                proof {
                    ris = ris.push(idx as int);
                }
            }
            proof {
                assert forall|i: int|
                    0 <= i < n && (exists|k2: int|
                        0 <= k2 < k + 1 && targets@[k2]@ == #[trigger] self.node_views()[i])
                        implies visited@[i] by {
                    let k2 = choose|k2: int|
                        0 <= k2 < k + 1 && targets@[k2]@ == self.node_views()[i];
                    if k2 < k {
                        assert(pre_visited[i]);
                    } else {
                        lemma_node_index_unique(*self, idx as int, t@);
                        assert(self.is_node_at(i, targets@[k2]@));
                        assert(i == idx as int);
                    }
                }
            }
            k += 1;
        }
        proof {
            assert forall|i: int|
                0 <= i < n && starts.contains(#[trigger] self.node_views()[i])
                    implies visited@[i] by {
                let nv = self.node_views();
                let k2 = choose|k2: int| 0 <= k2 < starts.len() && starts[k2] == nv[i];
                assert(targets@[k2]@ == self.node_views()[i]);
            }
        }

        // walk outgoing edges until no frontier is left
        while work.len() > 0
            invariant
                self.wf(),
                n == self.nodes@.len(),
                starts == target_views(targets@),
                forall|k2: int| 0 <= k2 < targets@.len() ==> self.has_node(#[trigger] targets@[k2]@),
                self.traversal_inv(starts, visited@, work@, res@, ris, None::<int>),
                forall|i: int|
                    0 <= i < n && starts.contains(#[trigger] self.node_views()[i])
                        ==> visited@[i],
            decreases n - count_true(visited@), work@.len(),
        {
            let ghost count0 = count_true(visited@);
            let ghost work0 = work@;
            let i = work.pop().unwrap();
            proof {
                lemma_count_true_bound(visited@);
                assert forall|i2: int, j: int|
                    0 <= i2 < n && visited@[i2] && !work_has(work@, i2) && Some(i2) != Some(
                        i as int,
                    ) && #[trigger] self.edge_between(i2, j) && 0 <= j < n implies visited@[j] by {
                    assert(!work_has(work0, i2)) by {
                        if work_has(work0, i2) {
                            let x = choose|x: int|
                                0 <= x < work0.len() && (#[trigger] work0[x]) as int == i2;
                            if x < work0.len() - 1 {
                                assert(work@[x] == work0[x]);
                                assert(work_has(work@, i2));
                            } else {
                                assert(work0[x] == i);
                            }
                        }
                    }
                }
            }
            let mut k: usize = 0;
            while k < self.edges.len()
                invariant
                    k <= self.edges@.len(),
                    self.wf(),
                    n == self.nodes@.len(),
                    starts == target_views(targets@),
                    forall|k2: int|
                        0 <= k2 < targets@.len() ==> self.has_node(#[trigger] targets@[k2]@),
                    i < n,
                    visited@[i as int],
                    self.traversal_inv(starts, visited@, work@, res@, ris, Some(i as int)),
                    forall|i2: int|
                        0 <= i2 < n && starts.contains(#[trigger] self.node_views()[i2])
                            ==> visited@[i2],
                    forall|j: int|
                        (exists|l: int|
                            0 <= l < k && (#[trigger] self.edges@[l]).0 == i && self.edges@[l].1
                                == j) ==> 0 <= j < n && visited@[j],
                    count_true(visited@) - count0 == work@.len() - (work0.len() - 1),
                    count0 <= count_true(visited@),
                decreases self.edges@.len() - k,
            {
                let ghost pre_visited = visited@;
                let e = self.edges[k];
                if e.0 == i {
                    let j = e.1;
                    if !visited[j] {
                        proof {
                            assert(self.edge_between(i as int, j as int)) by {
                                assert((#[trigger] self.edges@[k as int]).0 == i
                                    && self.edges@[k as int].1 == j);
                            }
                            assert(self.reachable_from_any(starts, i as int));
                            let s0 = choose|s0: int|
                                #![trigger self.reachable_between(s0, i as int)]
                                0 <= s0 < self.nodes@.len() && starts.contains(
                                    self.node_views()[s0],
                                ) && self.reachable_between(s0, i as int);
                            lemma_reachable_step(*self, s0, i as int, j as int);
                            assert(self.reachable_from_any(starts, j as int));
                            lemma_count_true_update(visited@, j as int);
                            self.lemma_traversal_extend(
                                starts,
                                visited@,
                                work@,
                                res@,
                                ris,
                                j,
                                Some(i as int),
                            );
                        }
                        visited[j] = true;
                        work.push(j);
                        res.push(self.nodes[j].clone());
                        proof {
                            ris = ris.push(j as int);
                        }
                    }
                }
                proof {
                    assert forall|j2: int|
                        (exists|l: int|
                            0 <= l < k + 1 && (#[trigger] self.edges@[l]).0 == i
                                && self.edges@[l].1 == j2) implies 0 <= j2 < n
                        && visited@[j2] by {
                        let l = choose|l: int|
                            0 <= l < k + 1 && (#[trigger] self.edges@[l]).0 == i
                                && self.edges@[l].1 == j2;
                        if l < k {
                            assert(pre_visited[j2]);
                        } else {
                            assert(j2 == self.edges@[k as int].1);
                        }
                    }
                }
                k += 1;
            }
            proof {
                // all successors of `i` are visited now, so the
                // closedness clause holds again without exception
                assert forall|i2: int, j: int|
                    0 <= i2 < n && visited@[i2] && !work_has(work@, i2) && None::<int> != Some(i2)
                        && #[trigger] self.edge_between(i2, j) && 0 <= j < n implies visited@[j] by {
                    if i2 == i as int {
                        let l = choose|l: int|
                            0 <= l < self.edges@.len() && (#[trigger] self.edges@[l]).0 == i2
                                && self.edges@[l].1 == j;
                    }
                }
                lemma_count_true_bound(visited@);
            }
        }

        proof {
            // with an empty frontier the visited set is closed, so it
            // holds everything reachable; soundness gives the converse
            assert forall|t: TargetView|
                #![trigger target_views(res@).contains(t)]
                target_views(res@).contains(t) <==> exists|j: int|
                    self.is_node_at(j, t) && self.reachable_from_any(starts, j) by {
                if target_views(res@).contains(t) {
                    let x = choose|x: int|
                        0 <= x < target_views(res@).len() && target_views(res@)[x] == t;
                    assert(self.is_node_at(ris[x], t));
                    assert(visited@[ris[x]]);
                    assert(self.reachable_from_any(starts, ris[x]));
                }
                if exists|j: int| self.is_node_at(j, t) && self.reachable_from_any(starts, j) {
                    let j = choose|j: int|
                        self.is_node_at(j, t) && #[trigger] self.reachable_from_any(starts, j);
                    let s0 = choose|s0: int|
                        #![trigger self.reachable_between(s0, j)]
                        0 <= s0 < self.nodes@.len() && starts.contains(self.node_views()[s0])
                            && self.reachable_between(s0, j);
                    let p = choose|p: Seq<int>|
                        self.is_index_path(p) && p.first() == s0 && p.last() == j;
                    self.lemma_closed_reaches(visited@, p);
                    assert(visited@[j]);
                    assert(ris.contains(j));
                    let x = choose|x: int| 0 <= x < ris.len() && ris[x] == j;
                    assert(target_views(res@)[x] == res@[x]@);
                    assert(target_views(res@).contains(t)) by {
                        assert(target_views(res@)[x] == t);
                    }
                }
            }
            assert forall|x: int, y: int| 0 <= x < y < res@.len() implies res@[x]@ != res@[y]@ by {
                lemma_node_index_unique(*self, ris[x], res@[x]@);
                assert(self.is_node_at(ris[y], res@[y]@));
            }
        }
        Ok(res)
    }

    /// The traversal invariant: the worklist holds visited nodes, the
    /// result mirrors the visited set exactly once per node, every
    /// visited node is reachable from the starts, and every visited
    /// node off the worklist already has all its successors visited —
    /// except the node `cur` whose successors are being walked.
    pub open spec fn traversal_inv(
        self,
        starts: Seq<TargetView>,
        visited: Seq<bool>,
        work: Seq<usize>,
        res: Seq<Target>,
        ris: Seq<int>,
        cur: Option<int>,
    ) -> bool {
        &&& visited.len() == self.nodes@.len()
        &&& forall|x: int|
            0 <= x < work.len() ==> (#[trigger] work[x]) < self.nodes@.len() && visited[work[x] as int]
        &&& res.len() == ris.len()
        &&& forall|x: int|
            0 <= x < ris.len() ==> 0 <= #[trigger] ris[x] < self.nodes@.len() && res[x]
                == self.nodes@[ris[x]] && visited[ris[x]]
        &&& forall|x: int, y: int| 0 <= x < y < ris.len() ==> ris[x] != ris[y]
        &&& forall|i: int| 0 <= i < self.nodes@.len() && #[trigger] visited[i] ==> ris.contains(i)
        &&& forall|i: int|
            0 <= i < self.nodes@.len() && #[trigger] visited[i] ==> self.reachable_from_any(
                starts,
                i,
            )
        &&& forall|i: int, j: int|
            0 <= i < self.nodes@.len() && visited[i] && !work_has(work, i) && Some(i) != cur
                && #[trigger] self.edge_between(i, j) && 0 <= j < self.nodes@.len() ==> visited[j]
    }

    /// Marking a fresh reachable node, pushing it on the worklist and
    /// appending it to the result preserves the traversal invariant.
    proof fn lemma_traversal_extend(
        self,
        starts: Seq<TargetView>,
        visited: Seq<bool>,
        work: Seq<usize>,
        res: Seq<Target>,
        ris: Seq<int>,
        idx: usize,
        cur: Option<int>,
    )
        requires
            self.wf(),
            self.traversal_inv(starts, visited, work, res, ris, cur),
            (idx as int) < self.nodes@.len(),
            !visited[idx as int],
            self.reachable_from_any(starts, idx as int),
        ensures
            self.traversal_inv(
                starts,
                visited.update(idx as int, true),
                work.push(idx),
                res.push(self.nodes@[idx as int]),
                ris.push(idx as int),
                cur,
            ),
    {
        let visited2 = visited.update(idx as int, true);
        let work2 = work.push(idx);
        let res2 = res.push(self.nodes@[idx as int]);
        let ris2 = ris.push(idx as int);
        assert forall|x: int| 0 <= x < work2.len() implies (#[trigger] work2[x])
            < self.nodes@.len() && visited2[work2[x] as int] by {
            if x < work.len() {
                assert(work[x] == work2[x]);
            }
        }
        assert forall|x: int|
            0 <= x < ris2.len() implies 0 <= #[trigger] ris2[x] < self.nodes@.len() && res2[x]
            == self.nodes@[ris2[x]] && visited2[ris2[x]] by {
            if x < ris.len() {
                assert(ris2[x] == ris[x] && res2[x] == res[x]);
            }
        }
        assert forall|x: int, y: int| 0 <= x < y < ris2.len() implies ris2[x] != ris2[y] by {
            if y < ris.len() {
                assert(ris2[x] == ris[x] && ris2[y] == ris[y]);
            } else {
                assert(ris2[x] == ris[x]);
                assert(visited[ris[x]]);
            }
        }
        assert forall|i: int|
            0 <= i < self.nodes@.len() && #[trigger] visited2[i] implies ris2.contains(i) by {
            if i != idx as int {
                assert(visited[i]);
                assert(ris.contains(i));
                let x = choose|x: int| 0 <= x < ris.len() && ris[x] == i;
                assert(ris2[x] == i);
            } else {
                assert(ris2[ris2.len() - 1] == i);
            }
        }
        assert forall|i: int, j: int|
            0 <= i < self.nodes@.len() && visited2[i] && !work_has(work2, i) && Some(i) != cur
                && #[trigger] self.edge_between(i, j) && 0 <= j
                < self.nodes@.len() implies visited2[j] by {
            assert(i != idx as int) by {
                if i == idx as int {
                    assert(work2[work2.len() - 1] as int == i);
                    assert(work_has(work2, i));
                }
            }
            assert(visited[i]);
            assert(!work_has(work, i)) by {
                if work_has(work, i) {
                    let x = choose|x: int| 0 <= x < work.len() && (#[trigger] work[x]) as int == i;
                    assert(work2[x] as int == i);
                    assert(work_has(work2, i));
                }
            }
        }
    }
    proof fn lemma_closed_reaches(self, visited: Seq<bool>, p: Seq<int>)
        requires
            visited.len() == self.nodes@.len(),
            self.is_index_path(p),
            visited[p.first()],
            forall|i: int, j: int|
                0 <= i < self.nodes@.len() && visited[i] && #[trigger] self.edge_between(i, j) && 0
                    <= j < self.nodes@.len() ==> visited[j],
        ensures
            visited[p.last()],
        decreases p.len(),
    {
        if p.len() > 1 {
            assert(self.edge_between(p[0], p[1]));
            assert(visited[p[1]]);
            let q = p.drop_first();
            assert forall|x: int| 0 <= x < q.len() implies 0 <= #[trigger] q[x]
                < self.nodes@.len() by {
                assert(q[x] == p[x + 1]);
            }
            assert forall|x: int| 0 <= x < q.len() - 1 implies self.edge_between(
                #[trigger] q[x],
                q[x + 1],
            ) by {
                assert(q[x] == p[x + 1] && q[x + 1] == p[x + 2]);
            }
            self.lemma_closed_reaches(visited, q);
        }
    }
}

/// The textual form of one node identity, `name:flavor`.
pub open spec fn spec_render_target(t: TargetView) -> Seq<char> {
    t.name + seq![':'] + t.flavor
}

/// Pieces joined with a comma and a space between them.
pub open spec fn joined_comma(parts: Seq<Seq<char>>) -> Seq<char>
    decreases parts.len(),
{
    if parts.len() == 0 {
        Seq::empty()
    } else if parts.len() == 1 {
        parts[0]
    } else {
        joined_comma(parts.drop_last()) + seq![',', ' '] + parts.last()
    }
}

impl TargetGraph {
    /// The rendered identities that the first `upto` edges lead to out
    /// of node `i`, in edge order.
    pub open spec fn succ_renders(self, i: int, upto: int) -> Seq<Seq<char>>
        decreases upto,
    {
        if upto <= 0 {
            Seq::empty()
        } else {
            let rest = self.succ_renders(i, upto - 1);
            let e = self.edges@[upto - 1];
            if e.0 == i {
                rest.push(spec_render_target(self.node_views()[e.1 as int]))
            } else {
                rest
            }
        }
    }

    /// One line of the rendering: the node, an arrow, and its direct
    /// successors between brackets.
    pub open spec fn spec_render_line(self, i: int) -> Seq<char> {
        spec_render_target(self.node_views()[i]) + seq![' ', '-', '>', ' ', '[']
            + joined_comma(self.succ_renders(i, self.edges@.len() as int)) + seq![']', '\n']
    }

    /// The rendering of the first `upto` nodes, one line each.
    pub open spec fn spec_render(self, upto: int) -> Seq<char>
        decreases upto,
    {
        if upto <= 0 {
            Seq::empty()
        } else {
            self.spec_render(upto - 1) + self.spec_render_line(upto - 1)
        }
    }

    /// A textual rendering listing, for every node, its direct
    /// outgoing neighbors: a debugging aid, not a stable interchange
    /// format.
    pub fn render(&self) -> (r: String)
        requires
            self.wf(),
        ensures
            r@ == self.spec_render(self.nodes@.len() as int),
    {
        proof {
            reveal_strlit(" -> [");
            reveal_strlit("]\n");
            reveal_strlit(", ");
        }
        let mut out = String::new();
        let mut i: usize = 0;
        proof {
            assert(out@ =~= self.spec_render(0));
        }
        while i < self.nodes.len()
            invariant
                i <= self.nodes@.len(),
                self.wf(),
                out@ == self.spec_render(i as int),
                " -> ["@ == seq![' ', '-', '>', ' ', '['],
                "]\n"@ == seq![']', '\n'],
                ", "@ == seq![',', ' '],
            decreases self.nodes@.len() - i,
        {
            let head = self.nodes[i].render();
            out.append(head.as_str());
            out.append(" -> [");
            let ghost line_start = out@;
            let mut k: usize = 0;
            let mut first = true;
            while k < self.edges.len()
                invariant
                    k <= self.edges@.len(),
                    i < self.nodes@.len(),
                    self.wf(),
                    first == (self.succ_renders(i as int, k as int).len() == 0),
                    out@ == line_start + joined_comma(self.succ_renders(i as int, k as int)),
                    ", "@ == seq![',', ' '],
                decreases self.edges@.len() - k,
            {
                let ghost sr = self.succ_renders(i as int, k as int);
                let e = self.edges[k];
                if e.0 == i {
                    if !first {
                        out.append(", ");
                    }
                    let n = self.nodes[e.1].render();
                    out.append(n.as_str());
                    first = false;
                    proof {
                        let sr2 = self.succ_renders(i as int, k + 1);
                        assert(sr2 == sr.push(spec_render_target(self.node_views()[e.1 as int])));
                        if sr.len() == 0 {
                            assert(joined_comma(sr2) =~= sr2[0]);
                            assert(out@ =~= line_start + joined_comma(sr2));
                        } else {
                            assert(sr2.drop_last() =~= sr);
                            assert(out@ =~= line_start + joined_comma(sr2));
                        }
                    }
                }
                k += 1;
            }
            out.append("]\n");
            proof {
                assert(out@ =~= self.spec_render(i + 1));
            }
            i += 1;
        }
        out
    }
}

/// Law: the reverse-dependency set is reflexive. Every node whose
/// identity is among the starts is itself reachable, so `rdeps` always
/// returns the start nodes themselves.
pub proof fn lemma_rdeps_reflexive(g: TargetGraph, starts: Seq<TargetView>, i: int)
    requires
        0 <= i < g.nodes@.len(),
        starts.contains(g.node_views()[i]),
    ensures
        g.reachable_from_any(starts, i),
{
    lemma_reachable_self(g, i);
}

/// Law: a node with no outgoing edges reaches nothing but itself, so
/// its reverse-dependency set is exactly the node alone.
pub proof fn lemma_rdeps_of_sink(g: TargetGraph, t: TargetView, j: int)
    requires
        g.wf(),
        g.is_node_at(j, t),
        forall|x: int| !g.edge_between(j, x),
    ensures
        forall|x: int| g.reachable_from_any(seq![t], x) <==> x == j,
{
    assert forall|x: int| g.reachable_from_any(seq![t], x) implies x == j by {
        let i = choose|i: int|
            #![trigger g.reachable_between(i, x)]
            0 <= i < g.nodes@.len() && seq![t].contains(g.node_views()[i]) && g.reachable_between(
                i,
                x,
            );
        assert(g.node_views()[i] == t) by {
            let w = choose|w: int| 0 <= w < seq![t].len() && seq![t][w] == g.node_views()[i];
        }
        lemma_node_index_unique(g, j, t);
        assert(i == j);
        let p = choose|p: Seq<int>| g.is_index_path(p) && p.first() == i && p.last() == x;
        if p.len() > 1 {
            assert(g.edge_between(p[0], p[1]));
        }
    }
    assert forall|x: int| x == j implies g.reachable_from_any(seq![t], x) by {
        lemma_reachable_self(g, j);
        assert(seq![t].contains(g.node_views()[j])) by {
            assert(seq![t][0] == t);
        }
    }
}

/// Whether the worklist holds the node index `i`.
pub open spec fn work_has(work: Seq<usize>, i: int) -> bool {
    exists|x: int| 0 <= x < work.len() && (#[trigger] work[x]) as int == i
}

/// How many entries of `s` are true.
pub open spec fn count_true(s: Seq<bool>) -> int
    decreases s.len(),
{
    if s.len() == 0 {
        0int
    } else {
        count_true(s.drop_last()) + if s.last() {
            1int
        } else {
            0int
        }
    }
}

proof fn lemma_count_true_bound(s: Seq<bool>)
    ensures
        0 <= count_true(s) <= s.len(),
    decreases s.len(),
{
    if s.len() > 0 {
        lemma_count_true_bound(s.drop_last());
    }
}

proof fn lemma_count_true_update(s: Seq<bool>, i: int)
    requires
        0 <= i < s.len(),
        !s[i],
    ensures
        count_true(s.update(i, true)) == count_true(s) + 1,
    decreases s.len(),
{
    let s2 = s.update(i, true);
    if i == s.len() - 1 {
        assert(s2.drop_last() =~= s.drop_last());
    } else {
        assert(s2.drop_last() =~= s.drop_last().update(i, true));
        lemma_count_true_update(s.drop_last(), i);
    }
}

/// Every node reaches itself by the trivial path.
proof fn lemma_reachable_self(g: TargetGraph, i: int)
    requires
        0 <= i < g.nodes@.len(),
    ensures
        g.reachable_between(i, i),
{
    let p = seq![i];
    assert(g.is_index_path(p));
    assert(p.first() == i && p.last() == i);
}

/// A path extended along an edge is still a path.
proof fn lemma_reachable_step(g: TargetGraph, s0: int, i: int, j: int)
    requires
        g.reachable_between(s0, i),
        g.edge_between(i, j),
        0 <= j < g.nodes@.len(),
    ensures
        g.reachable_between(s0, j),
{
    let p = choose|p: Seq<int>| g.is_index_path(p) && p.first() == s0 && p.last() == i;
    let q = p.push(j);
    assert forall|x: int| 0 <= x < q.len() - 1 implies g.edge_between(
        #[trigger] q[x],
        q[x + 1],
    ) by {
        if x < p.len() - 1 {
            assert(q[x] == p[x] && q[x + 1] == p[x + 1]);
        } else {
            assert(q[x] == p.last() && q[x + 1] == j);
        }
    }
    assert(g.is_index_path(q));
    assert(q.first() == s0 && q.last() == j);
}

/// With distinct node identities, only one index carries a given one.
proof fn lemma_node_index_unique(g: TargetGraph, i: int, t: TargetView)
    requires
        g.wf(),
        g.is_node_at(i, t),
    ensures
        forall|j: int| g.is_node_at(j, t) ==> j == i,
{
    assert forall|j: int| g.is_node_at(j, t) implies j == i by {
        if j != i {
            if i < j {
                assert(g.node_views()[i] != g.node_views()[j]);
            } else {
                assert(g.node_views()[j] != g.node_views()[i]);
            }
        }
    }
}

/// Two graphs with the same nodes and edges relate the same
/// identities.
proof fn lemma_same_edges_identities(g1: TargetGraph, g2: TargetGraph)
    requires
        g1.wf(),
        forall|k: int|
            0 <= k < g1.edges@.len() ==> (#[trigger] g1.edges@[k]).0 < g1.nodes@.len()
                && g1.edges@[k].1 < g1.nodes@.len(),
        g2.edges@ == g1.edges@,
        g2.nodes@.len() >= g1.nodes@.len(),
        forall|i: int|
            0 <= i < g1.nodes@.len() ==> g2.node_views()[i] == #[trigger] g1.node_views()[i],
    ensures
        forall|a: TargetView, b: TargetView| g1.has_edge(a, b) <==> #[trigger] g2.has_edge(a, b),
{
    assert forall|a: TargetView, b: TargetView| #[trigger]
        g2.has_edge(a, b) implies g1.has_edge(a, b) by {
        let (i, j) = choose|i: int, j: int|
            g2.is_node_at(i, a) && g2.is_node_at(j, b) && #[trigger] g2.edge_between(i, j);
        let k = choose|k: int|
            0 <= k < g2.edges@.len() && (#[trigger] g2.edges@[k]).0 == i && g2.edges@[k].1 == j;
        assert(g1.edges@[k].0 == i && g1.edges@[k].1 == j);
        assert(i < g1.nodes@.len() && j < g1.nodes@.len());
        assert(g1.is_node_at(i, a) && g1.is_node_at(j, b));
        assert(g1.edge_between(i, j));
    }
    assert forall|a: TargetView, b: TargetView| #[trigger]
        g1.has_edge(a, b) implies g2.has_edge(a, b) by {
        let (i, j) = choose|i: int, j: int|
            g1.is_node_at(i, a) && g1.is_node_at(j, b) && #[trigger] g1.edge_between(i, j);
        let k = choose|k: int|
            0 <= k < g1.edges@.len() && (#[trigger] g1.edges@[k]).0 == i && g1.edges@[k].1 == j;
        assert(g2.edges@[k].0 == i && g2.edges@[k].1 == j);
        assert(g2.is_node_at(i, a) && g2.is_node_at(j, b));
        assert(g2.edge_between(i, j));
    }
}

} // verus!
