use crate::error::DagError;
use crate::iters;
use crate::iters::ChildrenIter;
use crate::iters::EdgesIter;
use crate::iters::ParentsIter;
use crate::keyseq;
use crate::paths;
use std::collections::BTreeMap;
use std::collections::BTreeSet;
use vstd::prelude::*;

verus! {

broadcast use vstd::std_specs::btree::group_btree_axioms, vstd::laws_cmp::group_laws_cmp;

/// A directed acyclic graph.
///
/// Nodes are identified by `u64` values and carry a `NodeData` payload;
/// edges carry an `EdgeData` payload. Edges live in the forward index
/// `edges`; the backward index `back_edges` mirrors them without payloads,
/// so parents can be enumerated without scanning. Every operation keeps the
/// three indices consistent and the edge relation free of cycles.
#[derive(Debug)]
pub struct Dag<NodeData, EdgeData> {
    nodes: BTreeMap<u64, NodeData>,
    edges: BTreeMap<u64, BTreeMap<u64, EdgeData>>,
    back_edges: BTreeMap<u64, BTreeSet<u64>>,
}

impl<NodeData, EdgeData> Dag<NodeData, EdgeData> {
    /// The node payloads, as a map from identifier to payload.
    pub closed spec fn nodes_map(self) -> Map<u64, NodeData> {
        self.nodes@
    }

    /// The forward index: source identifier to (target identifier to payload).
    pub closed spec fn edge_map(self) -> Map<u64, Map<u64, EdgeData>> {
        Map::new(|k: u64| self.edges@.contains_key(k), |k: u64| self.edges@[k]@)
    }

    /// The backward index: target identifier to the set of its sources.
    pub closed spec fn back_map(self) -> Map<u64, Set<u64>> {
        Map::new(|k: u64| self.back_edges@.contains_key(k), |k: u64| self.back_edges@[k]@)
    }

    /// The identifier names a node of the graph.
    pub open spec fn has_node(self, id: u64) -> bool {
        self.nodes_map().contains_key(id)
    }

    /// The edge (`from`, `to`) is present in the forward index.
    pub open spec fn has_edge(self, from: u64, to: u64) -> bool {
        self.edge_map().contains_key(from) && self.edge_map()[from].contains_key(to)
    }

    /// The payload stored on the edge (`from`, `to`).
    pub open spec fn edge_payload(self, from: u64, to: u64) -> EdgeData
        recommends
            self.has_edge(from, to),
    {
        self.edge_map()[from][to]
    }

    /// The identifiers that `id` has an edge to.
    pub open spec fn children_of(self, id: u64) -> Set<u64> {
        if self.edge_map().contains_key(id) {
            self.edge_map()[id].dom()
        } else {
            Set::empty()
        }
    }

    /// The identifiers that have an edge to `id`.
    pub open spec fn parents_of(self, id: u64) -> Set<u64> {
        if self.back_map().contains_key(id) {
            self.back_map()[id]
        } else {
            Set::empty()
        }
    }

    /// The edge relation alone, with payloads forgotten.
    pub open spec fn succ(self) -> Map<u64, Set<u64>> {
        Map::new(
            |k: u64| self.edge_map().contains_key(k),
            |k: u64| self.edge_map()[k].dom(),
        )
    }

    /// The invariant every reachable `Dag` value satisfies: the three
    /// indices key exactly the node identifiers, the backward index mirrors
    /// the forward one, and the edge relation has no cycle.
    pub open spec fn wf(self) -> bool {
        &&& self.edge_map().dom() == self.nodes_map().dom()
        &&& self.back_map().dom() == self.nodes_map().dom()
        &&& forall|f: u64, t: u64| #[trigger]
            self.has_edge(f, t) ==> self.parents_of(t).contains(f)
        &&& forall|f: u64, t: u64|
            self.back_map().contains_key(t) && #[trigger] self.back_map()[t].contains(f)
                ==> self.has_edge(f, t)
        &&& !paths::has_cycle(self.succ())
    }

    /// Create an empty graph.
    pub fn new() -> (dag: Self)
        ensures
            dag.wf(),
            dag.nodes_map() == Map::<u64, NodeData>::empty(),
            dag.edge_map() == Map::<u64, Map<u64, EdgeData>>::empty(),
            dag.back_map() == Map::<u64, Set<u64>>::empty(),
    {
        let dag = Dag {
            nodes: BTreeMap::new(),
            edges: BTreeMap::new(),
            back_edges: BTreeMap::new(),
        };
        proof {
            assert(dag.edge_map() =~= Map::<u64, Map<u64, EdgeData>>::empty());
            assert(dag.back_map() =~= Map::<u64, Set<u64>>::empty());
            assert(dag.edge_map().dom() =~= dag.nodes_map().dom());
            assert(dag.back_map().dom() =~= dag.nodes_map().dom());
            if paths::has_cycle(dag.succ()) {
                let p = choose|p: Seq<u64>|
                    paths::is_path(dag.succ(), p) && p.len() >= 2 && p.first() == p.last();
                assert(!paths::edge_in(dag.succ(), p[0], p[1]));
            }
        }
        dag
    }

    /// Is `node_id` a node of the graph?
    pub fn contains_node(&self, node_id: u64) -> (present: bool)
        ensures
            present == self.has_node(node_id),
    {
        self.nodes.contains_key(&node_id)
    }

    /// Is the edge (`from`, `to`) in the graph? Absent endpoints are not an
    /// error: the answer is simply `false`.
    pub fn contains_edge(&self, from: u64, to: u64) -> (present: bool)
        ensures
            present == self.has_edge(from, to),
    {
        if let Some(children) = self.edges.get(&from) {
            children.contains_key(&to)
        } else {
            false
        }
    }

    /// The number of nodes.
    pub fn nodes_len(&self) -> (n: usize)
        ensures
            n == self.nodes_map().dom().len(),
    {
        self.nodes.len()
    }

    /// Borrow the payload of node `node_id`, or `None` if there is no such
    /// node.
    pub fn get_node(&self, node_id: u64) -> (r: Option<&NodeData>)
        ensures
            match r {
                Some(d) => self.has_node(node_id) && *d == self.nodes_map()[node_id],
                None => !self.has_node(node_id),
            },
    {
        self.nodes.get(&node_id)
    }

    /// Insert a node, or replace its payload if it already exists; edges of
    /// a pre-existing node are untouched. Returns the prior payload, if any.
    pub fn insert_node(&mut self, node_id: u64, node_data: NodeData) -> (prev: Option<NodeData>)
        requires
            old(self).wf(),
        ensures
            final(self).wf(),
            final(self).nodes_map() == old(self).nodes_map().insert(node_id, node_data),
            old(self).has_node(node_id) ==> {
                &&& final(self).edge_map() == old(self).edge_map()
                &&& final(self).back_map() == old(self).back_map()
                &&& prev == Some(old(self).nodes_map()[node_id])
            },
            !old(self).has_node(node_id) ==> {
                &&& final(self).edge_map() == old(self).edge_map().insert(
                    node_id,
                    Map::<u64, EdgeData>::empty(),
                )
                &&& final(self).back_map() == old(self).back_map().insert(
                    node_id,
                    Set::<u64>::empty(),
                )
                &&& prev is None
            },
    {
        let ghost pre = *self;
        if !self.edges.contains_key(&node_id) {
            self.edges.insert(node_id, BTreeMap::new());
        }
        if !self.back_edges.contains_key(&node_id) {
            self.back_edges.insert(node_id, BTreeSet::new());
        }
        let prev = self.nodes.insert(node_id, node_data);
        proof {
            if pre.has_node(node_id) {
                assert(pre.edges@.contains_key(node_id));
                assert(pre.back_edges@.contains_key(node_id));
                assert(self.edge_map() =~= pre.edge_map());
                assert(self.back_map() =~= pre.back_map());
                assert(self.succ() =~= pre.succ());
            } else {
                assert(self.edge_map() =~= pre.edge_map().insert(
                    node_id,
                    Map::<u64, EdgeData>::empty(),
                ));
                assert(self.back_map() =~= pre.back_map().insert(node_id, Set::<u64>::empty()));
                assert forall|a: u64, b: u64| #[trigger]
                    paths::edge_in(self.succ(), a, b) implies paths::edge_in(
                    pre.succ(),
                    a,
                    b,
                ) by {
                    assert(a != node_id);
                }
                paths::lemma_acyclic_subgraph(pre.succ(), self.succ());
            }
            assert(self.edge_map().dom() =~= self.nodes_map().dom());
            assert(self.back_map().dom() =~= self.nodes_map().dom());
            assert(self.nodes_map() =~= pre.nodes_map().insert(node_id, node_data));
            assert forall|f: u64, t: u64| #[trigger] self.has_edge(f, t) implies self.parents_of(
                t,
            ).contains(f) by {
                assert(pre.has_edge(f, t));
            }
            assert forall|f: u64, t: u64|
                self.back_map().contains_key(t) && #[trigger] self.back_map()[t].contains(
                    f,
                ) implies self.has_edge(f, t) by {
                if t != node_id || pre.has_node(node_id) {
                    assert(pre.back_map()[t].contains(f));
                }
            }
        }
        prev
    }

    /// Edges of the payload-free relation are exactly the edges of the
    /// forward index.
    proof fn lemma_edge_in_succ(self, a: u64, b: u64)
        ensures
            paths::edge_in(self.succ(), a, b) <==> self.has_edge(a, b),
    {
    }

    /// Whatever is reachable from anywhere is a node, except possibly the
    /// starting point itself.
    proof fn lemma_reachable_in_dom(self, start: u64, x: u64)
        requires
            self.wf(),
            paths::connected(self.succ(), start, x),
        ensures
            x == start || self.nodes_map().dom().contains(x),
    {
        let g = self.succ();
        let p = choose|p: Seq<u64>| paths::is_path(g, p) && p.first() == start && p.last() == x;
        if p.len() == 1 {
        } else {
            let n = p.len() as int;
            assert(paths::edge_in(g, p[n - 2], p[n - 1]));
            self.lemma_edge_in_succ(p[n - 2], x);
            assert(self.has_edge(p[n - 2], x));
            assert(self.parents_of(x).contains(p[n - 2]));
        }
    }

    /// Every identifier reachable from `start` along forward edges,
    /// including `start` itself, collected by depth-first traversal.
    fn reachable_set(&self, start: u64) -> (visited: BTreeSet<u64>)
        requires
            self.wf(),
        ensures
            forall|x: u64|
                #[trigger] visited@.contains(x) <==> paths::connected(self.succ(), start, x),
    {
        let ghost g = self.succ();
        let mut visited: BTreeSet<u64> = BTreeSet::new();
        let mut stack: Vec<u64> = Vec::new();
        stack.push(start);
        proof {
            paths::lemma_connected_refl(g, start);
            assert(stack@[0] == start);
        }
        while stack.len() > 0
            invariant
                self.wf(),
                g == self.succ(),
                forall|x: u64| #[trigger]
                    visited@.contains(x) ==> paths::connected(g, start, x),
                forall|i: int|
                    0 <= i < stack@.len() ==> paths::connected(g, start, #[trigger] stack@[i]),
                visited@.contains(start) || stack@.contains(start),
                forall|x: u64, y: u64|
                    visited@.contains(x) && #[trigger] paths::edge_in(g, x, y)
                        ==> visited@.contains(y) || stack@.contains(y),
                visited@.subset_of(self.nodes_map().dom().insert(start)),
                visited@.finite(),
                visited@.len() <= self.nodes_map().dom().len() + 1,
            decreases self.nodes_map().dom().len() + 1 - visited@.len(), stack@.len(),
        {
            let ghost old_visited = visited@;
            let ghost old_stack = stack@;
            let top = stack.pop().unwrap();
            let ghost popped = stack@;
            assert(old_stack == popped.push(top));
            assert(paths::connected(g, start, top));
            if !visited.contains(&top) {
                visited.insert(top);
                proof {
                    self.lemma_reachable_in_dom(start, top);
                    assert(visited@ =~= old_visited.insert(top));
                    assert(visited@.subset_of(self.nodes_map().dom().insert(start)));
                    vstd::set_lib::lemma_len_subset(
                        visited@,
                        self.nodes_map().dom().insert(start),
                    );
                }
                let mut ids: Vec<u64> = match self.edges.get(&top) {
                    Some(ch) => keyseq::keys_vec(ch),
                    None => Vec::new(),
                };
                let ghost ids_seq = ids@;
                proof {
                    assert forall|n: int| 0 <= n < ids_seq.len() implies paths::edge_in(
                        g,
                        top,
                        #[trigger] ids_seq[n],
                    ) by {
                        assert(ids_seq.to_set().contains(ids_seq[n]));
                    }
                }
                stack.append(&mut ids);
                proof {
                    assert(stack@ == popped + ids_seq);
                    assert forall|i: int|
                        0 <= i < stack@.len() implies paths::connected(
                        g,
                        start,
                        #[trigger] stack@[i],
                    ) by {
                        if i < popped.len() {
                            assert(old_stack[i] == stack@[i]);
                        } else {
                            assert(stack@[i] == ids_seq[i - popped.len()]);
                            paths::lemma_connected_step(g, start, top, stack@[i]);
                        }
                    }
                    assert forall|x: u64, y: u64|
                        visited@.contains(x) && #[trigger] paths::edge_in(g, x, y)
                            implies visited@.contains(y) || stack@.contains(y) by {
                        if x == top {
                            assert(ids_seq.to_set().contains(y));
                            let n = choose|n: int| 0 <= n < ids_seq.len() && ids_seq[n] == y;
                            assert(stack@[popped.len() + n] == y);
                        } else {
                            assert(old_visited.contains(x));
                            if old_stack.contains(y) {
                                let i = choose|i: int|
                                    0 <= i < old_stack.len() && old_stack[i] == y;
                                if i < popped.len() {
                                    assert(stack@[i] == y);
                                } else {
                                    assert(y == top);
                                }
                            }
                        }
                    }
                    if !visited@.contains(start) {
                        assert(old_stack.contains(start));
                        let i = choose|i: int| 0 <= i < old_stack.len() && old_stack[i] == start;
                        if i < popped.len() {
                            assert(stack@[i] == start);
                        }
                    }
                }
            } else {
                proof {
                    assert forall|x: u64, y: u64|
                        visited@.contains(x) && #[trigger] paths::edge_in(g, x, y)
                            implies visited@.contains(y) || stack@.contains(y) by {
                        if old_stack.contains(y) {
                            let i = choose|i: int| 0 <= i < old_stack.len() && old_stack[i] == y;
                            if i < popped.len() {
                                assert(stack@[i] == y);
                            } else {
                                assert(y == top);
                            }
                        }
                    }
                    if !visited@.contains(start) {
                        assert(old_stack.contains(start));
                        let i = choose|i: int| 0 <= i < old_stack.len() && old_stack[i] == start;
                        if i < popped.len() {
                            assert(stack@[i] == start);
                        } else {
                            assert(start == top);
                        }
                    }
                }
            }
        }
        proof {
            assert(visited@.contains(start));
            assert forall|x: u64|
                paths::connected(g, start, x) implies #[trigger] visited@.contains(x) by {
                paths::lemma_connected_closed(g, visited@, start, x);
            }
        }
        visited
    }

    /// Insert an edge with its payload. Fails with `NodeNotFound` if either
    /// endpoint is not a node, and with `HasCycle` — handing the payload
    /// back, the graph untouched — if the edge would close a cycle. On
    /// success returns the payload the edge carried before, if the edge was
    /// already present.
    pub fn insert_edge(&mut self, from: u64, to: u64, edge_data: EdgeData) -> (r: Result<
        Option<EdgeData>,
        DagError<EdgeData>,
    >)
        requires
            old(self).wf(),
        ensures
            final(self).wf(),
            match r {
                Ok(prev) => {
                    &&& old(self).has_node(from) && old(self).has_node(to)
                    &&& !paths::has_cycle(paths::add_edge(old(self).succ(), from, to))
                    &&& !paths::connected(old(self).succ(), to, from)
                    &&& final(self).nodes_map() == old(self).nodes_map()
                    &&& final(self).edge_map() == old(self).edge_map().insert(
                        from,
                        old(self).edge_map()[from].insert(to, edge_data),
                    )
                    &&& final(self).back_map() == old(self).back_map().insert(
                        to,
                        old(self).back_map()[to].insert(from),
                    )
                    &&& prev == (if old(self).has_edge(from, to) {
                        Some(old(self).edge_payload(from, to))
                    } else {
                        None::<EdgeData>
                    })
                },
                Err(e) => match e {
                    DagError::NodeNotFound(missing) => {
                        &&& *final(self) == *old(self)
                        &&& (missing == from && !old(self).has_node(from)) || (missing == to
                            && old(self).has_node(from) && !old(self).has_node(to))
                    },
                    DagError::HasCycle(f, t, d) => {
                        &&& *final(self) == *old(self)
                        &&& f == from && t == to && d == edge_data
                        &&& old(self).has_node(from) && old(self).has_node(to)
                        &&& paths::has_cycle(paths::add_edge(old(self).succ(), from, to))
                        &&& paths::connected(old(self).succ(), to, from)
                    },
                },
            },
    {
        if !self.nodes.contains_key(&from) {
            return Err(DagError::NodeNotFound(from));
        }
        if !self.nodes.contains_key(&to) {
            return Err(DagError::NodeNotFound(to));
        }
        let ghost pre = *self;
        let reach = self.reachable_set(to);
        if reach.contains(&from) {
            proof {
                paths::lemma_add_edge_creates_cycle(pre.succ(), from, to);
            }
            return Err(DagError::HasCycle(from, to, edge_data));
        }
        proof {
            paths::lemma_add_edge_keeps_acyclic(pre.succ(), from, to);
        }
        let mut children = match self.edges.remove(&from) {
            Some(ch) => ch,
            None => BTreeMap::new(),
        };
        let ghost pre_children = children@;
        let prev = children.insert(to, edge_data);
        self.edges.insert(from, children);
        let mut parents = match self.back_edges.remove(&to) {
            Some(ps) => ps,
            None => BTreeSet::new(),
        };
        parents.insert(from);
        self.back_edges.insert(to, parents);
        proof {
            assert(pre_children =~= pre.edge_map()[from]);
            assert(self.nodes_map() =~= pre.nodes_map());
            assert(self.edge_map() =~= pre.edge_map().insert(
                from,
                pre.edge_map()[from].insert(to, edge_data),
            ));
            assert(self.back_map() =~= pre.back_map().insert(
                to,
                pre.back_map()[to].insert(from),
            ));
            assert(self.edge_map().dom() =~= self.nodes_map().dom());
            assert(self.back_map().dom() =~= self.nodes_map().dom());
            assert(self.succ() =~= paths::add_edge(pre.succ(), from, to)) by {
                assert(self.succ().dom() =~= paths::add_edge(pre.succ(), from, to).dom());
                assert forall|k: u64| self.succ().dom().contains(k) implies #[trigger] self.succ()[k]
                    =~= paths::add_edge(pre.succ(), from, to)[k] by {}
            }
            assert forall|f: u64, t: u64| #[trigger] self.has_edge(f, t) implies self.parents_of(
                t,
            ).contains(f) by {
                if f == from && t == to {
                } else {
                    assert(pre.has_edge(f, t));
                }
            }
            assert forall|f: u64, t: u64|
                self.back_map().contains_key(t) && #[trigger] self.back_map()[t].contains(
                    f,
                ) implies self.has_edge(f, t) by {
                if t == to && f == from {
                } else {
                    assert(pre.back_map()[t].contains(f));
                    assert(pre.has_edge(f, t));
                }
            }
        }
        Ok(prev)
    }

    /// Remove the edge (`from`, `to`). Both endpoints must be nodes, even
    /// when no such edge exists; a missing edge is not an error but an
    /// `Ok(None)` that leaves the graph as it was. On success returns the
    /// removed payload.
    pub fn remove_edge(&mut self, from: u64, to: u64) -> (r: Result<
        Option<EdgeData>,
        DagError<EdgeData>,
    >)
        requires
            old(self).wf(),
        ensures
            final(self).wf(),
            match r {
                Ok(prev) => {
                    &&& old(self).has_node(from) && old(self).has_node(to)
                    &&& final(self).nodes_map() == old(self).nodes_map()
                    &&& final(self).edge_map() == old(self).edge_map().insert(
                        from,
                        old(self).edge_map()[from].remove(to),
                    )
                    &&& final(self).back_map() == old(self).back_map().insert(
                        to,
                        old(self).back_map()[to].remove(from),
                    )
                    &&& prev == (if old(self).has_edge(from, to) {
                        Some(old(self).edge_payload(from, to))
                    } else {
                        None::<EdgeData>
                    })
                    &&& !old(self).has_edge(from, to) ==> final(self).edge_map() == old(
                        self,
                    ).edge_map() && final(self).back_map() == old(self).back_map()
                },
                Err(e) => match e {
                    DagError::NodeNotFound(missing) => {
                        &&& *final(self) == *old(self)
                        &&& (missing == from && !old(self).has_node(from)) || (missing == to
                            && old(self).has_node(from) && !old(self).has_node(to))
                    },
                    DagError::HasCycle(_, _, _) => false,
                },
            },
    {
        if !self.nodes.contains_key(&from) {
            return Err(DagError::NodeNotFound(from));
        }
        if !self.nodes.contains_key(&to) {
            return Err(DagError::NodeNotFound(to));
        }
        let ghost pre = *self;
        let mut children = match self.edges.remove(&from) {
            Some(ch) => ch,
            None => BTreeMap::new(),
        };
        let ghost pre_children = children@;
        let prev = children.remove(&to);
        self.edges.insert(from, children);
        let mut parents = match self.back_edges.remove(&to) {
            Some(ps) => ps,
            None => BTreeSet::new(),
        };
        parents.remove(&from);
        self.back_edges.insert(to, parents);
        proof {
            assert(pre_children =~= pre.edge_map()[from]);
            assert(self.nodes_map() =~= pre.nodes_map());
            assert(self.edge_map() =~= pre.edge_map().insert(
                from,
                pre.edge_map()[from].remove(to),
            ));
            assert(self.back_map() =~= pre.back_map().insert(
                to,
                pre.back_map()[to].remove(from),
            ));
            assert(self.edge_map().dom() =~= self.nodes_map().dom());
            assert(self.back_map().dom() =~= self.nodes_map().dom());
            assert forall|a: u64, b: u64| #[trigger]
                paths::edge_in(self.succ(), a, b) implies paths::edge_in(pre.succ(), a, b) by {}
            paths::lemma_acyclic_subgraph(pre.succ(), self.succ());
            assert forall|f: u64, t: u64| #[trigger] self.has_edge(f, t) implies self.parents_of(
                t,
            ).contains(f) by {
                assert(pre.has_edge(f, t));
            }
            assert forall|f: u64, t: u64|
                self.back_map().contains_key(t) && #[trigger] self.back_map()[t].contains(
                    f,
                ) implies self.has_edge(f, t) by {
                assert(pre.back_map()[t].contains(f));
                assert(pre.has_edge(f, t));
            }
            if !pre.has_edge(from, to) {
                assert(self.edge_map() =~= pre.edge_map()) by {
                    assert(pre.edge_map()[from].remove(to) =~= pre.edge_map()[from]);
                }
                assert(self.back_map() =~= pre.back_map()) by {
                    assert(pre.back_map()[to].remove(from) =~= pre.back_map()[to]);
                }
            }
        }
        Ok(prev)
    }

    /// An acyclic graph has no edge from a node to itself.
    proof fn lemma_no_self_loop(self, id: u64)
        requires
            self.wf(),
        ensures
            !self.has_edge(id, id),
    {
        if self.has_edge(id, id) {
            self.lemma_edge_in_succ(id, id);
            let p = seq![id, id];
            assert(paths::is_path(self.succ(), p)) by {
                assert(p[0] == id && p[1] == id);
            }
            assert(p.len() >= 2 && p.first() == p.last());
            assert(paths::has_cycle(self.succ()));
        }
    }

    /// Remove a node together with every edge that touches it. Returns the
    /// node's payload and the payloads of the detached edges: outgoing
    /// edges first, then incoming ones, each group in increasing order of
    /// the other endpoint. Removing an absent node does nothing.
    pub fn remove_node(&mut self, node_id: u64) -> (r: (Option<NodeData>, Vec<EdgeData>))
        requires
            old(self).wf(),
        ensures
            final(self).wf(),
            !old(self).has_node(node_id) ==> {
                &&& *final(self) == *old(self)
                &&& r.0 is None
                &&& r.1@ == Seq::<EdgeData>::empty()
            },
            old(self).has_node(node_id) ==> {
                &&& r.0 == Some(old(self).nodes_map()[node_id])
                &&& final(self).nodes_map() == old(self).nodes_map().remove(node_id)
                &&& final(self).edge_map().dom() == old(self).edge_map().dom().remove(node_id)
                &&& forall|k: u64| #[trigger]
                    final(self).edge_map().contains_key(k) ==> final(self).edge_map()[k] == old(
                        self,
                    ).edge_map()[k].remove(node_id)
                &&& final(self).back_map().dom() == old(self).back_map().dom().remove(node_id)
                &&& forall|k: u64| #[trigger]
                    final(self).back_map().contains_key(k) ==> final(self).back_map()[k] == old(
                        self,
                    ).back_map()[k].remove(node_id)
                &&& exists|cs: Seq<u64>, ps: Seq<u64>|
                    {
                        &&& keyseq::strictly_sorted(cs)
                        &&& cs.to_set() == old(self).children_of(node_id)
                        &&& keyseq::strictly_sorted(ps)
                        &&& ps.to_set() == old(self).parents_of(node_id)
                        &&& r.1@ == cs.map(
                            |j: int, c: u64| old(self).edge_payload(node_id, c),
                        ) + ps.map(|j: int, p: u64| old(self).edge_payload(p, node_id))
                    }
            },
            !final(self).has_node(node_id),
            forall|n: u64| !(#[trigger] final(self).has_edge(n, node_id)),
            forall|n: u64| !(#[trigger] final(self).has_edge(node_id, n)),
    {
        let ghost pre = *self;
        if !self.contains_node(node_id) {
            proof {
                assert forall|n: u64| !(#[trigger] self.has_edge(n, node_id)) by {
                    if self.has_edge(n, node_id) {
                        assert(self.parents_of(node_id).contains(n));
                    }
                }
            }
            return (None, Vec::new());
        }
        let mut edge_datas: Vec<EdgeData> = Vec::new();
        let children: Vec<u64> = match self.edges.get(&node_id) {
            Some(ch) => keyseq::keys_vec(ch),
            None => Vec::new(),
        };
        let ghost cs = children@;
        proof {
            assert(cs.to_set() == pre.children_of(node_id));
            pre.lemma_no_self_loop(node_id);
            assert(!cs.to_set().contains(node_id));
        }
        let mut i: usize = 0;
        while i < children.len()
            invariant
                self.wf(),
                pre.wf(),
                i <= children.len(),
                children@ == cs,
                keyseq::strictly_sorted(cs),
                cs.to_set() == pre.children_of(node_id),
                !cs.to_set().contains(node_id),
                pre.has_node(node_id),
                self.nodes_map() == pre.nodes_map(),
                self.edge_map().dom() == pre.edge_map().dom(),
                self.back_map().dom() == pre.back_map().dom(),
                self.edge_map()[node_id] =~= pre.edge_map()[node_id].remove_keys(
                    cs.take(i as int).to_set(),
                ),
                forall|k: u64|
                    self.edge_map().contains_key(k) && k != node_id ==> #[trigger] self.edge_map()[k]
                        == pre.edge_map()[k],
                forall|k: u64|
                    self.back_map().contains_key(k) && cs.take(i as int).to_set().contains(k)
                        ==> #[trigger] self.back_map()[k] == pre.back_map()[k].remove(node_id),
                forall|k: u64|
                    self.back_map().contains_key(k) && !cs.take(i as int).to_set().contains(k)
                        ==> #[trigger] self.back_map()[k] == pre.back_map()[k],
                edge_datas@ == cs.take(i as int).map(
                    |j: int, c: u64| pre.edge_payload(node_id, c),
                ),
            decreases children.len() - i,
        {
            let c = children[i];
            proof {
                assert(cs.to_set().contains(c));
                assert(pre.has_edge(node_id, c));
                assert(pre.parents_of(c).contains(node_id));
                assert(c != node_id);
                assert(!cs.take(i as int).to_set().contains(c)) by {
                    if cs.take(i as int).to_set().contains(c) {
                        let n = choose|n: int| 0 <= n < i && cs.take(i as int)[n] == c;
                        assert(cs[n] == c && cs[i as int] == c);
                    }
                }
                assert(self.edge_map()[node_id].contains_key(c));
                assert(self.has_edge(node_id, c));
            }
            let ghost mid = *self;
            let res = self.remove_edge(node_id, c);
            match res {
                Ok(Some(d)) => {
                    proof {
                        assert(d == pre.edge_payload(node_id, c));
                    }
                    edge_datas.push(d);
                },
                _ => {
                    proof {
                        assert(false);
                    }
                },
            }
            i = i + 1;
            proof {
                assert(cs.take(i as int) == cs.take(i - 1).push(c));
                Seq::<u64>::lemma_push_to_set_commute(cs.take(i - 1), c);
                assert(cs.take(i as int).to_set() =~= cs.take(i - 1).to_set().insert(c));
                assert(self.edge_map()[node_id] =~= pre.edge_map()[node_id].remove_keys(
                    cs.take(i as int).to_set(),
                ));
                assert forall|k: u64|
                    self.back_map().contains_key(k) && cs.take(i as int).to_set().contains(k)
                        implies #[trigger] self.back_map()[k] == pre.back_map()[k].remove(
                    node_id,
                ) by {
                    if k == c {
                        assert(mid.back_map()[c] == pre.back_map()[c]);
                    }
                }
                assert(edge_datas@ =~= cs.take(i as int).map(
                    |j: int, c2: u64| pre.edge_payload(node_id, c2),
                ));
            }
        }
        proof {
            assert(cs.take(cs.len() as int) == cs);
            assert(self.edge_map()[node_id] =~= Map::<u64, EdgeData>::empty()) by {
                assert(pre.edge_map()[node_id].dom() == cs.to_set());
            }
            assert(self.back_map()[node_id] == pre.back_map()[node_id]);
        }
        let parents: Vec<u64> = match self.back_edges.get(&node_id) {
            Some(ps) => keyseq::set_vec(ps),
            None => Vec::new(),
        };
        let ghost ps = parents@;
        let ghost phase2 = *self;
        proof {
            assert(ps.to_set() == pre.parents_of(node_id));
            assert(!ps.to_set().contains(node_id)) by {
                if pre.parents_of(node_id).contains(node_id) {
                    assert(pre.has_edge(node_id, node_id));
                    pre.lemma_no_self_loop(node_id);
                }
            }
            assert forall|p: u64| ps.to_set().contains(p) implies !cs.to_set().contains(p) by {
                if cs.to_set().contains(p) && ps.to_set().contains(p) {
                    assert(pre.has_edge(node_id, p) && pre.has_edge(p, node_id));
                    pre.lemma_edge_in_succ(node_id, p);
                    pre.lemma_edge_in_succ(p, node_id);
                    let q = seq![node_id, p, node_id];
                    assert(paths::is_path(pre.succ(), q)) by {
                        assert(q[0] == node_id && q[1] == p && q[2] == node_id);
                    }
                    assert(q.len() >= 2 && q.first() == q.last());
                    assert(paths::has_cycle(pre.succ()));
                }
            }
        }
        let mut j: usize = 0;
        while j < parents.len()
            invariant
                self.wf(),
                pre.wf(),
                j <= parents.len(),
                parents@ == ps,
                keyseq::strictly_sorted(ps),
                ps.to_set() == pre.parents_of(node_id),
                !ps.to_set().contains(node_id),
                forall|p: u64| ps.to_set().contains(p) ==> !cs.to_set().contains(p),
                pre.has_node(node_id),
                self.nodes_map() == pre.nodes_map(),
                self.edge_map().dom() == pre.edge_map().dom(),
                self.back_map().dom() == pre.back_map().dom(),
                self.edge_map()[node_id] =~= Map::<u64, EdgeData>::empty(),
                forall|k: u64|
                    self.edge_map().contains_key(k) && k != node_id && !ps.take(
                        j as int,
                    ).to_set().contains(k) ==> #[trigger] self.edge_map()[k] == pre.edge_map()[k],
                forall|k: u64|
                    self.edge_map().contains_key(k) && ps.take(j as int).to_set().contains(k)
                        ==> #[trigger] self.edge_map()[k] == pre.edge_map()[k].remove(node_id),
                self.back_map()[node_id] =~= pre.back_map()[node_id].difference(
                    ps.take(j as int).to_set(),
                ),
                forall|k: u64|
                    self.back_map().contains_key(k) && k != node_id && cs.to_set().contains(k)
                        ==> #[trigger] self.back_map()[k] == pre.back_map()[k].remove(node_id),
                forall|k: u64|
                    self.back_map().contains_key(k) && k != node_id && !cs.to_set().contains(k)
                        ==> #[trigger] self.back_map()[k] == pre.back_map()[k],
                edge_datas@ == cs.map(|n: int, c: u64| pre.edge_payload(node_id, c)) + ps.take(
                    j as int,
                ).map(|n: int, p: u64| pre.edge_payload(p, node_id)),
            decreases parents.len() - j,
        {
            let p = parents[j];
            proof {
                assert(ps.to_set().contains(p));
                assert(pre.back_map()[node_id].contains(p));
                assert(pre.has_edge(p, node_id));
                assert(p != node_id);
                assert(!ps.take(j as int).to_set().contains(p)) by {
                    if ps.take(j as int).to_set().contains(p) {
                        let n = choose|n: int| 0 <= n < j && ps.take(j as int)[n] == p;
                        assert(ps[n] == p && ps[j as int] == p);
                    }
                }
                assert(self.edge_map()[p] == pre.edge_map()[p]);
                assert(self.has_edge(p, node_id));
            }
            let ghost mid = *self;
            let res = self.remove_edge(p, node_id);
            match res {
                Ok(Some(d)) => {
                    proof {
                        assert(d == pre.edge_payload(p, node_id));
                    }
                    edge_datas.push(d);
                },
                _ => {
                    proof {
                        assert(false);
                    }
                },
            }
            j = j + 1;
            proof {
                assert(ps.take(j as int) == ps.take(j - 1).push(p));
                Seq::<u64>::lemma_push_to_set_commute(ps.take(j - 1), p);
                assert(ps.take(j as int).to_set() =~= ps.take(j - 1).to_set().insert(p));
                assert(self.back_map()[node_id] =~= pre.back_map()[node_id].difference(
                    ps.take(j as int).to_set(),
                ));
                assert forall|k: u64|
                    self.edge_map().contains_key(k) && ps.take(j as int).to_set().contains(k)
                        implies #[trigger] self.edge_map()[k] == pre.edge_map()[k].remove(
                    node_id,
                ) by {
                    if k == p {
                        assert(mid.edge_map()[p] == pre.edge_map()[p]);
                    }
                }
                assert(edge_datas@ =~= cs.map(|n: int, c: u64| pre.edge_payload(node_id, c))
                    + ps.take(j as int).map(|n: int, p2: u64| pre.edge_payload(p2, node_id)));
            }
        }
        proof {
            assert(ps.take(ps.len() as int) == ps);
            assert(self.back_map()[node_id] =~= Set::<u64>::empty()) by {
                assert(pre.back_map()[node_id] == ps.to_set());
            }
        }
        let ghost before_drop = *self;
        let node_data = self.nodes.remove(&node_id);
        self.edges.remove(&node_id);
        self.back_edges.remove(&node_id);
        proof {
            assert(node_data == Some(pre.nodes_map()[node_id]));
            assert(self.nodes_map() =~= pre.nodes_map().remove(node_id));
            assert(self.edge_map() =~= Map::new(
                |k: u64| before_drop.edge_map().contains_key(k) && k != node_id,
                |k: u64| before_drop.edge_map()[k],
            ));
            assert(self.back_map() =~= Map::new(
                |k: u64| before_drop.back_map().contains_key(k) && k != node_id,
                |k: u64| before_drop.back_map()[k],
            ));
            assert(self.edge_map().dom() =~= self.nodes_map().dom());
            assert(self.back_map().dom() =~= self.nodes_map().dom());
            assert(self.edge_map().dom() =~= pre.edge_map().dom().remove(node_id));
            assert(self.back_map().dom() =~= pre.back_map().dom().remove(node_id));
            assert forall|k: u64| #[trigger]
                self.edge_map().contains_key(k) implies self.edge_map()[k] == pre.edge_map()[k].remove(
                node_id,
            ) by {
                if ps.to_set().contains(k) {
                } else {
                    assert(self.edge_map()[k] == pre.edge_map()[k]);
                    assert(!pre.has_edge(k, node_id)) by {
                        if pre.has_edge(k, node_id) {
                            assert(pre.parents_of(node_id).contains(k));
                        }
                    }
                    assert(pre.edge_map()[k].remove(node_id) =~= pre.edge_map()[k]);
                }
            }
            assert forall|k: u64| #[trigger]
                self.back_map().contains_key(k) implies self.back_map()[k] == pre.back_map()[k].remove(
                node_id,
            ) by {
                if cs.to_set().contains(k) {
                } else {
                    assert(self.back_map()[k] == pre.back_map()[k]);
                    assert(!pre.back_map()[k].contains(node_id)) by {
                        if pre.back_map()[k].contains(node_id) {
                            assert(pre.has_edge(node_id, k));
                            assert(pre.children_of(node_id).contains(k));
                        }
                    }
                    assert(pre.back_map()[k].remove(node_id) =~= pre.back_map()[k]);
                }
            }
            // Well-formedness of the final state.
            assert forall|f: u64, t: u64| #[trigger] self.has_edge(f, t) implies self.parents_of(
                t,
            ).contains(f) by {
                assert(pre.has_edge(f, t));
                assert(t != node_id);
                assert(f != node_id) by {
                    assert(self.edge_map().contains_key(f));
                }
            }
            assert forall|f: u64, t: u64|
                self.back_map().contains_key(t) && #[trigger] self.back_map()[t].contains(
                    f,
                ) implies self.has_edge(f, t) by {
                assert(pre.back_map()[t].contains(f));
                assert(pre.has_edge(f, t));
                assert(f != node_id && t != node_id);
            }
            assert forall|a: u64, b: u64| #[trigger]
                paths::edge_in(self.succ(), a, b) implies paths::edge_in(pre.succ(), a, b) by {
                assert(self.has_edge(a, b));
                assert(pre.has_edge(a, b));
            }
            paths::lemma_acyclic_subgraph(pre.succ(), self.succ());
            // The two detachment orders exist as required.
            assert(edge_datas@ == cs.map(|n: int, c: u64| pre.edge_payload(node_id, c)) + ps.map(
                |n: int, p2: u64| pre.edge_payload(p2, node_id),
            ));
            assert forall|n: u64| !(#[trigger] self.has_edge(n, node_id)) by {
                if self.has_edge(n, node_id) {
                    assert(self.parents_of(node_id).contains(n));
                    assert(self.back_map().contains_key(node_id));
                }
            }
        }
        (node_data, edge_datas)
    }


    /// Enumerate the children of `node_id` in increasing order. An absent
    /// node, like a childless one, yields nothing.
    pub fn children(&self, node_id: u64) -> (it: ChildrenIter)
        ensures
            keyseq::strictly_sorted(it.remaining()),
            it.remaining().no_duplicates(),
            it.remaining().to_set() == self.children_of(node_id),
            it.remaining().len() == self.children_of(node_id).len(),
    {
        let ids: Vec<u64> = match self.edges.get(&node_id) {
            Some(ch) => {
                let v = keyseq::keys_vec(ch);
                proof {
                    assert(self.edge_map()[node_id] == self.edges@[node_id]@);
                    assert(v@.to_set() == self.children_of(node_id));
                }
                v
            },
            None => {
                let v: Vec<u64> = Vec::new();
                proof {
                    assert(v@.to_set() =~= self.children_of(node_id));
                    assert(self.children_of(node_id).len() == 0);
                }
                v
            },
        };
        proof {
            keyseq::lemma_sorted_no_dup(ids@);
        }
        iters::new_children_iter(ids)
    }

    /// Enumerate the parents of `node_id` in increasing order. An absent
    /// node, like a parentless one, yields nothing.
    pub fn parents(&self, node_id: u64) -> (it: ParentsIter)
        ensures
            keyseq::strictly_sorted(it.remaining()),
            it.remaining().no_duplicates(),
            it.remaining().to_set() == self.parents_of(node_id),
            it.remaining().len() == self.parents_of(node_id).len(),
    {
        let ids: Vec<u64> = match self.back_edges.get(&node_id) {
            Some(ps) => {
                let v = keyseq::set_vec(ps);
                proof {
                    assert(self.back_map()[node_id] == self.back_edges@[node_id]@);
                    assert(v@.to_set() == self.parents_of(node_id));
                }
                v
            },
            None => {
                let v: Vec<u64> = Vec::new();
                proof {
                    assert(v@.to_set() =~= self.parents_of(node_id));
                    assert(self.parents_of(node_id).len() == 0);
                }
                v
            },
        };
        proof {
            keyseq::lemma_sorted_no_dup(ids@);
        }
        iters::new_parents_iter(ids)
    }

    /// All node identifiers, in increasing order.
    pub fn nodes(&self) -> (ids: Vec<u64>)
        ensures
            keyseq::strictly_sorted(ids@),
            ids@.no_duplicates(),
            ids@.to_set() == self.nodes_map().dom(),
            ids@.len() == self.nodes_map().dom().len(),
    {
        keyseq::keys_vec(&self.nodes)
    }

    /// All edges as (source, target) pairs, ordered by source and then by
    /// target.
    pub fn edges(&self) -> (it: EdgesIter)
        ensures
            forall|m: int, n: int|
                0 <= m < n < it.remaining().len() ==> iters::pair_lt(
                    it.remaining()[m],
                    it.remaining()[n],
                ),
            forall|f: u64, t: u64| #[trigger]
                it.remaining().to_set().contains((f, t)) <==> self.has_edge(f, t),
    {
        let froms = keyseq::keys_vec(&self.edges);
        let ghost fv = froms@;
        let mut pairs: Vec<(u64, u64)> = Vec::new();
        let mut i: usize = 0;
        while i < froms.len()
            invariant
                froms@ == fv,
                keyseq::strictly_sorted(fv),
                fv.to_set() == self.edges@.dom(),
                i <= fv.len(),
                forall|m: int, n: int|
                    0 <= m < n < pairs@.len() ==> iters::pair_lt(pairs@[m], pairs@[n]),
                forall|m: int|
                    0 <= m < pairs@.len() ==> fv.take(i as int).to_set().contains(
                        (#[trigger] pairs@[m]).0,
                    ),
                forall|m: int|
                    0 <= m < pairs@.len() ==> self.has_edge(
                        (#[trigger] pairs@[m]).0,
                        pairs@[m].1,
                    ),
                forall|f: u64, t: u64|
                    fv.take(i as int).to_set().contains(f) && #[trigger] self.has_edge(f, t)
                        ==> pairs@.to_set().contains((f, t)),
            decreases fv.len() - i,
        {
            let f = froms[i];
            proof {
                assert(fv.to_set().contains(f));
            }
            let ts: Vec<u64> = match self.edges.get(&f) {
                Some(ch) => {
                    let v = keyseq::keys_vec(ch);
                    proof {
                        assert(self.edge_map()[f] == self.edges@[f]@);
                        assert(v@.to_set() == self.edge_map()[f].dom());
                    }
                    v
                },
                None => {
                    proof {
                        assert(false);
                    }
                    Vec::new()
                },
            };
            let ghost tv = ts@;
            let ghost pairs0 = pairs@;
            let mut k: usize = 0;
            while k < ts.len()
                invariant
                    ts@ == tv,
                    k <= tv.len(),
                    pairs@ == pairs0 + tv.take(k as int).map(|n: int, t: u64| (f, t)),
                decreases tv.len() - k,
            {
                pairs.push((f, ts[k]));
                k = k + 1;
                proof {
                    assert(tv.take(k as int) == tv.take(k - 1).push(tv[k - 1]));
                    assert(pairs@ =~= pairs0 + tv.take(k as int).map(|n: int, t: u64| (f, t)));
                }
            }
            i = i + 1;
            proof {
                assert(tv.take(tv.len() as int) == tv);
                let block = tv.map(|n: int, t: u64| (f, t));
                assert(pairs@ == pairs0 + block);
                assert(fv.take(i as int) == fv.take(i - 1).push(f));
                Seq::<u64>::lemma_push_to_set_commute(fv.take(i - 1), f);
                // every earlier source identifier is smaller than `f`
                assert forall|m: int| 0 <= m < pairs0.len() implies (#[trigger] pairs0[m]).0
                    < f by {
                    assert(fv.take(i - 1).to_set().contains(pairs0[m].0));
                    let n = choose|n: int| 0 <= n < i - 1 && #[trigger] fv.take(i - 1)[n] == pairs0[m].0;
                    assert(fv[n] == pairs0[m].0);
                }
                assert forall|m: int, n: int|
                    0 <= m < n < pairs@.len() implies iters::pair_lt(pairs@[m], pairs@[n]) by {
                    if m < pairs0.len() && n >= pairs0.len() {
                        assert(pairs@[n] == block[n - pairs0.len()]);
                        assert(pairs@[n].0 == f);
                    } else if m >= pairs0.len() {
                        assert(pairs@[m] == block[m - pairs0.len()]);
                        assert(pairs@[n] == block[n - pairs0.len()]);
                        assert(tv[m - pairs0.len()] < tv[n - pairs0.len()]);
                    }
                }
                assert forall|m: int|
                    0 <= m < pairs@.len() implies fv.take(i as int).to_set().contains(
                    (#[trigger] pairs@[m]).0,
                ) by {
                    if m < pairs0.len() {
                        assert(fv.take(i - 1).to_set().contains(pairs0[m].0));
                    } else {
                        assert(pairs@[m] == block[m - pairs0.len()]);
                        assert(pairs@[m].0 == f);
                    }
                }
                assert forall|m: int|
                    0 <= m < pairs@.len() implies self.has_edge(
                    (#[trigger] pairs@[m]).0,
                    pairs@[m].1,
                ) by {
                    if m >= pairs0.len() {
                        assert(pairs@[m] == block[m - pairs0.len()]);
                        assert(tv.to_set().contains(tv[m - pairs0.len()]));
                    }
                }
                assert forall|f2: u64, t: u64|
                    fv.take(i as int).to_set().contains(f2) && #[trigger] self.has_edge(f2, t)
                        implies pairs@.to_set().contains((f2, t)) by {
                    if f2 == f {
                        assert(tv.to_set().contains(t));
                        let n = choose|n: int| 0 <= n < tv.len() && tv[n] == t;
                        assert(pairs@[pairs0.len() + n] == (f, t));
                        assert(pairs@.contains((f2, t)));
                    } else {
                        assert(fv.take(i - 1).to_set().contains(f2));
                        assert(pairs0.to_set().contains((f2, t)));
                        let n = choose|n: int| 0 <= n < pairs0.len() && pairs0[n] == (f2, t);
                        assert(pairs@[n] == (f2, t));
                        assert(pairs@.contains((f2, t)));
                    }
                }
            }
        }
        proof {
            assert(fv.take(fv.len() as int) == fv);
            assert forall|f: u64, t: u64|
                #[trigger] self.has_edge(f, t) implies pairs@.to_set().contains((f, t)) by {
                assert(self.edges@.dom().contains(f));
            }
            assert forall|f: u64, t: u64|
                #[trigger] pairs@.to_set().contains((f, t)) implies self.has_edge(f, t) by {
                let n = choose|n: int| 0 <= n < pairs@.len() && pairs@[n] == (f, t);
                assert(self.has_edge(pairs@[n].0, pairs@[n].1));
            }
        }
        iters::new_edges_iter(pairs)
    }

    /// The identifiers of all nodes with no incoming edge, in increasing
    /// order.
    pub fn roots(&self) -> (ids: Vec<u64>)
        requires
            self.wf(),
        ensures
            keyseq::strictly_sorted(ids@),
            ids@.no_duplicates(),
            forall|id: u64| #[trigger]
                ids@.to_set().contains(id) <==> self.has_node(id) && self.parents_of(
                    id,
                ).is_empty(),
    {
        let all = keyseq::keys_vec(&self.nodes);
        let ghost av = all@;
        let mut r: Vec<u64> = Vec::new();
        let mut i: usize = 0;
        while i < all.len()
            invariant
                self.wf(),
                all@ == av,
                keyseq::strictly_sorted(av),
                av.to_set() == self.nodes_map().dom(),
                i <= av.len(),
                keyseq::strictly_sorted(r@),
                forall|m: int|
                    0 <= m < r@.len() ==> av.take(i as int).to_set().contains(#[trigger] r@[m]),
                forall|id: u64| #[trigger]
                    r@.to_set().contains(id) <==> (av.take(i as int).to_set().contains(id)
                        && self.parents_of(id).is_empty()),
            decreases av.len() - i,
        {
            let id = all[i];
            let ghost r0 = r@;
            proof {
                assert(av.to_set().contains(id));
            }
            let no_parents: bool = match self.back_edges.get(&id) {
                Some(ps) => {
                    let e = ps.is_empty();
                    proof {
                        assert(self.back_map()[id] == self.back_edges@[id]@);
                        assert(e == self.parents_of(id).is_empty());
                    }
                    e
                },
                None => {
                    proof {
                        assert(false);
                    }
                    true
                },
            };
            if no_parents {
                proof {
                    assert forall|m: int| 0 <= m < r0.len() implies r0[m] < id by {
                        assert(av.take(i as int).to_set().contains(r0[m]));
                        let n = choose|n: int| 0 <= n < i && av.take(i as int)[n] == r0[m];
                        assert(av[n] == r0[m]);
                    }
                }
                r.push(id);
                proof {
                    Seq::<u64>::lemma_push_to_set_commute(r0, id);
                }
            }
            i = i + 1;
            proof {
                assert(av.take(i as int) == av.take(i - 1).push(id));
                Seq::<u64>::lemma_push_to_set_commute(av.take(i - 1), id);
            }
        }
        proof {
            assert(av.take(av.len() as int) == av);
            keyseq::lemma_sorted_no_dup(r@);
        }
        r
    }

    /// The identifiers of all nodes with no outgoing edge, in increasing
    /// order.
    pub fn leaves(&self) -> (ids: Vec<u64>)
        requires
            self.wf(),
        ensures
            keyseq::strictly_sorted(ids@),
            ids@.no_duplicates(),
            forall|id: u64| #[trigger]
                ids@.to_set().contains(id) <==> self.has_node(id) && self.children_of(
                    id,
                ).is_empty(),
    {
        let all = keyseq::keys_vec(&self.nodes);
        let ghost av = all@;
        let mut r: Vec<u64> = Vec::new();
        let mut i: usize = 0;
        while i < all.len()
            invariant
                self.wf(),
                all@ == av,
                keyseq::strictly_sorted(av),
                av.to_set() == self.nodes_map().dom(),
                i <= av.len(),
                keyseq::strictly_sorted(r@),
                forall|m: int|
                    0 <= m < r@.len() ==> av.take(i as int).to_set().contains(#[trigger] r@[m]),
                forall|id: u64| #[trigger]
                    r@.to_set().contains(id) <==> (av.take(i as int).to_set().contains(id)
                        && self.children_of(id).is_empty()),
            decreases av.len() - i,
        {
            let id = all[i];
            let ghost r0 = r@;
            proof {
                assert(av.to_set().contains(id));
            }
            let no_children: bool = match self.edges.get(&id) {
                Some(ch) => {
                    let e = ch.is_empty();
                    proof {
                        assert(self.edge_map()[id] == self.edges@[id]@);
                        assert(e == self.children_of(id).is_empty()) by {
                            if self.edges@[id]@.is_empty() {
                                assert(self.children_of(id) =~= Set::<u64>::empty());
                            } else {
                                assert(!self.children_of(id).is_empty());
                            }
                        }
                    }
                    e
                },
                None => {
                    proof {
                        assert(false);
                    }
                    true
                },
            };
            if no_children {
                proof {
                    assert forall|m: int| 0 <= m < r0.len() implies r0[m] < id by {
                        assert(av.take(i as int).to_set().contains(r0[m]));
                        let n = choose|n: int| 0 <= n < i && av.take(i as int)[n] == r0[m];
                        assert(av[n] == r0[m]);
                    }
                }
                r.push(id);
                proof {
                    Seq::<u64>::lemma_push_to_set_commute(r0, id);
                }
            }
            i = i + 1;
            proof {
                assert(av.take(i as int) == av.take(i - 1).push(id));
                Seq::<u64>::lemma_push_to_set_commute(av.take(i - 1), id);
            }
        }
        proof {
            assert(av.take(av.len() as int) == av);
            keyseq::lemma_sorted_no_dup(r@);
        }
        r
    }

    /// Borrow the payload of the edge (`from`, `to`). Both endpoints must
    /// be nodes; a missing edge between existing nodes is `Ok(None)`.
    pub fn get_edge(&self, from: u64, to: u64) -> (r: Result<
        Option<&EdgeData>,
        DagError<EdgeData>,
    >)
        requires
            self.wf(),
        ensures
            match r {
                Ok(found) => {
                    &&& self.has_node(from) && self.has_node(to)
                    &&& match found {
                        Some(d) => self.has_edge(from, to) && *d == self.edge_payload(from, to),
                        None => !self.has_edge(from, to),
                    }
                },
                Err(e) => match e {
                    DagError::NodeNotFound(missing) => (missing == from && !self.has_node(from))
                        || (missing == to && self.has_node(from) && !self.has_node(to)),
                    DagError::HasCycle(_, _, _) => false,
                },
            },
    {
        if !self.nodes.contains_key(&from) {
            return Err(DagError::NodeNotFound(from));
        }
        if !self.nodes.contains_key(&to) {
            return Err(DagError::NodeNotFound(to));
        }
        match self.edges.get(&from) {
            Some(children) => Ok(children.get(&to)),
            None => {
                proof {
                    assert(false);
                }
                Ok(None)
            },
        }
    }
}

impl<NodeData: Clone, EdgeData: Clone> Clone for Dag<NodeData, EdgeData> {
    /// The copy presents the same nodes, edges and payloads as the
    /// original, and is well-formed whenever the original is.
    fn clone(&self) -> (r: Self)
        ensures
            r.nodes_map() == self.nodes_map(),
            r.edge_map() == self.edge_map(),
            r.back_map() == self.back_map(),
            self.wf() ==> r.wf(),
    {
        let r = Dag {
            nodes: self.nodes.clone(),
            edges: self.edges.clone(),
            back_edges: self.back_edges.clone(),
        };
        proof {
            assert(r.edge_map() =~= self.edge_map());
            assert(r.back_map() =~= self.back_map());
            if self.wf() {
                assert(r.succ() =~= self.succ());
                assert forall|f: u64, t: u64| #[trigger] r.has_edge(f, t) implies r.parents_of(
                    t,
                ).contains(f) by {
                    assert(self.has_edge(f, t));
                }
                assert forall|f: u64, t: u64|
                    r.back_map().contains_key(t) && #[trigger] r.back_map()[t].contains(
                        f,
                    ) implies r.has_edge(f, t) by {
                    assert(self.back_map()[t].contains(f));
                }
            }
        }
        r
    }
}

} // verus!
