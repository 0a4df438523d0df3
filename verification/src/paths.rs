use vstd::prelude::*;

verus! {

// A directed graph over node identifiers, reduced to its reachability
// structure: each key maps to the set of its successors. Paths, cycles and
// connectivity are defined here; the container proves its operations
// against these definitions.

/// There is an edge from `a` to `b` in `g`.
pub open spec fn edge_in(g: Map<u64, Set<u64>>, a: u64, b: u64) -> bool {
    g.contains_key(a) && g[a].contains(b)
}

/// `p` is a walk through `g`: at least one node, and an edge between each
/// consecutive pair.
pub open spec fn is_path(g: Map<u64, Set<u64>>, p: Seq<u64>) -> bool {
    &&& p.len() >= 1
    &&& forall|i: int| 0 <= i < p.len() - 1 ==> edge_in(g, #[trigger] p[i], p[i + 1])
}

/// `b` can be reached from `a` by following zero or more edges of `g`.
pub open spec fn connected(g: Map<u64, Set<u64>>, a: u64, b: u64) -> bool {
    exists|p: Seq<u64>| is_path(g, p) && p.first() == a && p.last() == b
}

/// Some non-empty walk of `g` returns to its starting node.
pub open spec fn has_cycle(g: Map<u64, Set<u64>>) -> bool {
    exists|p: Seq<u64>| is_path(g, p) && p.len() >= 2 && p.first() == p.last()
}

/// The graph `g` with one more edge, from `from` to `to`.
pub open spec fn add_edge(g: Map<u64, Set<u64>>, from: u64, to: u64) -> Map<u64, Set<u64>>
    recommends
        g.contains_key(from),
{
    g.insert(from, g[from].insert(to))
}

/// Adding the edge (`from`, `to`) adds exactly that edge and keeps every
/// other one.
pub proof fn lemma_edge_in_add(g: Map<u64, Set<u64>>, from: u64, to: u64, a: u64, b: u64)
    requires
        g.contains_key(from),
    ensures
        edge_in(add_edge(g, from, to), a, b) <==> (edge_in(g, a, b) || (a == from && b == to)),
{
}

/// Every node reaches itself.
pub proof fn lemma_connected_refl(g: Map<u64, Set<u64>>, a: u64)
    ensures
        connected(g, a, a),
{
    let p = seq![a];
    assert(is_path(g, p) && p.first() == a && p.last() == a);
}

/// Reachability extends along an edge.
pub proof fn lemma_connected_step(g: Map<u64, Set<u64>>, a: u64, b: u64, c: u64)
    requires
        connected(g, a, b),
        edge_in(g, b, c),
    ensures
        connected(g, a, c),
{
    let p = choose|p: Seq<u64>| is_path(g, p) && p.first() == a && p.last() == b;
    let q = p.push(c);
    assert forall|i: int| 0 <= i < q.len() - 1 implies edge_in(g, #[trigger] q[i], q[i + 1]) by {
        if i < p.len() - 1 {
            assert(edge_in(g, p[i], p[i + 1]));
        } else {
            assert(q[i] == p.last() && q[i + 1] == c);
        }
    }
    assert(is_path(g, q) && q.first() == a && q.last() == c);
}

/// Walking a path cannot leave a set that is closed under the edges of `g`.
proof fn lemma_path_stays_in_closed(g: Map<u64, Set<u64>>, s: Set<u64>, p: Seq<u64>)
    requires
        is_path(g, p),
        s.contains(p.first()),
        forall|x: u64, y: u64| s.contains(x) && #[trigger] edge_in(g, x, y) ==> s.contains(y),
    ensures
        s.contains(p.last()),
    decreases p.len(),
{
    if p.len() == 1 {
    } else {
        assert(edge_in(g, p[0], p[1]));
        let q = p.subrange(1, p.len() as int);
        assert(is_path(g, q)) by {
            assert forall|i: int| 0 <= i < q.len() - 1 implies edge_in(
                g,
                #[trigger] q[i],
                q[i + 1],
            ) by {
                assert(q[i] == p[i + 1] && q[i + 1] == p[i + 2]);
                assert(edge_in(g, p[i + 1], p[i + 2]));
            }
        }
        lemma_path_stays_in_closed(g, s, q);
        assert(q.last() == p.last());
    }
}

/// A set that contains `a` and is closed under the edges of `g` contains
/// everything reachable from `a`.
pub proof fn lemma_connected_closed(g: Map<u64, Set<u64>>, s: Set<u64>, a: u64, b: u64)
    requires
        s.contains(a),
        forall|x: u64, y: u64| s.contains(x) && #[trigger] edge_in(g, x, y) ==> s.contains(y),
        connected(g, a, b),
    ensures
        s.contains(b),
{
    let p = choose|p: Seq<u64>| is_path(g, p) && p.first() == a && p.last() == b;
    lemma_path_stays_in_closed(g, s, p);
}

/// A graph whose edges all occur in an acyclic graph is acyclic.
pub proof fn lemma_acyclic_subgraph(g1: Map<u64, Set<u64>>, g2: Map<u64, Set<u64>>)
    requires
        !has_cycle(g1),
        forall|a: u64, b: u64| #[trigger] edge_in(g2, a, b) ==> edge_in(g1, a, b),
    ensures
        !has_cycle(g2),
{
    if has_cycle(g2) {
        let p = choose|p: Seq<u64>| is_path(g2, p) && p.len() >= 2 && p.first() == p.last();
        assert(is_path(g1, p)) by {
            assert forall|i: int| 0 <= i < p.len() - 1 implies edge_in(
                g1,
                #[trigger] p[i],
                p[i + 1],
            ) by {
                assert(edge_in(g2, p[i], p[i + 1]));
            }
        }
        assert(has_cycle(g1));
    }
}

/// If `from` is already reachable from `to`, the edge (`from`, `to`) closes
/// a cycle.
pub proof fn lemma_add_edge_creates_cycle(g: Map<u64, Set<u64>>, from: u64, to: u64)
    requires
        g.contains_key(from),
        connected(g, to, from),
    ensures
        has_cycle(add_edge(g, from, to)),
{
    let g2 = add_edge(g, from, to);
    let p = choose|p: Seq<u64>| is_path(g, p) && p.first() == to && p.last() == from;
    let q = seq![from] + p;
    assert(q.len() == p.len() + 1);
    assert forall|i: int| 0 <= i < q.len() - 1 implies edge_in(g2, #[trigger] q[i], q[i + 1]) by {
        lemma_edge_in_add(g, from, to, q[i], q[i + 1]);
        if i == 0 {
            assert(q[0] == from && q[1] == p[0]);
            assert(p[0] == p.first());
        } else {
            assert(q[i] == p[i - 1] && q[i + 1] == p[i]);
            assert(edge_in(g, p[i - 1], p[i]));
        }
    }
    assert(is_path(g2, q) && q.len() >= 2 && q.first() == q.last());
    assert(has_cycle(g2));
}

/// A path of the extended graph from `to` to `from` shows that `from` was
/// already reachable from `to` before the edge (`from`, `to`) was added.
proof fn lemma_added_path_connects(g: Map<u64, Set<u64>>, from: u64, to: u64, p: Seq<u64>)
    requires
        g.contains_key(from),
        is_path(add_edge(g, from, to), p),
        p.first() == to,
        p.last() == from,
    ensures
        connected(g, to, from),
    decreases p.len(),
{
    let g2 = add_edge(g, from, to);
    if forall|i: int| 0 <= i < p.len() - 1 ==> edge_in(g, #[trigger] p[i], p[i + 1]) {
        assert(is_path(g, p));
        assert(connected(g, to, from));
    } else {
        let i = choose|i: int| 0 <= i < p.len() - 1 && !edge_in(g, #[trigger] p[i], p[i + 1]);
        assert(edge_in(g2, p[i], p[i + 1]));
        lemma_edge_in_add(g, from, to, p[i], p[i + 1]);
        assert(p[i] == from && p[i + 1] == to);
        let q = p.subrange(i + 1, p.len() as int);
        assert(q.len() < p.len());
        assert(q.first() == to && q.last() == p.last());
        assert(is_path(g2, q)) by {
            assert forall|j: int| 0 <= j < q.len() - 1 implies edge_in(
                g2,
                #[trigger] q[j],
                q[j + 1],
            ) by {
                assert(q[j] == p[i + 1 + j] && q[j + 1] == p[i + 1 + j + 1]);
                assert(edge_in(g2, p[i + 1 + j], p[i + 1 + j + 1]));
            }
        }
        lemma_added_path_connects(g, from, to, q);
    }
}

/// If `from` was not reachable from `to`, adding the edge (`from`, `to`) to
/// an acyclic graph leaves it acyclic.
pub proof fn lemma_add_edge_keeps_acyclic(g: Map<u64, Set<u64>>, from: u64, to: u64)
    requires
        g.contains_key(from),
        !has_cycle(g),
        !connected(g, to, from),
    ensures
        !has_cycle(add_edge(g, from, to)),
{
    let g2 = add_edge(g, from, to);
    if has_cycle(g2) {
        let p = choose|p: Seq<u64>| is_path(g2, p) && p.len() >= 2 && p.first() == p.last();
        if forall|i: int| 0 <= i < p.len() - 1 ==> edge_in(g, #[trigger] p[i], p[i + 1]) {
            assert(is_path(g, p));
            assert(has_cycle(g));
        } else {
            let i = choose|i: int| 0 <= i < p.len() - 1 && !edge_in(g, #[trigger] p[i], p[i + 1]);
            assert(edge_in(g2, p[i], p[i + 1]));
            lemma_edge_in_add(g, from, to, p[i], p[i + 1]);
            assert(p[i] == from && p[i + 1] == to);
            // Rotate the cycle so that it starts just after the new edge:
            // the result runs from `to` back round to `from` inside `g2`.
            let q = p.subrange(i + 1, p.len() as int) + p.subrange(1, i + 1);
            assert(q.len() == p.len() - 1);
            assert(q.first() == p[i + 1]);
            if i == 0 {
                assert(q.last() == p.last());
                assert(p.last() == p.first() && p.first() == p[0]);
            } else {
                assert(q.last() == p[i]);
            }
            assert(q.last() == from);
            assert forall|j: int| 0 <= j < q.len() - 1 implies edge_in(
                g2,
                #[trigger] q[j],
                q[j + 1],
            ) by {
                let n = p.len() as int;
                if j < n - i - 2 {
                    assert(q[j] == p[i + 1 + j] && q[j + 1] == p[i + 1 + j + 1]);
                    assert(edge_in(g2, p[i + 1 + j], p[i + 1 + j + 1]));
                } else if j == n - i - 2 {
                    assert(q[j] == p[n - 1] && q[j + 1] == p[1]);
                    assert(p[n - 1] == p.last() && p.last() == p.first() && p.first() == p[0]);
                    assert(edge_in(g2, p[0], p[1]));
                } else {
                    assert(q[j] == p[j - (n - i - 2) + 1 - 1] && q[j + 1] == p[j - (n - i - 2)
                        + 1]);
                    assert(edge_in(g2, p[j - (n - i - 2)], p[j - (n - i - 2) + 1]));
                }
            }
            assert(is_path(g2, q));
            lemma_added_path_connects(g, from, to, q);
        }
    }
}

/// Inserting the edge (`from`, `to`) into an acyclic graph closes a cycle
/// exactly when `from` is reachable from `to` beforehand.
pub proof fn lemma_add_edge_cycle_iff(g: Map<u64, Set<u64>>, from: u64, to: u64)
    requires
        g.contains_key(from),
        !has_cycle(g),
    ensures
        has_cycle(add_edge(g, from, to)) <==> connected(g, to, from),
{
    if connected(g, to, from) {
        lemma_add_edge_creates_cycle(g, from, to);
    } else {
        lemma_add_edge_keeps_acyclic(g, from, to);
    }
}

} // verus!
