use crate::dag::Dag;
use crate::keyseq;
use crate::paths;
use vstd::prelude::*;

verus! {

/// Mirror consistency: in a well-formed graph the edge (`from`, `to`) is
/// present exactly when `from` is recorded among the parents of `to`.
pub proof fn lemma_mirror_consistency<NodeData, EdgeData>(
    dag: Dag<NodeData, EdgeData>,
    from: u64,
    to: u64,
)
    requires
        dag.wf(),
    ensures
        dag.has_edge(from, to) <==> dag.parents_of(to).contains(from),
{
    if dag.parents_of(to).contains(from) {
        assert(dag.back_map().contains_key(to));
        assert(dag.back_map()[to].contains(from));
    }
}

/// Acyclicity: a well-formed graph — and every operation returns one —
/// has no directed cycle.
pub proof fn lemma_acyclicity<NodeData, EdgeData>(dag: Dag<NodeData, EdgeData>)
    requires
        dag.wf(),
    ensures
        !paths::has_cycle(dag.succ()),
{
}

/// Edges only ever join nodes: in a well-formed graph both endpoints of
/// every edge are members of the node map.
pub proof fn lemma_edge_endpoints<NodeData, EdgeData>(
    dag: Dag<NodeData, EdgeData>,
    from: u64,
    to: u64,
)
    requires
        dag.wf(),
        dag.has_edge(from, to),
    ensures
        dag.has_node(from),
        dag.has_node(to),
{
    assert(dag.parents_of(to).contains(from));
    assert(dag.back_map().contains_key(to));
}

/// There is exactly one strictly increasing sequence over a given set of
/// identifiers, so contracts that promise such a sequence pin it down.
pub proof fn lemma_sorted_distinct_unique(a: Seq<u64>, b: Seq<u64>)
    requires
        keyseq::strictly_sorted(a),
        keyseq::strictly_sorted(b),
        a.to_set() == b.to_set(),
    ensures
        a == b,
    decreases a.len(),
{
    if a.len() == 0 {
        if b.len() > 0 {
            assert(b.to_set().contains(b[0]));
            assert(a.contains(b[0]));
        }
        assert(a =~= b);
    } else {
        assert(a.to_set().contains(a[0]));
        assert(b.contains(a[0]));
        let j = choose|j: int| 0 <= j < b.len() && b[j] == a[0];
        assert(b.to_set().contains(b[0]));
        assert(a.contains(b[0]));
        let i = choose|i: int| 0 <= i < a.len() && a[i] == b[0];
        assert(j == 0 || b[0] < b[j]);
        assert(i == 0 || a[0] < a[i]);
        assert(a[0] == b[0]);
        let at = a.drop_first();
        let bt = b.drop_first();
        assert(keyseq::strictly_sorted(at)) by {
            assert forall|m: int, n: int| 0 <= m < n < at.len() implies at[m] < at[n] by {
                assert(at[m] == a[m + 1] && at[n] == a[n + 1]);
            }
        }
        assert(keyseq::strictly_sorted(bt)) by {
            assert forall|m: int, n: int| 0 <= m < n < bt.len() implies bt[m] < bt[n] by {
                assert(bt[m] == b[m + 1] && bt[n] == b[n + 1]);
            }
        }
        assert(at.to_set() =~= a.to_set().remove(a[0])) by {
            assert forall|x: u64| at.to_set().contains(x) implies a.to_set().contains(x) && x
                != a[0] by {
                let n = choose|n: int| 0 <= n < at.len() && at[n] == x;
                assert(a[n + 1] == x);
                assert(a[0] < a[n + 1]);
            }
            assert forall|x: u64|
                a.to_set().contains(x) && x != a[0] implies at.to_set().contains(x) by {
                let n = choose|n: int| 0 <= n < a.len() && a[n] == x;
                assert(n != 0);
                assert(at[n - 1] == x);
                assert(at.contains(x));
            }
        }
        assert(bt.to_set() =~= b.to_set().remove(b[0])) by {
            assert forall|x: u64| bt.to_set().contains(x) implies b.to_set().contains(x) && x
                != b[0] by {
                let n = choose|n: int| 0 <= n < bt.len() && bt[n] == x;
                assert(b[n + 1] == x);
                assert(b[0] < b[n + 1]);
            }
            assert forall|x: u64|
                b.to_set().contains(x) && x != b[0] implies bt.to_set().contains(x) by {
                let n = choose|n: int| 0 <= n < b.len() && b[n] == x;
                assert(n != 0);
                assert(bt[n - 1] == x);
                assert(bt.contains(x));
            }
        }
        lemma_sorted_distinct_unique(at, bt);
        assert(a =~= b) by {
            assert forall|n: int| 0 <= n < a.len() implies a[n] == b[n] by {
                if n > 0 {
                    assert(a[n] == at[n - 1] && b[n] == bt[n - 1]);
                }
            }
        }
    }
}

} // verus!
