use xdag::Dag;
use xdag::DagError;

#[test]
fn empty_graph() {
    let mut dag: Dag<&str, &str> = Dag::new();
    assert_eq!(dag.nodes_len(), 0);
    assert!(dag.nodes().is_empty());
    assert!(!dag.contains_node(1));
    assert!(!dag.contains_edge(1, 2));
    assert!(dag.get_node(1).is_none());
    assert!(dag.roots().is_empty());
    assert!(dag.leaves().is_empty());
    let (data, edges) = dag.remove_node(1);
    assert!(data.is_none());
    assert!(edges.is_empty());
    assert_eq!(dag.edges().len(), 0);
}

#[test]
fn insert_and_roots_leaves() {
    let mut dag: Dag<(), ()> = Dag::new();
    dag.insert_node(2, ());
    dag.insert_node(4, ());
    dag.insert_node(3, ());
    assert!(dag.insert_edge(2, 3, ()).is_ok());
    assert!(dag.insert_edge(2, 4, ()).is_ok());
    assert_eq!(dag.roots(), vec![2]);
    let leaves = dag.leaves();
    assert!(leaves.contains(&3));
    assert!(leaves.contains(&4));
    assert!(!leaves.contains(&2));
}

#[test]
fn cycle_rejected() {
    let mut dag: Dag<(), &str> = Dag::new();
    dag.insert_node(2, ());
    dag.insert_node(3, ());
    dag.insert_node(4, ());
    assert!(dag.insert_edge(2, 3, "a").is_ok());
    assert!(dag.insert_edge(3, 4, "b").is_ok());
    match dag.insert_edge(4, 2, "c") {
        Err(DagError::HasCycle(from, to, data)) => {
            assert_eq!(from, 4);
            assert_eq!(to, 2);
            assert_eq!(data, "c");
        },
        _ => panic!("edge closing a cycle must be rejected"),
    }
    assert!(!dag.contains_edge(4, 2));
}

#[test]
fn unknown_node_rejected() {
    let mut dag: Dag<(), ()> = Dag::new();
    dag.insert_node(2, ());
    match dag.insert_edge(99, 2, ()) {
        Err(DagError::NodeNotFound(id)) => assert_eq!(id, 99),
        _ => panic!("absent source must be rejected"),
    }
    match dag.insert_edge(2, 98, ()) {
        Err(DagError::NodeNotFound(id)) => assert_eq!(id, 98),
        _ => panic!("absent target must be rejected"),
    }
    match dag.remove_edge(99, 2) {
        Err(DagError::NodeNotFound(id)) => assert_eq!(id, 99),
        _ => panic!("absent source must be rejected"),
    }
    match dag.get_edge(2, 98) {
        Err(DagError::NodeNotFound(id)) => assert_eq!(id, 98),
        _ => panic!("absent target must be rejected"),
    }
}

#[test]
fn remove_node_cascades() {
    let mut dag: Dag<(), &str> = Dag::new();
    dag.insert_node(2, ());
    dag.insert_node(3, ());
    dag.insert_node(4, ());
    assert!(dag.insert_edge(2, 3, "p23").is_ok());
    assert!(dag.insert_edge(2, 4, "p24").is_ok());
    let (data, edges) = dag.remove_node(2);
    assert_eq!(data, Some(()));
    assert_eq!(edges, vec!["p23", "p24"]);
    assert!(!dag.contains_node(2));
    assert!(!dag.contains_edge(2, 3));
    assert!(!dag.contains_edge(2, 4));
    assert!(dag.contains_node(3));
    assert!(dag.contains_node(4));
}

#[test]
fn remove_node_detaches_children_then_parents() {
    let mut dag: Dag<u32, &str> = Dag::new();
    for id in [1, 2, 3, 4] {
        dag.insert_node(id, id as u32 * 10);
    }
    assert!(dag.insert_edge(1, 2, "in-from-1").is_ok());
    assert!(dag.insert_edge(3, 2, "in-from-3").is_ok());
    assert!(dag.insert_edge(2, 4, "out-to-4").is_ok());
    let (data, edges) = dag.remove_node(2);
    assert_eq!(data, Some(20));
    // Outgoing edges first, then incoming ones in source order.
    assert_eq!(edges, vec!["out-to-4", "in-from-1", "in-from-3"]);
    assert!(!dag.contains_node(2));
    assert!(!dag.contains_edge(1, 2));
    assert!(!dag.contains_edge(3, 2));
    assert!(!dag.contains_edge(2, 4));
    assert_eq!(dag.nodes(), vec![1, 3, 4]);
}

#[test]
fn overwrite_edge_payload() {
    let mut dag: Dag<(), &str> = Dag::new();
    dag.insert_node(2, ());
    dag.insert_node(3, ());
    assert_eq!(dag.insert_edge(2, 3, "payload_a").unwrap(), None);
    assert_eq!(dag.insert_edge(2, 3, "payload_b").unwrap(), Some("payload_a"));
    assert_eq!(dag.get_edge(2, 3).unwrap(), Some(&"payload_b"));
}

#[test]
fn self_loop_rejected() {
    let mut dag: Dag<(), u8> = Dag::new();
    dag.insert_node(1, ());
    match dag.insert_edge(1, 1, 7) {
        Err(DagError::HasCycle(from, to, data)) => {
            assert_eq!((from, to, data), (1, 1, 7));
        },
        _ => panic!("a self-loop is a cycle"),
    }
    assert!(!dag.contains_edge(1, 1));
}

#[test]
fn diamond_is_not_a_cycle() {
    let mut dag: Dag<(), ()> = Dag::new();
    for id in [1, 2, 3, 4, 5] {
        dag.insert_node(id, ());
    }
    assert!(dag.insert_edge(1, 2, ()).is_ok());
    assert!(dag.insert_edge(1, 3, ()).is_ok());
    assert!(dag.insert_edge(2, 4, ()).is_ok());
    assert!(dag.insert_edge(3, 4, ()).is_ok());
    // A node above the diamond still inserts fine.
    assert!(dag.insert_edge(5, 1, ()).is_ok());
    // Closing the diamond from below is a cycle.
    assert!(matches!(dag.insert_edge(4, 1, ()), Err(DagError::HasCycle(4, 1, ()))));
    assert!(matches!(dag.insert_edge(4, 5, ()), Err(DagError::HasCycle(4, 5, ()))));
}

#[test]
fn rollback_leaves_state_unchanged() {
    let mut dag: Dag<(), &str> = Dag::new();
    dag.insert_node(2, ());
    dag.insert_node(3, ());
    dag.insert_node(4, ());
    assert!(dag.insert_edge(2, 3, "x").is_ok());
    assert!(dag.insert_edge(3, 4, "y").is_ok());
    let before_contains = dag.contains_edge(4, 2);
    assert!(dag.insert_edge(4, 2, "z").is_err());
    assert_eq!(dag.contains_edge(4, 2), before_contains);
    assert_eq!(dag.get_edge(2, 3).unwrap(), Some(&"x"));
    assert_eq!(dag.get_edge(3, 4).unwrap(), Some(&"y"));
    assert_eq!(dag.nodes(), vec![2, 3, 4]);
    let mut edges = dag.edges();
    assert_eq!(edges.len(), 2);
    assert_eq!(edges.next(), Some((2, 3)));
    assert_eq!(edges.next(), Some((3, 4)));
    assert_eq!(edges.next(), None);
}

#[test]
fn idempotent_edge_removal() {
    let mut dag: Dag<(), &str> = Dag::new();
    dag.insert_node(1, ());
    dag.insert_node(2, ());
    // Removing an edge that never existed is Ok(None), not an error.
    assert_eq!(dag.remove_edge(1, 2).unwrap(), None);
    assert!(dag.insert_edge(1, 2, "once").is_ok());
    assert_eq!(dag.remove_edge(1, 2).unwrap(), Some("once"));
    assert_eq!(dag.remove_edge(1, 2).unwrap(), None);
    assert!(!dag.contains_edge(1, 2));
    assert_eq!(dag.parents(2).next(), None);
    assert_eq!(dag.children(1).next(), None);
    assert_eq!(dag.nodes(), vec![1, 2]);
}

#[test]
fn mirror_between_children_and_parents() {
    let mut dag: Dag<(), ()> = Dag::new();
    for id in [1, 2, 3] {
        dag.insert_node(id, ());
    }
    assert!(dag.insert_edge(1, 3, ()).is_ok());
    assert!(dag.insert_edge(2, 3, ()).is_ok());
    let mut parents = dag.parents(3);
    assert_eq!(parents.len(), 2);
    assert_eq!(parents.next(), Some(1));
    assert_eq!(parents.next(), Some(2));
    assert_eq!(parents.next(), None);
    let mut children = dag.children(1);
    assert_eq!(children.next(), Some(3));
    assert_eq!(children.next(), None);
    assert!(dag.contains_edge(1, 3));
    assert!(dag.contains_edge(2, 3));
    assert!(!dag.contains_edge(3, 1));
    assert_eq!(dag.parents(1).len(), 0);
}

#[test]
fn edges_iterate_in_source_then_target_order() {
    let mut dag: Dag<(), u8> = Dag::new();
    for id in [1, 2, 3, 4, 5] {
        dag.insert_node(id, ());
    }
    assert!(dag.insert_edge(2, 4, 24).is_ok());
    assert!(dag.insert_edge(1, 5, 15).is_ok());
    assert!(dag.insert_edge(1, 3, 13).is_ok());
    let mut it = dag.edges();
    assert_eq!(it.len(), 3);
    assert_eq!(it.next(), Some((1, 3)));
    assert_eq!(it.next(), Some((1, 5)));
    assert_eq!(it.next(), Some((2, 4)));
    assert_eq!(it.next(), None);
    assert_eq!(it.len(), 0);
}

#[test]
fn nodes_iterate_in_identifier_order() {
    let mut dag: Dag<&str, ()> = Dag::new();
    dag.insert_node(5, "five");
    dag.insert_node(1, "one");
    dag.insert_node(3, "three");
    assert_eq!(dag.nodes(), vec![1, 3, 5]);
    assert_eq!(dag.nodes_len(), 3);
    assert_eq!(dag.get_node(3), Some(&"three"));
}

#[test]
fn insert_node_is_an_upsert() {
    let mut dag: Dag<&str, ()> = Dag::new();
    assert_eq!(dag.insert_node(1, "a"), None);
    dag.insert_node(2, "b");
    assert!(dag.insert_edge(1, 2, ()).is_ok());
    assert_eq!(dag.insert_node(1, "c"), Some("a"));
    // Edges of the pre-existing node are untouched.
    assert!(dag.contains_edge(1, 2));
    assert_eq!(dag.get_node(1), Some(&"c"));
}

#[test]
fn get_edge_distinguishes_missing_edge_from_missing_node() {
    let mut dag: Dag<(), u8> = Dag::new();
    dag.insert_node(1, ());
    dag.insert_node(2, ());
    // Both nodes exist, edge does not: lenient Ok(None).
    assert_eq!(dag.get_edge(1, 2).unwrap(), None);
    // contains_edge tolerates absent endpoints, get_edge does not.
    assert!(!dag.contains_edge(1, 9));
    assert!(matches!(dag.get_edge(1, 9), Err(DagError::NodeNotFound(9))));
    assert!(matches!(dag.get_edge(8, 2), Err(DagError::NodeNotFound(8))));
}

#[test]
fn children_of_absent_node_is_empty() {
    let dag: Dag<(), ()> = Dag::new();
    let mut children = dag.children(99);
    assert_eq!(children.len(), 0);
    assert_eq!(children.next(), None);
    let mut parents = dag.parents(99);
    assert_eq!(parents.len(), 0);
    assert_eq!(parents.next(), None);
}

#[test]
fn roots_and_leaves_follow_edges() {
    let mut dag: Dag<(), ()> = Dag::new();
    for id in [1, 2, 3, 4] {
        dag.insert_node(id, ());
    }
    assert!(dag.insert_edge(1, 2, ()).is_ok());
    assert!(dag.insert_edge(2, 3, ()).is_ok());
    assert_eq!(dag.roots(), vec![1, 4]);
    assert_eq!(dag.leaves(), vec![3, 4]);
    // Removing the middle node updates both sets.
    dag.remove_node(2);
    assert_eq!(dag.roots(), vec![1, 3, 4]);
    assert_eq!(dag.leaves(), vec![1, 3, 4]);
}

#[test]
fn clone_preserves_graph() {
    let mut dag: Dag<&str, u8> = Dag::new();
    dag.insert_node(1, "n1");
    dag.insert_node(2, "n2");
    assert!(dag.insert_edge(1, 2, 12).is_ok());
    let copy = dag.clone();
    assert_eq!(copy.nodes(), vec![1, 2]);
    assert!(copy.contains_edge(1, 2));
    assert_eq!(copy.get_node(1), Some(&"n1"));
    assert_eq!(copy.get_edge(1, 2).unwrap(), Some(&12));
    // The copy is independent: mutating it leaves the original alone.
    let mut copy = copy;
    copy.remove_node(1);
    assert!(dag.contains_edge(1, 2));
    assert!(!copy.contains_node(1));
}

#[test]
fn acyclicity_holds_after_each_successful_insert() {
    // Build a graph edge by edge; after every successful insertion an
    // independent check over the enumerated edges finds no cycle.
    let mut dag: Dag<(), ()> = Dag::new();
    for id in 0..8u64 {
        dag.insert_node(id, ());
    }
    let tries = [
        (0, 1),
        (1, 2),
        (2, 3),
        (3, 0), // closes a cycle: must fail
        (0, 3),
        (3, 4),
        (4, 0), // closes a cycle: must fail
        (5, 6),
        (6, 7),
        (7, 5), // closes a cycle: must fail
        (2, 7),
    ];
    for (from, to) in tries {
        let _ = dag.insert_edge(from, to, ());
        let mut pairs = Vec::new();
        let mut it = dag.edges();
        while let Some(pair) = it.next() {
            pairs.push(pair);
        }
        assert!(no_cycle(&pairs));
    }
    assert!(dag.contains_edge(2, 7));
    assert!(!dag.contains_edge(3, 0));
    assert!(!dag.contains_edge(4, 0));
    assert!(!dag.contains_edge(7, 5));
}

/// An independent cycle check over plain edge pairs: repeatedly strip
/// nodes without outgoing edges; a cycle is exactly what cannot be
/// stripped away.
fn no_cycle(pairs: &[(u64, u64)]) -> bool {
    let mut remaining: Vec<(u64, u64)> = pairs.to_vec();
    loop {
        if remaining.is_empty() {
            return true;
        }
        let before = remaining.len();
        let sources: Vec<u64> = remaining.iter().map(|p| p.0).collect();
        remaining.retain(|p| sources.contains(&p.1));
        if remaining.len() == before {
            return false;
        }
    }
}
