use btreedag::dag::BTreeDAG;
use btreedag::dag::DagError;

#[test]
fn new_and_default_are_empty() {
    let dag = BTreeDAG::new();
    assert_eq!(dag.vertices(), Vec::<u64>::new());
    let dag2 = BTreeDAG::default();
    assert_eq!(dag2.vertices(), Vec::<u64>::new());
    assert_eq!(dag, dag2);
}

#[test]
fn add_vertex_and_lookup() {
    let mut dag = BTreeDAG::new();
    assert_eq!(dag.add_vertex(1), None);
    assert_eq!(dag.add_vertex(2), None);
    assert_eq!(dag.vertices(), vec![1, 2]);
    assert_eq!(dag.get_vertex_value(1), Some(vec![]));
    assert_eq!(dag.get_vertex_value(3), None);
    assert_eq!(dag.connections(2), Some(vec![]));
    assert_eq!(dag.connections(9), None);
}

#[test]
fn add_vertex_readd_returns_previous_edges_and_resets() {
    let mut dag = BTreeDAG::new();
    dag.add_vertex(1);
    dag.add_edge(1, 2).unwrap();
    let prev = dag.add_vertex(1);
    assert_eq!(prev, Some(vec![2]));
    assert_eq!(dag.connections(1), Some(vec![]));
}

#[test]
fn scenario_cycle_rejected() {
    let mut dag = BTreeDAG::new();
    dag.add_vertex(1);
    dag.add_vertex(2);
    dag.add_vertex(3);
    assert!(dag.add_edge(1, 2).is_ok());
    assert!(dag.add_edge(2, 3).is_ok());
    assert_eq!(dag.add_edge(3, 1), Err(DagError::CycleDetected));
    assert_eq!(dag.adjacent(1, 2), Ok(true));
    assert_eq!(dag.adjacent(2, 3), Ok(true));
    assert_eq!(dag.adjacent(3, 1), Ok(false));
    assert_eq!(dag.adjacent(1, 3), Ok(false));
    assert_eq!(dag.connections(1), Some(vec![2]));
    assert_eq!(dag.connections(2), Some(vec![3]));
    assert_eq!(dag.connections(3), Some(vec![]));
}

#[test]
fn scenario_unregistered_edge_target() {
    let mut dag = BTreeDAG::new();
    dag.add_vertex(1);
    assert_eq!(dag.add_edge(1, 2), Ok(vec![]));
    assert_eq!(dag.adjacent(1, 2), Err(DagError::VertexNotFound));
}

#[test]
fn scenario_prune_diamond() {
    let mut dag = BTreeDAG::new();
    for v in 1..=4 {
        dag.add_vertex(v);
    }
    dag.add_edge(1, 2).unwrap();
    dag.add_edge(1, 3).unwrap();
    dag.add_edge(2, 4).unwrap();
    dag.add_edge(3, 4).unwrap();
    assert_eq!(dag.prune(1), Ok(()));
    assert_eq!(dag.vertices(), Vec::<u64>::new());
}

#[test]
fn scenario_remove_vertex_missing_key_leaves_map_unchanged() {
    let mut dag = BTreeDAG::new();
    dag.add_vertex(1);
    dag.add_vertex(2);
    dag.add_edge(1, 2).unwrap();
    assert_eq!(dag.remove_vertex(5), Err(DagError::VertexNotFound));
    assert_eq!(dag.vertices(), vec![1, 2]);
    assert_eq!(dag.connections(1), Some(vec![2]));
    assert_eq!(dag.connections(2), Some(vec![]));
}

#[test]
fn remove_edge_is_idempotent() {
    let mut dag = BTreeDAG::new();
    dag.add_vertex(1);
    dag.add_vertex(2);
    dag.add_edge(1, 2).unwrap();
    assert_eq!(dag.remove_edge(1, 2), Ok(vec![2]));
    let after_first = dag.clone();
    assert_eq!(dag.remove_edge(1, 2), Ok(vec![]));
    assert_eq!(dag, after_first);
    assert_eq!(dag.connections(1), Some(vec![]));
}

#[test]
fn remove_edge_requires_registered_endpoints() {
    let mut dag = BTreeDAG::new();
    dag.add_vertex(1);
    dag.add_edge(1, 2).unwrap();
    assert_eq!(dag.remove_edge(1, 2), Err(DagError::VertexNotFound));
    assert_eq!(dag.remove_edge(9, 1), Err(DagError::VertexNotFound));
    assert_eq!(dag.connections(1), Some(vec![2]));
}

#[test]
fn add_edge_existing_edge_is_idempotent() {
    let mut dag = BTreeDAG::new();
    dag.add_vertex(1);
    dag.add_vertex(2);
    assert_eq!(dag.add_edge(1, 2), Ok(vec![]));
    assert_eq!(dag.add_edge(1, 2), Ok(vec![2]));
    assert_eq!(dag.connections(1), Some(vec![2]));
}

#[test]
fn add_edge_self_loop_rejected() {
    let mut dag = BTreeDAG::new();
    dag.add_vertex(1);
    assert_eq!(dag.add_edge(1, 1), Err(DagError::CycleDetected));
    assert_eq!(dag.connections(1), Some(vec![]));
}

#[test]
fn add_edge_unregistered_source_rejected() {
    let mut dag = BTreeDAG::new();
    dag.add_vertex(1);
    assert_eq!(dag.add_edge(9, 1), Err(DagError::VertexNotFound));
    assert_eq!(dag.vertices(), vec![1]);
}

#[test]
fn longer_cycle_rejected_and_graph_unchanged() {
    let mut dag = BTreeDAG::new();
    for v in 1..=4 {
        dag.add_vertex(v);
    }
    dag.add_edge(1, 2).unwrap();
    dag.add_edge(2, 3).unwrap();
    dag.add_edge(3, 4).unwrap();
    let before = dag.clone();
    assert_eq!(dag.add_edge(4, 1), Err(DagError::CycleDetected));
    assert_eq!(dag, before);
}

#[test]
fn remove_vertex_clears_incoming_edges() {
    let mut dag = BTreeDAG::new();
    dag.add_vertex(1);
    dag.add_vertex(2);
    dag.add_vertex(3);
    dag.add_edge(1, 3).unwrap();
    dag.add_edge(2, 3).unwrap();
    assert_eq!(dag.remove_vertex(3), Ok(vec![]));
    assert_eq!(dag.vertices(), vec![1, 2]);
    assert_eq!(dag.connections(1), Some(vec![]));
    assert_eq!(dag.connections(2), Some(vec![]));
}

#[test]
fn remove_vertex_keeps_outgoing_targets() {
    let mut dag = BTreeDAG::new();
    dag.add_vertex(1);
    dag.add_vertex(2);
    dag.add_vertex(3);
    dag.add_edge(1, 2).unwrap();
    dag.add_edge(1, 3).unwrap();
    let prev = dag.remove_vertex(1).unwrap();
    assert_eq!(prev, vec![2, 3]);
    assert_eq!(dag.vertices(), vec![2, 3]);
}

#[test]
fn prune_removes_exactly_the_reachable_set() {
    let mut dag = BTreeDAG::new();
    for v in 1..=5 {
        dag.add_vertex(v);
    }
    dag.add_edge(1, 2).unwrap();
    dag.add_edge(2, 3).unwrap();
    dag.add_edge(4, 2).unwrap();
    dag.add_edge(4, 5).unwrap();
    assert_eq!(dag.prune(1), Ok(()));
    assert_eq!(dag.vertices(), vec![4, 5]);
    assert_eq!(dag.connections(4), Some(vec![5]));
    assert_eq!(dag.connections(5), Some(vec![]));
}

#[test]
fn prune_skips_successor_deleted_by_earlier_branch() {
    let mut dag = BTreeDAG::new();
    dag.add_vertex(1);
    dag.add_vertex(2);
    dag.add_vertex(3);
    dag.add_edge(1, 2).unwrap();
    dag.add_edge(1, 3).unwrap();
    dag.add_edge(2, 3).unwrap();
    assert_eq!(dag.prune(1), Ok(()));
    assert_eq!(dag.vertices(), Vec::<u64>::new());
}

#[test]
fn prune_with_unregistered_successor_succeeds() {
    let mut dag = BTreeDAG::new();
    dag.add_vertex(1);
    dag.add_edge(1, 9).unwrap();
    assert_eq!(dag.prune(1), Ok(()));
    assert_eq!(dag.vertices(), Vec::<u64>::new());
}

#[test]
fn prune_unregistered_vertex_fails() {
    let mut dag = BTreeDAG::new();
    dag.add_vertex(1);
    assert_eq!(dag.prune(7), Err(DagError::VertexNotFound));
    assert_eq!(dag.vertices(), vec![1]);
}

#[test]
fn cyclic_relationship_exists_reports_reachability() {
    let mut dag = BTreeDAG::new();
    dag.add_vertex(1);
    dag.add_vertex(2);
    dag.add_vertex(3);
    dag.add_edge(1, 2).unwrap();
    dag.add_edge(2, 3).unwrap();
    assert!(dag.cyclic_relationship_exists(3, 1));
    assert!(!dag.cyclic_relationship_exists(1, 3));
    assert!(dag.cyclic_relationship_exists(1, 1));
}

#[test]
fn vertices_lists_every_registered_key_once() {
    let mut dag = BTreeDAG::new();
    dag.add_vertex(3);
    dag.add_vertex(1);
    dag.add_vertex(2);
    dag.add_vertex(2);
    assert_eq!(dag.vertices(), vec![1, 2, 3]);
}

#[test]
fn successor_snapshots_come_back_in_ascending_order() {
    let mut dag = BTreeDAG::new();
    dag.add_vertex(1);
    dag.add_edge(1, 9).unwrap();
    dag.add_edge(1, 4).unwrap();
    dag.add_edge(1, 7).unwrap();
    assert_eq!(dag.connections(1), Some(vec![4, 7, 9]));
    assert_eq!(dag.get_vertex_value(1), Some(vec![4, 7, 9]));
    assert_eq!(dag.add_vertex(1), Some(vec![4, 7, 9]));
}

#[test]
fn previous_sets_come_back_in_ascending_order() {
    let mut dag = BTreeDAG::new();
    dag.add_vertex(1);
    dag.add_vertex(3);
    dag.add_vertex(8);
    dag.add_edge(1, 8).unwrap();
    dag.add_edge(1, 3).unwrap();
    assert_eq!(dag.add_edge(1, 5), Ok(vec![3, 8]));
    assert_eq!(dag.remove_edge(1, 3), Ok(vec![3, 5, 8]));
    assert_eq!(dag.connections(1), Some(vec![5, 8]));
    assert_eq!(dag.remove_vertex(1), Ok(vec![5, 8]));
}
