use gitgraph::graph::CommitGraph;
use gitgraph::graph::GraphError;
use gitgraph::layout::get_commit_depth;
use gitgraph::layout::get_commit_height;
use gitgraph::layout::get_commit_height_checked;
use gitgraph::layout::get_commit_node_location;
use gitgraph::layout::get_commit_tree_size;

fn fork_graph() -> CommitGraph {
    // One root `a` with children `b` then `c`, in that discovery order.
    let mut g = CommitGraph::new();
    assert!(g.add_commit("a".to_string(), Vec::new(), None).is_ok());
    assert!(g
        .add_commit("b".to_string(), vec!["a".to_string()], Some("main".to_string()))
        .is_ok());
    assert!(g.add_commit("c".to_string(), vec!["a".to_string()], None).is_ok());
    g
}

#[test]
fn depth_of_root_is_zero() {
    let g = fork_graph();
    assert_eq!(get_commit_depth(&g, 0), 0);
}

#[test]
fn depth_is_one_more_than_parent() {
    let g = fork_graph();
    assert_eq!(get_commit_depth(&g, 1), 1);
    assert_eq!(get_commit_depth(&g, 2), 1);
}

#[test]
fn depth_of_merge_takes_minimum_parent() {
    // a <- b <- c, and d merges c with a: depth(d) = 1 + min(2, 0) = 1.
    let mut g = CommitGraph::new();
    g.add_commit("a".to_string(), Vec::new(), None).unwrap();
    g.add_commit("b".to_string(), vec!["a".to_string()], None).unwrap();
    g.add_commit("c".to_string(), vec!["b".to_string()], None).unwrap();
    g.add_commit("d".to_string(), vec!["c".to_string(), "a".to_string()], None)
        .unwrap();
    assert_eq!(get_commit_depth(&g, 2), 2);
    assert_eq!(get_commit_depth(&g, 3), 1);
}

#[test]
fn tree_size_of_leaf_is_zero() {
    let g = fork_graph();
    assert_eq!(get_commit_tree_size(&g, 1), 0);
    assert_eq!(get_commit_tree_size(&g, 2), 0);
}

#[test]
fn tree_size_counts_extra_rows() {
    let g = fork_graph();
    // Root has two children: one extra row beyond its own.
    assert_eq!(get_commit_tree_size(&g, 0), 1);
}

#[test]
fn fork_heights_straddle_the_root() {
    let g = fork_graph();
    assert_eq!(get_commit_height(&g, 0), 0);
    // b is the first child: height(a) - (1 + 0) = -1; c branches below: +1.
    assert_eq!(get_commit_height(&g, 1), -1);
    assert_eq!(get_commit_height(&g, 2), 1);
    assert_eq!(get_commit_height_checked(&g, 1), Some(-1));
    assert_eq!(get_commit_height_checked(&g, 2), Some(1));
}

#[test]
fn straight_line_keeps_parent_height() {
    // a <- b <- c: every commit continues on the root's row.
    let mut g = CommitGraph::new();
    g.add_commit("a".to_string(), Vec::new(), None).unwrap();
    g.add_commit("b".to_string(), vec!["a".to_string()], None).unwrap();
    g.add_commit("c".to_string(), vec!["b".to_string()], None).unwrap();
    assert_eq!(get_commit_height(&g, 0), 0);
    assert_eq!(get_commit_height(&g, 1), 0);
    assert_eq!(get_commit_height(&g, 2), 0);
}

#[test]
fn node_locations_scale_depth_and_height() {
    let g = fork_graph();
    assert_eq!(get_commit_node_location(&g, 0), Some((0, 0)));
    assert_eq!(get_commit_node_location(&g, 1), Some((125, -75)));
    assert_eq!(get_commit_node_location(&g, 2), Some((125, 75)));
}

#[test]
fn rebuilding_from_identical_input_changes_nothing() {
    let mut g = fork_graph();
    // Replay the same stream: node set, edges and labels stay identical.
    assert!(g.add_commit("a".to_string(), Vec::new(), None).is_ok());
    assert!(g
        .add_commit("b".to_string(), vec!["a".to_string()], Some("main".to_string()))
        .is_ok());
    assert!(g.add_commit("c".to_string(), vec!["a".to_string()], None).is_ok());
    assert_eq!(g.len(), 3);
    let a = g.get_node(&"a".to_string()).unwrap();
    assert_eq!(a.children, vec!["b".to_string(), "c".to_string()]);
    let b = g.get_node(&"b".to_string()).unwrap();
    assert_eq!(b.parents, vec!["a".to_string()]);
    assert_eq!(b.reference.as_deref(), Some("main"));
}

#[test]
fn first_label_wins() {
    let mut g = fork_graph();
    g.add_commit("b".to_string(), vec!["a".to_string()], Some("dev".to_string()))
        .unwrap();
    let b = g.get_node(&"b".to_string()).unwrap();
    assert_eq!(b.reference.as_deref(), Some("main"));
    // A label attaches to a previously unlabelled commit.
    g.add_commit("c".to_string(), Vec::new(), Some("topic".to_string()))
        .unwrap();
    let c = g.get_node(&"c".to_string()).unwrap();
    assert_eq!(c.reference.as_deref(), Some("topic"));
}

#[test]
fn missing_parent_is_a_consistency_error() {
    let mut g = fork_graph();
    let r = g.add_commit("z".to_string(), vec!["nope".to_string()], None);
    assert_eq!(r, Err(GraphError::GraphConsistency));
    assert_eq!(g.len(), 3);
}

#[test]
fn unknown_id_lookup_is_explicit() {
    let g = fork_graph();
    match g.get_node(&"missing".to_string()) {
        Err(GraphError::UnknownCommitId) => {}
        _ => panic!("expected an unknown-id error"),
    }
}

#[test]
fn duplicate_parent_wires_two_child_edges() {
    let mut g = CommitGraph::new();
    g.add_commit("a".to_string(), Vec::new(), None).unwrap();
    g.add_commit("m".to_string(), vec!["a".to_string(), "a".to_string()], None)
        .unwrap();
    let a = g.get_node(&"a".to_string()).unwrap();
    assert_eq!(a.children, vec!["m".to_string(), "m".to_string()]);
}
