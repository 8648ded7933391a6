use povu::{Error, Orientation, PovuGraph};

#[test]
fn test_create_empty_graph() {
    let graph = PovuGraph::new(10, 10, 0);
    assert_eq!(graph.vertex_count(), 0);
    assert_eq!(graph.edge_count(), 0);
}

#[test]
fn test_add_single_vertex() {
    let mut graph = PovuGraph::new(10, 10, 0);

    let idx = graph.add_vertex(1, "ACGT").expect("Failed to add vertex");
    assert_eq!(idx, 0, "First vertex should have index 0");

    assert_eq!(graph.vertex_count(), 1);
}

#[test]
fn test_add_multiple_vertices() {
    let mut graph = PovuGraph::new(10, 10, 0);

    graph.add_vertex(1, "AAAA").expect("Failed to add vertex 1");
    graph.add_vertex(2, "CCCC").expect("Failed to add vertex 2");
    graph.add_vertex(3, "GGGG").expect("Failed to add vertex 3");
    graph.add_vertex(4, "TTTT").expect("Failed to add vertex 4");

    assert_eq!(graph.vertex_count(), 4);
}

#[test]
fn test_add_edge() {
    let mut graph = PovuGraph::new(10, 10, 0);

    graph.add_vertex(1, "AAAA").unwrap();
    graph.add_vertex(2, "CCCC").unwrap();

    let edge_idx = graph
        .add_edge(1, Orientation::Forward, 2, Orientation::Forward)
        .expect("Failed to add edge");

    assert_eq!(edge_idx, 0, "First edge should have index 0");
    assert_eq!(graph.edge_count(), 1);
}

#[test]
fn test_build_simple_path() {
    let mut graph = PovuGraph::new(10, 10, 0);

    // Build a simple linear path: 1 -> 2 -> 3
    graph.add_vertex(1, "AAA").unwrap();
    graph.add_vertex(2, "CCC").unwrap();
    graph.add_vertex(3, "GGG").unwrap();

    graph.add_edge(1, Orientation::Forward, 2, Orientation::Forward).unwrap();
    graph.add_edge(2, Orientation::Forward, 3, Orientation::Forward).unwrap();

    assert_eq!(graph.vertex_count(), 3);
    assert_eq!(graph.edge_count(), 2);
}

#[test]
fn test_build_diamond_graph() {
    let mut graph = PovuGraph::new(10, 10, 0);

    // Build diamond: 1 -> 2 -> 4
    //                  \-> 3 ->/
    graph.add_vertex(1, "AAAA").unwrap();
    graph.add_vertex(2, "GGGG").unwrap();
    graph.add_vertex(3, "TTTT").unwrap();
    graph.add_vertex(4, "CCCC").unwrap();

    graph.add_edge(1, Orientation::Forward, 2, Orientation::Forward).unwrap();
    graph.add_edge(1, Orientation::Forward, 3, Orientation::Forward).unwrap();
    graph.add_edge(2, Orientation::Forward, 4, Orientation::Forward).unwrap();
    graph.add_edge(3, Orientation::Forward, 4, Orientation::Forward).unwrap();

    assert_eq!(graph.vertex_count(), 4);
    assert_eq!(graph.edge_count(), 4);
}

#[test]
fn test_finalize_graph() {
    let mut graph = PovuGraph::new(10, 10, 0);

    graph.add_vertex(1, "ACGT").unwrap();
    graph.add_vertex(2, "TGCA").unwrap();
    graph.add_edge(1, Orientation::Forward, 2, Orientation::Forward).unwrap();

    // Should not panic
    let _ = graph.finalize();

    // Graph should still be queryable
    assert_eq!(graph.vertex_count(), 2);
    assert_eq!(graph.edge_count(), 1);
}

#[test]
fn test_query_built_vertices() {
    let mut graph = PovuGraph::new(10, 10, 0);

    graph.add_vertex(10, "AAAA").unwrap();
    graph.add_vertex(20, "CCCC").unwrap();
    graph.add_vertex(30, "GGGG").unwrap();

    let _ = graph.finalize();

    let vertices = graph.vertices().expect("Failed to get vertices");

    assert_eq!(vertices.len(), 3);

    // Check IDs
    let ids: Vec<u64> = vertices.iter().map(|v| v.id).collect();
    assert!(ids.contains(&10));
    assert!(ids.contains(&20));
    assert!(ids.contains(&30));

    // Check sequences
    for v in &vertices {
        match v.id {
            10 => assert_eq!(v.sequence, "AAAA"),
            20 => assert_eq!(v.sequence, "CCCC"),
            30 => assert_eq!(v.sequence, "GGGG"),
            _ => panic!("Unexpected vertex ID: {}", v.id),
        }
    }
}

#[test]
fn test_query_built_edges() {
    let mut graph = PovuGraph::new(10, 10, 0);

    graph.add_vertex(1, "A").unwrap();
    graph.add_vertex(2, "C").unwrap();
    graph.add_vertex(3, "G").unwrap();

    graph.add_edge(1, Orientation::Forward, 2, Orientation::Forward).unwrap();
    graph.add_edge(2, Orientation::Reverse, 3, Orientation::Forward).unwrap();

    let _ = graph.finalize();

    let edges = graph.edges().expect("Failed to get edges");

    assert_eq!(edges.len(), 2);

    // Check edge 1 -> 2
    let edge1 = edges.iter().find(|e| e.from_id == 1).expect("Edge 1->2 not found");
    assert_eq!(edge1.from_id, 1);
    assert_eq!(edge1.from_orientation, Orientation::Forward);
    assert_eq!(edge1.to_id, 2);
    assert_eq!(edge1.to_orientation, Orientation::Forward);

    // Check edge 2 -> 3
    let edge2 = edges.iter().find(|e| e.from_id == 2).expect("Edge 2->3 not found");
    assert_eq!(edge2.from_id, 2);
    assert_eq!(edge2.from_orientation, Orientation::Reverse);
    assert_eq!(edge2.to_id, 3);
    assert_eq!(edge2.to_orientation, Orientation::Forward);
}

#[test]
fn test_bidirected_orientations() {
    let mut graph = PovuGraph::new(10, 10, 0);

    graph.add_vertex(1, "ACGT").unwrap();
    graph.add_vertex(2, "TGCA").unwrap();

    // Test all orientation combinations
    graph.add_edge(1, Orientation::Forward, 2, Orientation::Forward).unwrap();
    graph.add_edge(1, Orientation::Forward, 2, Orientation::Reverse).unwrap();
    graph.add_edge(1, Orientation::Reverse, 2, Orientation::Forward).unwrap();
    graph.add_edge(1, Orientation::Reverse, 2, Orientation::Reverse).unwrap();

    assert_eq!(graph.edge_count(), 4);
}

#[test]
fn test_empty_sequence() {
    let mut graph = PovuGraph::new(10, 10, 0);

    // Should handle empty sequences
    let result = graph.add_vertex(1, "");
    assert!(result.is_ok(), "Should accept empty sequence");
}

#[test]
fn test_long_sequence() {
    let mut graph = PovuGraph::new(10, 10, 0);

    // Test with a longer sequence
    let long_seq = "ACGTACGTACGTACGTACGTACGTACGTACGTACGTACGT";
    let result = graph.add_vertex(1, long_seq);
    assert!(result.is_ok(), "Should handle long sequences");

    let _ = graph.finalize();

    let vertices = graph.vertices().unwrap();
    assert_eq!(vertices[0].sequence, long_seq);
    assert_eq!(vertices[0].len(), 40);
}

#[test]
fn builder_tests_test_self_loop() {
    let mut graph = PovuGraph::new(10, 10, 0);

    graph.add_vertex(1, "ACGT").unwrap();

    // Self-loop: vertex connects to itself
    let result = graph.add_edge(1, Orientation::Forward, 1, Orientation::Reverse);
    assert!(result.is_ok(), "Should allow self-loops");

    assert_eq!(graph.edge_count(), 1);
}

#[test]
fn duplicate_vertex_ids_are_refused_and_counted_once() {
    let mut graph = PovuGraph::new(0, 0, 0);
    assert_eq!(graph.add_vertex(1, "A").unwrap(), 0);
    assert_eq!(graph.add_vertex(2, "C").unwrap(), 1);
    assert!(matches!(graph.add_vertex(1, "G"), Err(Error::DuplicateVertex { id: 1 })));
    assert_eq!(graph.add_vertex(3, "T").unwrap(), 2);
    assert!(matches!(graph.add_vertex(2, "T"), Err(Error::DuplicateVertex { id: 2 })));
    graph.finalize().unwrap();
    // three distinct IDs were added
    assert_eq!(graph.vertex_count(), 3);
    let vertices = graph.vertices().unwrap();
    assert_eq!(vertices[0].sequence, "A");
}

#[test]
fn finalize_with_dangling_edge_fails_and_keeps_counts() {
    let mut graph = PovuGraph::new(0, 0, 0);
    graph.add_vertex(1, "A").unwrap();
    graph.add_vertex(2, "C").unwrap();
    graph.add_edge(1, Orientation::Forward, 2, Orientation::Forward).unwrap();
    graph.add_edge(2, Orientation::Forward, 99, Orientation::Forward).unwrap();
    let r = graph.finalize();
    assert!(matches!(r, Err(Error::DanglingEdge { edge: 1, vertex_id: 99 })));
    assert_eq!(graph.vertex_count(), 2);
    assert_eq!(graph.edge_count(), 2);
    assert!(!graph.is_finalized());
    // the graph stays open: the missing vertex can still be added
    graph.add_vertex(99, "G").unwrap();
    assert!(graph.finalize().is_ok());
    assert!(graph.is_finalized());
}

#[test]
fn finalize_with_dangling_step_fails() {
    let mut graph = PovuGraph::new(0, 0, 0);
    graph.add_vertex(1, "A").unwrap();
    graph
        .add_path("ref", vec![povu::Step::new(1, Orientation::Forward), povu::Step::new(5, Orientation::Forward)])
        .unwrap();
    assert!(matches!(graph.finalize(), Err(Error::DanglingStep { path: 0, vertex_id: 5 })));
    assert!(!graph.is_finalized());
}

#[test]
fn additions_after_finalize_are_refused() {
    let mut graph = PovuGraph::new(0, 0, 0);
    graph.add_vertex(1, "A").unwrap();
    graph.finalize().unwrap();
    // finalizing again does nothing
    assert!(graph.finalize().is_ok());
    assert!(matches!(graph.add_vertex(2, "C"), Err(Error::Finalized)));
    assert!(matches!(
        graph.add_edge(1, Orientation::Forward, 1, Orientation::Forward),
        Err(Error::Finalized)
    ));
    assert!(matches!(graph.add_path("p", vec![]), Err(Error::Finalized)));
    assert_eq!(graph.vertex_count(), 1);
    assert_eq!(graph.edge_count(), 0);
    assert_eq!(graph.path_count(), 0);
}

#[test]
fn invalid_path_names_are_refused() {
    let mut graph = PovuGraph::new(0, 0, 0);
    assert!(matches!(graph.add_path("", vec![]), Err(Error::InvalidPathName)));
    assert!(matches!(graph.add_path("a\tb", vec![]), Err(Error::InvalidPathName)));
    assert!(matches!(graph.add_path("a\nb", vec![]), Err(Error::InvalidPathName)));
    assert!(matches!(graph.add_path("a\0b", vec![]), Err(Error::InvalidPathName)));
    assert_eq!(graph.add_path("HG002#1#chr1", vec![]).unwrap(), 0);
    assert_eq!(graph.path_count(), 1);
    let paths = graph.paths().unwrap();
    assert_eq!(paths[0].name, "HG002#1#chr1");
}

#[test]
fn edges_are_listed_once_as_added() {
    let mut graph = PovuGraph::new(0, 0, 0);
    graph.add_vertex(1, "A").unwrap();
    graph.add_vertex(2, "C").unwrap();
    graph.add_edge(1, Orientation::Forward, 2, Orientation::Forward).unwrap();
    graph.finalize().unwrap();
    let edges = graph.edges().unwrap();
    assert_eq!(edges.len(), 1);
    assert_eq!(edges[0], povu::Edge::new(1, Orientation::Forward, 2, Orientation::Forward));
}

#[test]
fn degree_and_neighbors_per_end() {
    let mut g = PovuGraph::new(0, 0, 0);
    for id in 1..=4 {
        g.add_vertex(id, "A").unwrap();
    }
    g.add_edge(1, Orientation::Forward, 2, Orientation::Forward).unwrap();
    g.add_edge(1, Orientation::Forward, 3, Orientation::Forward).unwrap();
    g.add_edge(2, Orientation::Forward, 4, Orientation::Forward).unwrap();
    // stored as the reverse of 3+ -> 4+: the same adjacency
    g.add_edge(4, Orientation::Reverse, 3, Orientation::Reverse).unwrap();
    assert_eq!(g.degree(1, Orientation::Reverse), 2);
    assert_eq!(g.degree(1, Orientation::Forward), 0);
    assert_eq!(
        g.neighbors(1, Orientation::Reverse),
        vec![(2, Orientation::Forward), (3, Orientation::Forward)]
    );
    assert_eq!(g.degree(4, Orientation::Forward), 2);
    assert_eq!(
        g.neighbors(4, Orientation::Forward),
        vec![(2, Orientation::Reverse), (3, Orientation::Reverse)]
    );
    assert_eq!(g.degree(4, Orientation::Reverse), 0);
    assert_eq!(g.degree(3, Orientation::Reverse), 1);
    assert_eq!(g.degree(3, Orientation::Forward), 1);
}

#[test]
fn a_loop_on_one_end_counts_twice() {
    let mut g = PovuGraph::new(0, 0, 0);
    g.add_vertex(1, "ACGT").unwrap();
    g.add_edge(1, Orientation::Forward, 1, Orientation::Reverse).unwrap();
    assert_eq!(g.degree(1, Orientation::Reverse), 2);
    assert_eq!(g.degree(1, Orientation::Forward), 0);
    assert_eq!(g.neighbors(1, Orientation::Reverse), vec![(1, Orientation::Reverse), (1, Orientation::Reverse)]);
}
