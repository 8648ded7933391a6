use povu::{Error, Orientation, PovuGraph, Step};

fn fwd(id: u64) -> Step {
    Step::new(id, Orientation::Forward)
}

fn add_fwd_edge(g: &mut PovuGraph, a: u64, b: u64) {
    g.add_edge(a, Orientation::Forward, b, Orientation::Forward).unwrap();
}

fn diamond() -> PovuGraph {
    let mut g = PovuGraph::new(4, 4, 1);
    g.add_vertex(1, "AAAA").unwrap();
    g.add_vertex(2, "GGGG").unwrap();
    g.add_vertex(3, "TTTT").unwrap();
    g.add_vertex(4, "CCCC").unwrap();
    add_fwd_edge(&mut g, 1, 2);
    add_fwd_edge(&mut g, 1, 3);
    add_fwd_edge(&mut g, 2, 4);
    add_fwd_edge(&mut g, 3, 4);
    g.add_path("ref", vec![fwd(1), fwd(2), fwd(4)]).unwrap();
    g
}

#[test]
fn linear_chain_has_no_variation() {
    let mut g = PovuGraph::new(4, 3, 1);
    for id in 1..=4 {
        g.add_vertex(id, "ACGT").unwrap();
    }
    add_fwd_edge(&mut g, 1, 2);
    add_fwd_edge(&mut g, 2, 3);
    add_fwd_edge(&mut g, 3, 4);
    g.add_path("ref", vec![fwd(1), fwd(2), fwd(3), fwd(4)]).unwrap();
    g.finalize().unwrap();
    assert!(matches!(g.analyze(), Err(Error::NoVariationFound)));
}

#[test]
fn diamond_has_one_region() {
    let mut g = diamond();
    g.finalize().unwrap();
    let a = g.analyze().unwrap();
    assert_eq!(a.flubble_count(), 1);
    assert_eq!(a.backbone_path(), 0);
    let tree = a.pvst_tree();
    assert_eq!(tree.vertex_count(), 1);
    let r = tree.region_of(0);
    assert_eq!(r.start, fwd(1));
    assert_eq!(r.end, fwd(4));
    assert_eq!(r.start_position, 0);
    assert_eq!(r.end_position, 2);
    assert_eq!(r.interior, vec![2, 3]);
    assert_eq!(tree.depth(0), 0);
    assert_eq!(tree.parent(0), None);
    assert_eq!(tree.roots(), vec![0]);
    assert!(tree.children(0).is_empty());
}

#[test]
fn diamond_through_other_branch() {
    let mut g = diamond();
    g.add_path("alt", vec![fwd(1), fwd(3), fwd(4)]).unwrap();
    g.set_references_from_names(&["alt"]).unwrap();
    g.finalize().unwrap();
    let a = g.analyze().unwrap();
    assert_eq!(a.backbone_path(), 1);
    let r = a.pvst_tree().region_of(0);
    assert_eq!(r.start, fwd(1));
    assert_eq!(r.end, fwd(4));
    assert_eq!(r.interior, vec![2, 3]);
}

#[test]
fn nested_regions_form_a_tree() {
    // backbone 1 2 3 4 5; 6 is an alternative to 3 between 2 and 4;
    // the edge 1 -> 5 skips the whole middle.
    let mut g = PovuGraph::new(6, 7, 1);
    for id in 1..=6 {
        g.add_vertex(id, "A").unwrap();
    }
    add_fwd_edge(&mut g, 1, 2);
    add_fwd_edge(&mut g, 2, 3);
    add_fwd_edge(&mut g, 3, 4);
    add_fwd_edge(&mut g, 4, 5);
    add_fwd_edge(&mut g, 2, 6);
    add_fwd_edge(&mut g, 6, 4);
    add_fwd_edge(&mut g, 1, 5);
    g.add_path("ref", vec![fwd(1), fwd(2), fwd(3), fwd(4), fwd(5)]).unwrap();
    g.finalize().unwrap();
    let a = g.analyze().unwrap();
    let t = a.pvst_tree();
    assert_eq!(t.vertex_count(), 2);
    let outer = t.region_of(0);
    let inner = t.region_of(1);
    assert_eq!((outer.start_position, outer.end_position), (0, 4));
    assert_eq!((inner.start_position, inner.end_position), (1, 3));
    assert_eq!(outer.interior, vec![2, 3, 4, 6]);
    assert_eq!(inner.interior, vec![3, 6]);
    assert_eq!(t.parent(1), Some(0));
    assert_eq!(t.depth(1), 1);
    assert_eq!(t.children(0), vec![1]);
    assert_eq!(t.roots(), vec![0]);
}

#[test]
fn insertion_through_two_vertices_off_the_backbone() {
    // backbone 1 -> 4; the insertion 1 -> 2 -> 3 -> 4 lies off it
    let mut g = PovuGraph::new(4, 4, 1);
    for id in 1..=4 {
        g.add_vertex(id, "C").unwrap();
    }
    add_fwd_edge(&mut g, 1, 4);
    add_fwd_edge(&mut g, 1, 2);
    add_fwd_edge(&mut g, 2, 3);
    add_fwd_edge(&mut g, 3, 4);
    g.add_path("ref", vec![fwd(1), fwd(4)]).unwrap();
    g.finalize().unwrap();
    let a = g.analyze().unwrap();
    assert_eq!(a.flubble_count(), 1);
    let r = a.pvst_tree().region_of(0);
    assert_eq!((r.start_position, r.end_position), (0, 1));
    assert_eq!(r.interior, vec![2, 3]);
}

#[test]
fn side_by_side_regions_are_disjoint() {
    // two SNP bubbles in a row: 1 (2|5) 3 (4|6) 7
    let mut g = PovuGraph::new(7, 8, 1);
    for id in 1..=7 {
        g.add_vertex(id, "G").unwrap();
    }
    add_fwd_edge(&mut g, 1, 2);
    add_fwd_edge(&mut g, 1, 5);
    add_fwd_edge(&mut g, 2, 3);
    add_fwd_edge(&mut g, 5, 3);
    add_fwd_edge(&mut g, 3, 4);
    add_fwd_edge(&mut g, 3, 6);
    add_fwd_edge(&mut g, 4, 7);
    add_fwd_edge(&mut g, 6, 7);
    g.add_path("ref", vec![fwd(1), fwd(2), fwd(3), fwd(4), fwd(7)]).unwrap();
    g.finalize().unwrap();
    let a = g.analyze().unwrap();
    let t = a.pvst_tree();
    assert_eq!(t.vertex_count(), 2);
    assert_eq!(t.region_of(0).interior, vec![2, 5]);
    assert_eq!(t.region_of(1).interior, vec![4, 6]);
    assert_eq!(t.roots(), vec![0, 1]);
    for i in 0..2 {
        for j in 0..2 {
            if i != j {
                let x = &t.region_of(i).interior;
                let y = &t.region_of(j).interior;
                assert!(x.iter().all(|v| !y.contains(v)));
            }
        }
    }
}

#[test]
fn analysis_needs_a_finalized_graph() {
    let g = diamond();
    assert!(matches!(g.analyze(), Err(Error::NotFinalized)));
}

#[test]
fn analysis_needs_a_backbone() {
    let mut g = diamond();
    g.set_references_from_prefixes(&["HG"]).unwrap();
    g.finalize().unwrap();
    assert!(matches!(g.analyze(), Err(Error::InvalidBackbone)));

    let mut h = PovuGraph::new(1, 0, 1);
    h.add_vertex(1, "A").unwrap();
    h.add_path("empty", vec![]).unwrap();
    h.finalize().unwrap();
    assert!(matches!(h.analyze(), Err(Error::InvalidBackbone)));
}

#[test]
fn select_references_by_prefix() {
    let mut g = PovuGraph::new(1, 0, 2);
    g.add_vertex(1, "A").unwrap();
    g.add_path("HG002#1#chr1", vec![fwd(1)]).unwrap();
    g.add_path("NA12878#1#chr1", vec![fwd(1)]).unwrap();
    g.set_references_from_prefixes(&["HG"]).unwrap();
    assert_eq!(g.references(), Some(vec![0]));
    g.set_references_from_prefixes(&["NA", "HG"]).unwrap();
    assert_eq!(g.references(), Some(vec![0, 1]));
    let none: [&str; 0] = [];
    g.set_references_from_prefixes(&none).unwrap();
    assert_eq!(g.references(), Some(vec![]));
    g.set_references_from_names(&["NA12878#1#chr1", "HG002"]).unwrap();
    assert_eq!(g.references(), Some(vec![1]));
}

#[test]
fn inversion_is_a_region() {
    let mut g = PovuGraph::new(3, 4, 1);
    for id in 1..=3 {
        g.add_vertex(id, "ACG").unwrap();
    }
    add_fwd_edge(&mut g, 1, 2);
    add_fwd_edge(&mut g, 2, 3);
    g.add_edge(1, Orientation::Forward, 2, Orientation::Reverse).unwrap();
    g.add_edge(2, Orientation::Reverse, 3, Orientation::Forward).unwrap();
    g.add_path("ref", vec![fwd(1), fwd(2), fwd(3)]).unwrap();
    g.finalize().unwrap();
    let a = g.analyze().unwrap();
    assert_eq!(a.flubble_count(), 1);
    let r = a.pvst_tree().region_of(0);
    assert_eq!(r.start, fwd(1));
    assert_eq!(r.end, fwd(3));
    assert_eq!(r.interior, vec![2]);
    assert_eq!((r.start_coordinate, r.end_coordinate), (1, 4));
}

#[test]
fn an_edge_between_the_same_ends_as_the_backbone_adds_nothing() {
    // 2- -> 1- is the reverse of the backbone adjacency 1+ -> 2+
    let mut g = PovuGraph::new(3, 3, 1);
    for id in 1..=3 {
        g.add_vertex(id, "A").unwrap();
    }
    add_fwd_edge(&mut g, 1, 2);
    add_fwd_edge(&mut g, 2, 3);
    g.add_edge(2, Orientation::Reverse, 1, Orientation::Reverse).unwrap();
    g.add_path("ref", vec![fwd(1), fwd(2), fwd(3)]).unwrap();
    g.finalize().unwrap();
    assert!(matches!(g.analyze(), Err(Error::NoVariationFound)));
}

#[test]
fn analysis_along_another_reference() {
    let mut g = diamond();
    g.add_path("alt", vec![fwd(1), fwd(3), fwd(4)]).unwrap();
    g.finalize().unwrap();
    let a = g.analyze_along(1).unwrap();
    assert_eq!(a.backbone_path(), 1);
    assert_eq!(a.pvst_tree().region_of(0).interior, vec![2, 3]);
    assert!(matches!(g.analyze_along(2), Err(Error::InvalidBackbone)));
}
