use povu::{Error, Orientation, PovuGraph, Step};

struct Lcg(u64);

impl Lcg {
    fn next(&mut self) -> u64 {
        self.0 = self.0.wrapping_mul(6364136223846793005).wrapping_add(1442695040888963407);
        self.0 >> 33
    }
    fn below(&mut self, n: u64) -> u64 {
        self.next() % n
    }
    fn orientation(&mut self) -> Orientation {
        if self.below(4) == 0 {
            Orientation::Reverse
        } else {
            Orientation::Forward
        }
    }
}

fn random_graph(rng: &mut Lcg) -> PovuGraph {
    let backbone = 3 + rng.below(10);
    let extra = rng.below(8);
    let total = backbone + extra;
    let mut g = PovuGraph::new(0, 0, 0);
    for id in 1..=total {
        g.add_vertex(id, "ACGT").unwrap();
    }
    for id in 1..backbone {
        g.add_edge(id, Orientation::Forward, id + 1, Orientation::Forward).unwrap();
    }
    let edges = rng.below(2 * total);
    for _ in 0..edges {
        let a = 1 + rng.below(total);
        let b = 1 + rng.below(total);
        let oa = rng.orientation();
        let ob = rng.orientation();
        g.add_edge(a, oa, b, ob).unwrap();
    }
    let steps: Vec<Step> = (1..=backbone).map(|id| Step::new(id, Orientation::Forward)).collect();
    g.add_path("ref", steps).unwrap();
    g.finalize().unwrap();
    g
}

#[test]
fn regions_of_random_graphs_never_partially_overlap() {
    let mut rng = Lcg(20240917);
    let mut with_regions = 0;
    for _ in 0..300 {
        let g = random_graph(&mut rng);
        match g.analyze() {
            Ok(a) => {
                with_regions += 1;
                let t = a.pvst_tree();
                let n = t.vertex_count();
                for i in 0..n {
                    let ri = t.region_of(i);
                    assert!(ri.start_coordinate < ri.end_coordinate);
                    for j in 0..n {
                        if i == j {
                            continue;
                        }
                        let rj = t.region_of(j);
                        // the bounds differ, and are nested or side by side
                        assert!((ri.start_coordinate, ri.end_coordinate) != (rj.start_coordinate, rj.end_coordinate));
                        let nested = (ri.start_coordinate <= rj.start_coordinate && rj.end_coordinate <= ri.end_coordinate)
                            || (rj.start_coordinate <= ri.start_coordinate && ri.end_coordinate <= rj.end_coordinate);
                        let apart = ri.end_coordinate <= rj.start_coordinate || rj.end_coordinate <= ri.start_coordinate;
                        assert!(nested || apart);
                        // so are the interiors
                        let x = &ri.interior;
                        let y = &rj.interior;
                        let x_in_y = x.iter().all(|v| y.contains(v));
                        let y_in_x = y.iter().all(|v| x.contains(v));
                        let disjoint = x.iter().all(|v| !y.contains(v));
                        assert!(x_in_y || y_in_x || disjoint);
                    }
                    // a parent holds its child
                    if let Some(p) = t.parent(i) {
                        let rp = t.region_of(p);
                        assert!(rp.start_coordinate <= ri.start_coordinate && ri.end_coordinate <= rp.end_coordinate);
                        assert_eq!(t.depth(i), t.depth(p) + 1);
                    } else {
                        assert_eq!(t.depth(i), 0);
                    }
                }
            }
            Err(e) => assert!(matches!(e, Error::NoVariationFound)),
        }
    }
    assert!(with_regions > 50);
}
