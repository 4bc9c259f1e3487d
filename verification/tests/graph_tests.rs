use energy_graph::graph::{DragMode, Graph, Rel};
use energy_graph::proximity::{distance, visibility_threshold, Point};

fn pt(x: i64, y: i64) -> Point {
    Point::new(x, y)
}

fn sorted_rels(g: &Graph) -> Vec<Rel> {
    let mut rels = g.query_relationships();
    rels.sort_by_key(|r| (r.a, r.b));
    rels
}

/// Every stored relationship is between distinct existing nodes closer
/// than the threshold, and no unordered pair appears twice.
fn assert_invariant(g: &Graph) {
    let nodes = g.query_nodes();
    let rels = g.query_relationships();
    let t = visibility_threshold(g.config_count());
    for r in &rels {
        assert!(r.a < r.b, "pair not ordered");
        assert!(r.b < nodes.len(), "endpoint out of range");
        assert!(
            distance(&nodes[r.a].1, &nodes[r.b].1) < t,
            "relationship farther than the threshold"
        );
    }
    for i in 0..rels.len() {
        for j in (i + 1)..rels.len() {
            assert!(
                !(rels[i].a == rels[j].a && rels[i].b == rels[j].b),
                "duplicate unordered pair"
            );
        }
    }
}

#[test]
fn empty_build() {
    let g = Graph::bulk_build(&Vec::new(), DragMode::Exact);
    assert_eq!(g.node_count(), 0);
    assert!(g.query_relationships().is_empty());
}

#[test]
fn two_close_nodes_have_exactly_one_link() {
    // Distance 0.01, threshold of two nodes about 0.4: one link, nearly
    // full intensity.
    let points = vec![pt(0, 0), pt(0, 10_000)];
    let g = Graph::bulk_build(&points, DragMode::Exact);
    let rels = g.query_relationships();
    assert_eq!(rels.len(), 1);
    assert_eq!((rels[0].a, rels[0].b), (0, 1));
    assert!(rels[0].intensity > 950_000, "got {}", rels[0].intensity);
    assert_invariant(&g);
}

#[test]
fn maximal_distance_gives_no_link() {
    // The unit-square diagonal is the maximal distance: never within any
    // threshold.
    let points = vec![pt(0, 0), pt(1_000_000, 1_000_000)];
    let g = Graph::bulk_build(&points, DragMode::Exact);
    assert!(g.query_relationships().is_empty());
}

#[test]
fn inserting_a_far_node_leaves_links_unchanged() {
    let points = vec![pt(0, 0), pt(0, 10_000)];
    let mut g = Graph::bulk_build(&points, DragMode::Exact);
    assert_eq!(g.query_relationships().len(), 1);
    let id = g.insert(pt(900_000, 900_000));
    assert_eq!(id, 2);
    assert_eq!(g.query_relationships().len(), 1);
    assert_invariant(&g);
}

#[test]
fn inserting_a_close_node_links_it_to_both() {
    let points = vec![pt(0, 0), pt(0, 10_000)];
    let mut g = Graph::bulk_build(&points, DragMode::Exact);
    g.insert(pt(10_000, 5_000));
    let rels = sorted_rels(&g);
    let pairs: Vec<(usize, usize)> = rels.iter().map(|r| (r.a, r.b)).collect();
    assert_eq!(pairs, vec![(0, 1), (0, 2), (1, 2)]);
    assert_invariant(&g);
}

#[test]
fn parallel_build_matches_sequential_build() {
    let points = vec![
        pt(0, 0),
        pt(0, 10_000),
        pt(500_000, 500_000),
        pt(510_000, 505_000),
        pt(900_000, 100_000),
        pt(1_000_000, 1_000_000),
        pt(20_000, 15_000),
    ];
    let seq = Graph::bulk_build(&points, DragMode::Exact);
    let par = Graph::bulk_build_par(&points, DragMode::Exact);
    assert_eq!(seq.node_count(), par.node_count());
    let a = sorted_rels(&seq);
    let b = sorted_rels(&par);
    assert_eq!(a, b);
    assert!(!a.is_empty());
    assert_invariant(&par);
}

#[test]
fn exact_drag_into_and_out_of_proximity() {
    // Node 0 starts isolated; moving it near node 1 creates a link with
    // positive intensity; moving it away removes the link again.
    let points = vec![pt(0, 0), pt(500_000, 500_000)];
    let mut g = Graph::bulk_build(&points, DragMode::Exact);
    assert!(g.query_relationships().is_empty());
    g.move_node(0, pt(500_000, 490_000));
    let rels = g.query_relationships();
    assert_eq!(rels.len(), 1);
    assert_eq!((rels[0].a, rels[0].b), (0, 1));
    assert!(rels[0].intensity > 0);
    assert_invariant(&g);
    g.move_node(0, pt(0, 0));
    assert!(g.query_relationships().is_empty());
}

#[test]
fn invariant_holds_after_mixed_inserts_and_moves() {
    let mut g = Graph::new(12, DragMode::Exact);
    let coords = [
        (0, 0),
        (50_000, 20_000),
        (800_000, 800_000),
        (100_000, 90_000),
        (820_000, 790_000),
        (400_000, 400_000),
    ];
    for (x, y) in coords {
        g.insert(pt(x, y));
    }
    assert_invariant(&g);
    g.move_node(5, pt(60_000, 30_000));
    g.move_node(2, pt(410_000, 400_000));
    g.move_node(0, pt(999_000, 1_000));
    assert_invariant(&g);
}

#[test]
fn pointer_down_picks_the_last_node_within_radius() {
    // With three configured nodes the pick radius is far larger than the
    // unit square, so every node qualifies and the last one wins.
    let points = vec![pt(0, 0), pt(200_000, 200_000), pt(900_000, 900_000)];
    let mut g = Graph::bulk_build(&points, DragMode::Exact);
    g.pointer_down(pt(100_000, 100_000));
    assert_eq!(g.picked_node(), Some(2));
    // A second pointer-down while dragging changes nothing.
    g.pointer_down(pt(900_000, 900_000));
    assert_eq!(g.picked_node(), Some(2));
    g.pointer_up();
    assert_eq!(g.picked_node(), None);
}

#[test]
fn pointer_down_ignores_distant_nodes() {
    // A large configured count shrinks the pick radius, so only a node
    // under the pointer qualifies.
    let mut h = Graph::new(100_000, DragMode::Exact);
    h.insert(pt(0, 0));
    h.insert(pt(900_000, 900_000));
    h.pointer_down(pt(1_000, 1_000));
    assert_eq!(h.picked_node(), Some(0));
    h.pointer_up();
    assert_eq!(h.picked_node(), None);
}

#[test]
fn cheap_drag_clears_links_mid_drag_and_converges_at_pointer_up() {
    // Close pair (1, 2); node 2 is dragged: its links vanish at drag
    // start, the rest stay; at pointer-up the collection equals the
    // exact-mode collection for the final positions.
    let points = vec![pt(0, 0), pt(500_000, 500_000), pt(510_000, 500_000)];
    let mut g = Graph::bulk_build(&points, DragMode::Cheap);
    assert_eq!(g.query_relationships().len(), 1);
    g.pointer_down(pt(505_000, 500_000));
    assert_eq!(g.picked_node(), Some(2));
    // Mid-drag: no link touches the dragged node.
    g.pointer_move(pt(5_000, 5_000));
    for r in g.query_relationships() {
        assert!(r.a != 2 && r.b != 2);
    }
    g.pointer_move(pt(10_000, 0));
    g.pointer_up();
    assert_eq!(g.picked_node(), None);
    // The dragged node ended next to node 0: links converge to the exact
    // collection for the final positions.
    let finals = vec![pt(0, 0), pt(500_000, 500_000), pt(10_000, 0)];
    let exact = Graph::bulk_build(&finals, DragMode::Exact);
    assert_eq!(sorted_rels(&g), sorted_rels(&exact));
    assert_invariant(&g);
}

#[test]
fn cheap_and_exact_agree_when_idle() {
    let points = vec![
        pt(0, 0),
        pt(30_000, 10_000),
        pt(700_000, 700_000),
        pt(710_000, 690_000),
    ];
    let cheap = Graph::bulk_build(&points, DragMode::Cheap);
    let exact = Graph::bulk_build(&points, DragMode::Exact);
    assert_eq!(sorted_rels(&cheap), sorted_rels(&exact));
}

#[test]
fn query_nodes_reports_dense_identities() {
    let points = vec![pt(0, 0), pt(10, 20), pt(30, 40)];
    let g = Graph::bulk_build(&points, DragMode::Exact);
    let nodes = g.query_nodes();
    assert_eq!(nodes.len(), 3);
    for (i, (id, p)) in nodes.iter().enumerate() {
        assert_eq!(*id, i);
        assert_eq!(*p, points[i]);
    }
}

#[test]
fn insert_during_cheap_drag_defers_the_dragged_pair() {
    // Three configured nodes: the pick radius covers the square, so the
    // pointer-down picks the last node. A node inserted mid-drag links to
    // the others at once; its pair with the dragged node appears at
    // pointer-up, and only once.
    let points = vec![pt(0, 0), pt(600_000, 600_000)];
    let mut g = Graph::bulk_build(&points, DragMode::Cheap);
    g.pointer_down(pt(600_000, 600_000));
    assert_eq!(g.picked_node(), Some(1));
    let id = g.insert(pt(610_000, 600_000));
    assert_eq!(id, 2);
    for r in g.query_relationships() {
        assert!(r.a != 1 && r.b != 1);
    }
    g.pointer_up();
    let rels = sorted_rels(&g);
    let pairs: Vec<(usize, usize)> = rels.iter().map(|r| (r.a, r.b)).collect();
    assert_eq!(pairs, vec![(1, 2)]);
    assert_invariant(&g);
}
