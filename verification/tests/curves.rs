use lau_tropical_geometry_agents::curves::{CurveEdge, TropicalCurve};

fn vertex(x: f64, y: f64) -> Vec<f64> {
    vec![x, y]
}

#[test]
fn test_curve_edge_creation() {
    let e = CurveEdge::new(0, 1, 2, vec![1, 0]);
    assert_eq!(e.v1, 0);
    assert_eq!(e.v2, 1);
    assert_eq!(e.weight, 2);
}

#[test]
fn test_tropical_curve_basic() {
    let v1 = vertex(0.0, 0.0);
    let v2 = vertex(1.0, 0.0);
    let v3 = vertex(0.0, 1.0);
    let e1 = CurveEdge::new(0, 1, 1, vec![1, 0]);
    let e2 = CurveEdge::new(0, 2, 1, vec![0, 1]);
    let curve = TropicalCurve::new(vec![v1, v2, v3], vec![e1, e2], 2);
    assert_eq!(curve.num_vertices(), 3);
    assert_eq!(curve.num_edges(), 2);
}

#[test]
fn test_curve_genus_tree() {
    // Tree: V=3, E=2 => genus = max(0, 2-3+1) = 0
    let v1 = vertex(0.0, 0.0);
    let v2 = vertex(1.0, 0.0);
    let v3 = vertex(0.0, 1.0);
    let e1 = CurveEdge::new(0, 1, 1, vec![1, 0]);
    let e2 = CurveEdge::new(0, 2, 1, vec![0, 1]);
    let curve = TropicalCurve::new(vec![v1, v2, v3], vec![e1, e2], 2);
    assert_eq!(curve.genus(), 0);
}

#[test]
fn test_curve_genus_cycle() {
    // Triangle: V=3, E=3 => genus = 3-3+1 = 1
    let v1 = vertex(0.0, 0.0);
    let v2 = vertex(1.0, 0.0);
    let v3 = vertex(0.0, 1.0);
    let e1 = CurveEdge::new(0, 1, 1, vec![1, 0]);
    let e2 = CurveEdge::new(1, 2, 1, vec![-1, 1]);
    let e3 = CurveEdge::new(2, 0, 1, vec![0, -1]);
    let curve = TropicalCurve::new(vec![v1, v2, v3], vec![e1, e2, e3], 2);
    assert_eq!(curve.genus(), 1);
}

#[test]
fn test_incident_edges() {
    let v1 = vertex(0.0, 0.0);
    let v2 = vertex(1.0, 0.0);
    let v3 = vertex(0.0, 1.0);
    let e1 = CurveEdge::new(0, 1, 1, vec![1, 0]);
    let e2 = CurveEdge::new(0, 2, 1, vec![0, 1]);
    let curve = TropicalCurve::new(vec![v1, v2, v3], vec![e1, e2], 2);
    assert_eq!(curve.incident_edges(0).len(), 2);
    assert_eq!(curve.incident_edges(1).len(), 1);
}

#[test]
fn test_vertex_degree() {
    let v1 = vertex(0.0, 0.0);
    let v2 = vertex(1.0, 0.0);
    let v3 = vertex(0.0, 1.0);
    let e1 = CurveEdge::new(0, 1, 1, vec![1, 0]);
    let e2 = CurveEdge::new(0, 2, 1, vec![0, 1]);
    let curve = TropicalCurve::new(vec![v1, v2, v3], vec![e1, e2], 2);
    assert_eq!(curve.vertex_degree(0), 2);
    assert_eq!(curve.vertex_degree(1), 1);
}

#[test]
fn test_total_weight() {
    let e1 = CurveEdge::new(0, 1, 2, vec![1, 0]);
    let e2 = CurveEdge::new(0, 2, 3, vec![0, 1]);
    let v1 = vertex(0.0, 0.0);
    let v2 = vertex(1.0, 0.0);
    let v3 = vertex(0.0, 1.0);
    let curve = TropicalCurve::new(vec![v1, v2, v3], vec![e1, e2], 2);
    assert_eq!(curve.total_weight(), 5);
}

#[test]
fn test_balanced_star() {
    // Directions from v0: (1,0), (-1,1), (-1,-1) sum to (-1,0): not balanced.
    let v0 = vertex(0.0, 0.0);
    let v1 = vertex(1.0, 0.0);
    let v2 = vertex(-1.0, 1.0);
    let v3 = vertex(-1.0, -1.0);
    let e1 = CurveEdge::new(0, 1, 1, vec![1, 0]);
    let e2 = CurveEdge::new(0, 2, 1, vec![-1, 1]);
    let e3 = CurveEdge::new(0, 3, 1, vec![-1, -1]);
    let curve = TropicalCurve::new(vec![v0, v1, v2, v3], vec![e1, e2, e3], 2);
    assert!(!curve.is_balanced_at(0));
}

#[test]
fn test_balanced_trident() {
    // Directions (1,0), (0,1), (-1,-1) sum to (0,0).
    let v0 = vertex(0.0, 0.0);
    let v1 = vertex(1.0, 0.0);
    let v2 = vertex(0.0, 1.0);
    let v3 = vertex(-1.0, -1.0);
    let e1 = CurveEdge::new(0, 1, 1, vec![1, 0]);
    let e2 = CurveEdge::new(0, 2, 1, vec![0, 1]);
    let e3 = CurveEdge::new(0, 3, 1, vec![-1, -1]);
    let curve = TropicalCurve::new(vec![v0, v1, v2, v3], vec![e1, e2, e3], 2);
    assert!(curve.is_balanced_at(0));
}

#[test]
fn balanced_at_out_of_range_vertex_is_false() {
    let curve: TropicalCurve<Vec<f64>> = TropicalCurve::new(vec![vertex(0.0, 0.0)], vec![], 2);
    assert!(curve.is_balanced_at(0));
    assert!(!curve.is_balanced_at(1));
}

#[test]
fn balancing_uses_weights_and_edge_orientation() {
    // Edge 0 leaves v0 along (1,0) with weight 2; edge 1 enters v0 from v2
    // with direction (2,0), which counts as -(2,0) at v0.
    let vs = vec![vertex(0.0, 0.0), vertex(1.0, 0.0), vertex(-1.0, 0.0)];
    let e0 = CurveEdge::new(0, 1, 2, vec![1, 0]);
    let e1 = CurveEdge::new(2, 0, 1, vec![2, 0]);
    let curve = TropicalCurve::new(vs, vec![e0, e1], 2);
    assert!(curve.is_balanced_at(0));
    assert!(!curve.is_balanced_at(1));
    assert!(!curve.is_balanced());
}

#[test]
fn balanced_curve_everywhere() {
    // A closed path a -> b -> a with opposite directions balances at both ends.
    let vs = vec![vertex(0.0, 0.0), vertex(1.0, 0.0)];
    let e0 = CurveEdge::new(0, 1, 3, vec![1, 0]);
    let e1 = CurveEdge::new(0, 1, 3, vec![-1, 0]);
    let curve = TropicalCurve::new(vs, vec![e0, e1], 2);
    assert!(curve.is_balanced());
    assert_eq!(curve.genus(), 1);
}

#[test]
fn direction_beyond_ambient_dimension_is_ignored() {
    let vs = vec![vertex(0.0, 0.0), vertex(1.0, 0.0)];
    let e0 = CurveEdge::new(0, 1, 1, vec![0, 0, 7]);
    let curve = TropicalCurve::new(vs, vec![e0], 2);
    assert!(curve.is_balanced_at(0));
}

#[test]
fn genus_is_never_negative() {
    // V=4, E=1: E - V + 1 = -2, so the genus is 0.
    let vs = vec![vertex(0.0, 0.0), vertex(1.0, 0.0), vertex(2.0, 0.0), vertex(3.0, 0.0)];
    let curve = TropicalCurve::new(vs, vec![CurveEdge::new(0, 1, 1, vec![1, 0])], 2);
    assert_eq!(curve.genus(), 0);
    let lonely: TropicalCurve<Vec<f64>> = TropicalCurve::new(vec![], vec![], 2);
    assert_eq!(lonely.genus(), 1);
}

#[test]
fn incident_edges_in_order_with_loops() {
    let vs = vec![vertex(0.0, 0.0), vertex(1.0, 0.0), vertex(2.0, 0.0)];
    let edges = vec![
        CurveEdge::new(1, 2, 1, vec![1, 0]),
        CurveEdge::new(0, 0, 1, vec![0, 1]),
        CurveEdge::new(2, 0, 1, vec![-1, 0]),
        CurveEdge::new(1, 0, 4, vec![-1, 0]),
    ];
    let curve = TropicalCurve::new(vs, edges, 2);
    assert_eq!(curve.incident_edges(0), vec![1, 2, 3]);
    assert_eq!(curve.incident_edges(1), vec![0, 3]);
    assert_eq!(curve.incident_edges(5), Vec::<usize>::new());
    assert_eq!(curve.vertex_degree(2), 2);
    assert_eq!(curve.total_weight(), 7);
}
