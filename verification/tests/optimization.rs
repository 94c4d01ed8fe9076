use lau_tropical_geometry_agents::optimization::TropicalOptimizer;

#[test]
fn test_optimizer_creation() {
    let opt = TropicalOptimizer::new(3);
    assert_eq!(opt.dim, 3);
}
