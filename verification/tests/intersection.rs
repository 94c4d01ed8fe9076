use lau_tropical_geometry_agents::intersection::{multiplicity_from_dominant_counts, tropical_bezout_number};

#[test]
fn test_bezout_number() {
    assert_eq!(tropical_bezout_number(2, 3), 6);
    assert_eq!(tropical_bezout_number(1, 1), 1);
}

#[test]
fn bezout_number_edge_cases() {
    assert_eq!(tropical_bezout_number(0, 7), 0);
    assert_eq!(tropical_bezout_number(3, 2), tropical_bezout_number(2, 3));
    assert_eq!(tropical_bezout_number(65535, 65537), 4294967295);
}

#[test]
fn multiplicity_needs_two_dominant_monomials_each() {
    assert_eq!(multiplicity_from_dominant_counts(2, 1, 5), 0);
    assert_eq!(multiplicity_from_dominant_counts(2, 5, 0), 0);
    assert_eq!(multiplicity_from_dominant_counts(1, 2, 2), 1);
    assert_eq!(multiplicity_from_dominant_counts(1, 4, 9), 1);
}

#[test]
fn multiplicity_of_mixed_cell() {
    assert_eq!(multiplicity_from_dominant_counts(2, 2, 2), 1);
    assert_eq!(multiplicity_from_dominant_counts(2, 3, 4), 6);
    assert_eq!(multiplicity_from_dominant_counts(3, 5, 2), 4);
}
