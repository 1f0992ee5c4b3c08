use world_statistics::scan::{
    chunk_coords, chunk_in_radius, region_in_radius, region_visit_order, slot_in_radius,
};

#[test]
fn radius_boundary_is_inclusive() {
    assert!(chunk_in_radius(2, 0, 2));
    assert!(chunk_in_radius(-2, 2, 2));
    assert!(chunk_in_radius(1, -2, 2));
    assert!(!chunk_in_radius(3, 0, 2));
    assert!(!chunk_in_radius(0, -3, 2));
    assert!(chunk_in_radius(1, 0, 1));
    assert!(chunk_in_radius(-1, -1, 1));
    assert!(!chunk_in_radius(2, 1, 1));
    assert!(chunk_in_radius(0, 0, 0));
    assert!(!chunk_in_radius(0, 1, 0));
}

#[test]
fn region_radius_bounds() {
    assert!(region_in_radius(0, 0, 32));
    assert!(region_in_radius(1, -1, 32));
    assert!(!region_in_radius(2, 0, 32));
    assert!(!region_in_radius(0, -2, 32));
    assert!(region_in_radius(0, 0, 31));
    assert!(!region_in_radius(1, 0, 31));
    assert!(region_in_radius(-1, 0, 31));
    assert!(region_in_radius(1, -2, 33));
    assert!(!region_in_radius(0, -3, 33));
    assert!(region_in_radius(0, 0, 0));
    assert!(!region_in_radius(-1, 0, 0));
}

#[test]
fn slot_coordinates_run_along_x() {
    assert_eq!(chunk_coords(0, 0, 0), (0, 0));
    assert_eq!(chunk_coords(0, 0, 33), (1, 1));
    assert_eq!(chunk_coords(-1, 2, 1023), (-1, 95));
    assert!(slot_in_radius(5, 5, 3, None));
    assert!(slot_in_radius(-1, -1, 1023, Some(1)));
    assert!(!slot_in_radius(-1, -1, 1022, Some(1)));
    assert!(slot_in_radius(0, 0, 1, Some(1)));
    assert!(!slot_in_radius(0, 0, 2, Some(1)));
}

#[test]
fn regions_are_visited_nearest_first() {
    let coords = vec![(1, 0), (-1, -1), (0, 0), (-2, 0), (0, -1), (-1, 0)];
    let order = region_visit_order(&coords);
    let visited: Vec<(i32, i32)> = order.iter().map(|&i| coords[i]).collect();
    assert_eq!(visited, vec![(-1, -1), (-1, 0), (0, -1), (0, 0), (-2, 0), (1, 0)]);
    assert!(region_visit_order(&vec![]).is_empty());
}
