use vtt_rust::helper::pick_intersection;

#[test]
fn ray_through_two_walls_in_distance_order() {
    // Ray (0,0)-(5,5) meets the wall x = 1 at (1,1), the wall (1,3)-(3,1) at
    // (2,2), and ends at (5,5); keys are distances times 10 000, truncated.
    let keys: Vec<i64> = vec![14142, 28284, 70710];
    assert_eq!(pick_intersection(&keys, 0), Some(0));
    assert_eq!(pick_intersection(&keys, 1), Some(1));
    assert_eq!(pick_intersection(&keys, 2), Some(2));
    assert_eq!(pick_intersection(&keys, 3), None);
}

#[test]
fn only_the_ray_end() {
    let keys: Vec<i64> = vec![35355];
    assert_eq!(pick_intersection(&keys, 0), Some(0));
    assert_eq!(pick_intersection(&keys, 1), None);
}

#[test]
fn unsorted_keys_with_ties() {
    // Equal keys are one intersection; its last candidate stands for it.
    let keys: Vec<i64> = vec![50, 10, 50, 30];
    assert_eq!(pick_intersection(&keys, 0), Some(1));
    assert_eq!(pick_intersection(&keys, 1), Some(3));
    assert_eq!(pick_intersection(&keys, 2), Some(2));
    assert_eq!(pick_intersection(&keys, 3), None);
}

#[test]
fn coincident_intersections_count_once() {
    let keys: Vec<i64> = vec![5, 5, 9];
    assert_eq!(pick_intersection(&keys, 0), Some(1));
    assert_eq!(pick_intersection(&keys, 1), Some(2));
    assert_eq!(pick_intersection(&keys, 2), None);
}

#[test]
fn no_candidates() {
    let keys: Vec<i64> = Vec::new();
    assert_eq!(pick_intersection(&keys, 0), None);
}
