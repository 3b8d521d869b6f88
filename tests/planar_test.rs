use vtt_rust::planar::trace_faces;

#[test]
fn two_cycles_become_two_faces() {
    // 0 -> 1 -> 2 -> 0 and 3 -> 4 -> 3
    let succ = [1usize, 2, 0, 4, 3];
    let faces = trace_faces(5, &|i: usize| succ[i]);
    assert_eq!(faces, vec![vec![0, 1, 2], vec![3, 4]]);
}

#[test]
fn walk_stops_at_used_edge_or_out_of_range() {
    // 0 -> 1 -> 0, 2 -> 1 (already used), 3 -> out of range
    let succ = [1usize, 0, 1, 9];
    let faces = trace_faces(4, &|i: usize| succ[i]);
    assert_eq!(faces, vec![vec![0, 1], vec![2], vec![3]]);
}

#[test]
fn empty_graph_has_no_faces() {
    let faces = trace_faces(0, &|i: usize| i);
    assert!(faces.is_empty());
}
