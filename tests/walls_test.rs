use vtt_rust::walls::wall_segments;

#[test]
fn segments_from_lines_portals_and_objects() {
    let lines: Vec<Vec<(i32, i32)>> = vec![vec![(0, 0), (4, 0), (4, 3)], vec![(9, 9)]];
    let portals: Vec<(bool, Vec<(i32, i32)>)> = vec![
        (true, vec![(1, 1), (2, 1)]),
        (false, vec![(5, 5), (6, 5)]),
    ];
    let objects: Vec<Vec<(i32, i32)>> = vec![vec![(7, 7), (8, 8)]];

    let without = wall_segments(&lines, &portals, None);
    assert_eq!(
        without,
        vec![((0, 0), (4, 0)), ((4, 0), (4, 3)), ((1, 1), (2, 1))]
    );

    let with = wall_segments(&lines, &portals, Some(&objects));
    assert_eq!(
        with,
        vec![
            ((0, 0), (4, 0)),
            ((4, 0), (4, 3)),
            ((1, 1), (2, 1)),
            ((7, 7), (8, 8))
        ]
    );
}

#[test]
fn no_walls() {
    let lines: Vec<Vec<(i32, i32)>> = Vec::new();
    let portals: Vec<(bool, Vec<(i32, i32)>)> = Vec::new();
    assert!(wall_segments(&lines, &portals, None).is_empty());
}
