use vtt_rust::errors::RustVttError;
use vtt_rust::vtt::{
    check_observer_bounds, validate_observer, Coordinate, PixelCoordinate, Resolution, COORD_SCALE,
};

fn map() -> Resolution {
    Resolution {
        map_origin: Coordinate::new(0, 0),
        map_size: Coordinate::new(27 * COORD_SCALE, 15 * COORD_SCALE),
        pixels_per_grid: 256,
    }
}

#[test]
fn pixel_from_grid_coordinate() {
    let p = PixelCoordinate::from(&Coordinate::new(27 * COORD_SCALE, 15 * COORD_SCALE), 256);
    assert_eq!(p, PixelCoordinate::new(6912, 3840));
    let q = PixelCoordinate::from(&Coordinate::new(15000, 2500), 100);
    assert_eq!(q, PixelCoordinate::new(150, 25));
}

#[test]
fn pixel_from_rounds_toward_zero() {
    let p = PixelCoordinate::from(&Coordinate::new(19999, -19999), 1);
    assert_eq!(p, PixelCoordinate::new(1, -1));
}

#[test]
fn observer_inside_is_accepted() {
    let pov = Coordinate::new(4 * COORD_SCALE, 7 * COORD_SCALE);
    assert!(check_observer_bounds(&pov, &map()).is_ok());
}

#[test]
fn observer_on_far_border_is_out_of_bounds() {
    let pov = Coordinate::new(27 * COORD_SCALE, 7 * COORD_SCALE);
    match check_observer_bounds(&pov, &map()) {
        Err(RustVttError::OutOfBounds { coordinate }) => assert_eq!(coordinate, pov),
        other => panic!("Expected OutOfBounds error, got {:?}", other),
    }
}

#[test]
fn observer_on_origin_border_is_out_of_bounds() {
    let pov = Coordinate::new(3 * COORD_SCALE, 0);
    assert!(matches!(
        check_observer_bounds(&pov, &map()),
        Err(RustVttError::OutOfBounds { .. })
    ));
}

#[test]
fn within_square_bounds() {
    let door = Coordinate::new(5 * COORD_SCALE, 5 * COORD_SCALE);
    assert!(door.within_square(&Coordinate::new(6 * COORD_SCALE, 4 * COORD_SCALE)));
    assert!(!door.within_square(&Coordinate::new(6 * COORD_SCALE + 1, 5 * COORD_SCALE)));
}

#[test]
fn sight_targets_go_clockwise_around_the_border() {
    let res = Resolution {
        map_origin: Coordinate::new(0, 0),
        map_size: Coordinate::new(COORD_SCALE, COORD_SCALE),
        pixels_per_grid: 10,
    };
    let points = vtt_rust::vtt::sight_targets(&res);
    let expected: Vec<(i32, i32)> = vec![
        (0, 0),
        (2000, 0),
        (4000, 0),
        (6000, 0),
        (8000, 0),
        (10000, 0),
        (10000, 2000),
        (10000, 4000),
        (10000, 6000),
        (10000, 8000),
        (10000, 10000),
        (8000, 10000),
        (6000, 10000),
        (4000, 10000),
        (2000, 10000),
        (0, 10000),
        (0, 8000),
        (0, 6000),
        (0, 4000),
        (0, 2000),
        (0, 0),
    ];
    let got: Vec<(i32, i32)> = points.iter().map(|c| (c.x, c.y)).collect();
    assert_eq!(got, expected);
}

#[test]
fn sight_targets_of_room_map() {
    let points = vtt_rust::vtt::sight_targets(&map());
    // 27 by 15 squares, five samples per square: 136 + 75 + 135 + 75.
    assert_eq!(points.len(), 421);
    assert_eq!(points[0], Coordinate::new(0, 0));
    assert_eq!(points[420], Coordinate::new(0, 0));
    assert_eq!(points[135], Coordinate::new(27 * COORD_SCALE, 0));
}

#[test]
fn observer_on_wall_is_invalid() {
    let pov = Coordinate::new(4 * COORD_SCALE, 7 * COORD_SCALE);
    let on = vec![(
        Coordinate::new(2 * COORD_SCALE, 5 * COORD_SCALE),
        Coordinate::new(6 * COORD_SCALE, 9 * COORD_SCALE),
    )];
    match validate_observer(&pov, &map(), &on) {
        Err(RustVttError::InvalidPoint { coordinate }) => assert_eq!(coordinate, pov),
        other => panic!("Expected InvalidPoint error, got {:?}", other),
    }
    let beside = vec![(
        Coordinate::new(2 * COORD_SCALE, 5 * COORD_SCALE),
        Coordinate::new(6 * COORD_SCALE, 9 * COORD_SCALE + 1),
    )];
    assert!(validate_observer(&pov, &map(), &beside).is_ok());
    let past_end = vec![(
        Coordinate::new(0, 3 * COORD_SCALE),
        Coordinate::new(2 * COORD_SCALE, 5 * COORD_SCALE),
    )];
    assert!(validate_observer(&pov, &map(), &past_end).is_ok());
}

#[test]
fn bounds_are_checked_before_walls() {
    let pov = Coordinate::new(27 * COORD_SCALE, 7 * COORD_SCALE);
    let walls = vec![(Coordinate::new(27 * COORD_SCALE, 0), Coordinate::new(27 * COORD_SCALE, 15 * COORD_SCALE))];
    assert!(matches!(
        validate_observer(&pov, &map(), &walls),
        Err(RustVttError::OutOfBounds { .. })
    ));
}
