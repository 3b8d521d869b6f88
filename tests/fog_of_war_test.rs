use vtt_rust::fog_of_war::{FogOfWar, Operation};
use vtt_rust::fowrectangle::FoWRectangle;
use vtt_rust::vtt::{Coordinate, PixelCoordinate, Resolution, COORD_SCALE};

fn rect(x0: i32, y0: i32, x1: i32, y1: i32) -> FoWRectangle {
    FoWRectangle::new(PixelCoordinate::new(x0, y0), PixelCoordinate::new(x1, y1))
}

fn resolution(width: i32, height: i32, pixels_per_grid: i32) -> Resolution {
    Resolution {
        map_origin: Coordinate::new(0, 0),
        map_size: Coordinate::new(width * COORD_SCALE, height * COORD_SCALE),
        pixels_per_grid,
    }
}

/// Overlap of a rectangle with the region of all pixels left of column
/// `edge`, in pixels.
fn left_of(edge: i32) -> impl Fn(FoWRectangle) -> (u64, u64) {
    move |r: FoWRectangle| {
        let w = (r.bottomright.x - r.topleft.x + 1) as u64;
        let h = (r.bottomright.y - r.topleft.y + 1) as u64;
        let inside_cols = if edge <= r.topleft.x {
            0
        } else if edge > r.bottomright.x {
            w
        } else {
            (edge - r.topleft.x) as u64
        };
        (inside_cols * h, w * h)
    }
}

fn consistent(fow: &FogOfWar) -> bool {
    fow.get_rectangles().len() == fow.rectangle_count()
}

#[test]
fn new_lays_out_cells_row_by_row() {
    let mut fow = FogOfWar::new(resolution(3, 2, 10));
    assert_eq!(fow.rectangle_count(), 0);
    assert!(fow.get_rectangles().is_empty());
    fow.hide_all();
    assert_eq!(
        fow.get_rectangles(),
        vec![
            rect(0, 0, 9, 9),
            rect(10, 0, 19, 9),
            rect(20, 0, 29, 9),
            rect(0, 10, 9, 19),
            rect(10, 10, 19, 19),
            rect(20, 10, 29, 19),
        ]
    );
    assert_eq!(fow.rectangle_count(), 6);
}

#[test]
fn hide_all_then_show_all_leaves_nothing_hidden() {
    let mut fow = FogOfWar::new(resolution(4, 3, 16));
    fow.hide_all();
    assert_eq!(fow.rectangle_count(), 12);
    assert!(consistent(&fow));
    fow.show_all();
    assert_eq!(fow.rectangle_count(), 0);
    assert!(fow.get_rectangles().is_empty());
}

#[test]
fn test_rectangle_count_basic() {
    let mut fow = FogOfWar::new(resolution(4, 3, 16));
    fow.hide_all();
    fow.update(Operation::SHOW, &left_of(24));
    assert_eq!(
        fow.get_rectangles().len(),
        fow.rectangle_count(),
        "Expected amount of rectangles and vec allocation to be the same"
    );
}

#[test]
fn test_rectangle_count_hide_hide() {
    let mut fow = FogOfWar::new(resolution(4, 3, 16));
    fow.hide_all();
    fow.update(Operation::HIDE, &left_of(24));
    fow.update(Operation::SHOW, &left_of(24));
    assert_eq!(
        fow.get_rectangles().len(),
        fow.rectangle_count(),
        "Expected amount of rectangles and vec allocation to be the same"
    );
}

#[test]
fn test_rectangle_count_show_show() {
    let mut fow = FogOfWar::new(resolution(4, 3, 16));
    fow.hide_all();
    fow.update(Operation::SHOW, &left_of(24));
    fow.update(Operation::SHOW, &left_of(40));
    assert_eq!(
        fow.get_rectangles().len(),
        fow.rectangle_count(),
        "Expected amount of rectangles and vec allocation to be the same"
    );
}

#[test]
fn update_show_reveals_left_part() {
    let mut fow = FogOfWar::new(resolution(2, 1, 16));
    fow.hide_all();
    fow.update(Operation::SHOW, &left_of(24));
    assert_eq!(fow.get_rectangles(), vec![rect(24, 0, 31, 7), rect(24, 8, 31, 15)]);
    assert_eq!(fow.rectangle_count(), 2);
}

#[test]
fn update_hide_then_show_restores_clear_map() {
    let mut fow = FogOfWar::new(resolution(2, 2, 16));
    fow.update(Operation::HIDE, &left_of(20));
    assert!(fow.rectangle_count() > 0);
    assert!(consistent(&fow));
    fow.update(Operation::SHOW, &left_of(20));
    assert_eq!(fow.rectangle_count(), 0);
    assert!(fow.get_rectangles().is_empty());
}

#[test]
fn update_outside_changes_nothing() {
    let mut fow = FogOfWar::new(resolution(2, 2, 16));
    fow.hide_all();
    fow.update(Operation::SHOW, &left_of(0));
    assert_eq!(fow.rectangle_count(), 4);
    assert!(consistent(&fow));
}
