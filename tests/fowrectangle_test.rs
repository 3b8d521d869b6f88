use vtt_rust::errors::RustVttError;
use vtt_rust::fowrectangle::FoWRectangle;
use vtt_rust::vtt::PixelCoordinate;

#[test]
fn split_normal_rectangle() {
    let rect = FoWRectangle {
        topleft: PixelCoordinate::new(0, 0),
        bottomright: PixelCoordinate::new(10, 10),
    };

    let (tl, tr, bl, br) = rect.split().expect("split should succeed");

    assert_eq!(
        tl,
        FoWRectangle {
            topleft: PixelCoordinate::new(0, 0),
            bottomright: PixelCoordinate::new(5, 5),
        }
    );
    assert_eq!(
        tr,
        FoWRectangle {
            topleft: PixelCoordinate::new(6, 0),
            bottomright: PixelCoordinate::new(10, 5),
        }
    );
    assert_eq!(
        bl,
        FoWRectangle {
            topleft: PixelCoordinate::new(0, 6),
            bottomright: PixelCoordinate::new(5, 10),
        }
    );
    assert_eq!(
        br,
        FoWRectangle {
            topleft: PixelCoordinate::new(6, 6),
            bottomright: PixelCoordinate::new(10, 10),
        }
    );
}

#[test]
fn split_odd_size_rectangle() {
    let rect = FoWRectangle {
        topleft: PixelCoordinate::new(0, 0),
        bottomright: PixelCoordinate::new(11, 11),
    };

    let (tl, tr, bl, _br) = rect.split().expect("split should succeed");

    let width_tl = tl.bottomright.x - tl.topleft.x;
    let width_tr = tr.bottomright.x - tr.topleft.x;
    let height_tl = tl.bottomright.y - tl.topleft.y;
    let height_bl = bl.bottomright.y - bl.topleft.y;

    assert!(
        (width_tl - width_tr).abs() <= 1,
        "Widths differ by more than 1: {width_tl} vs {width_tr}"
    );
    assert!(
        (height_tl - height_bl).abs() <= 1,
        "Heights differ by more than 1: {height_tl} vs {height_bl}"
    );
}

#[test]
fn split_minimum_size_error() {
    let rect = FoWRectangle {
        topleft: PixelCoordinate::new(0, 0),
        bottomright: PixelCoordinate::new(1, 1),
    };

    let result = rect.split();
    match result {
        Err(RustVttError::MinimumRectangle { rectangle }) => {
            assert_eq!(rectangle.topleft, PixelCoordinate::new(0, 0));
        }
        other => panic!("Expected MinimumRectangle error, got {:?}", other),
    }
}

#[test]
fn split_refuses_one_thin_axis() {
    let rect = FoWRectangle::new(PixelCoordinate::new(4, 4), PixelCoordinate::new(20, 6));
    match rect.split() {
        Err(RustVttError::MinimumRectangle { rectangle }) => assert_eq!(rectangle, rect),
        other => panic!("Expected MinimumRectangle error, got {:?}", other),
    }
}

#[test]
fn split_smallest_splittable() {
    let rect = FoWRectangle::new(PixelCoordinate::new(0, 0), PixelCoordinate::new(3, 3));
    let (tl, tr, bl, br) = rect.split().expect("split should succeed");
    assert_eq!(tl, FoWRectangle::new(PixelCoordinate::new(0, 0), PixelCoordinate::new(1, 1)));
    assert_eq!(tr, FoWRectangle::new(PixelCoordinate::new(2, 0), PixelCoordinate::new(3, 1)));
    assert_eq!(bl, FoWRectangle::new(PixelCoordinate::new(0, 2), PixelCoordinate::new(1, 3)));
    assert_eq!(br, FoWRectangle::new(PixelCoordinate::new(2, 2), PixelCoordinate::new(3, 3)));
}

#[test]
fn split_children_tile_parent() {
    let rect = FoWRectangle::new(PixelCoordinate::new(7, 3), PixelCoordinate::new(18, 12));
    let (tl, tr, bl, br) = rect.split().expect("split should succeed");
    let children = [tl, tr, bl, br];
    for x in 7..=18 {
        for y in 3..=12 {
            let n = children
                .iter()
                .filter(|c| {
                    c.topleft.x <= x && x <= c.bottomright.x && c.topleft.y <= y && y <= c.bottomright.y
                })
                .count();
            assert_eq!(n, 1, "pixel ({x}, {y}) lies in {n} children");
        }
    }
}
