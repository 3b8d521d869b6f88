//! Axis-aligned pixel rectangles with inclusive bounds.
use vstd::prelude::*;

use crate::errors::RustVttError;
use crate::quadtreenode::{class_of, classify_overlap, InLineString};
use crate::vtt::{pixel_fits, to_pixel, PixelCoordinate, Resolution};

verus! {

/// A rectangle is split only while both of its spans reach this many pixels.
pub const MIN_SQUARE_SIZE: i64 = 3;

/// A rectangle given by its top-left and bottom-right pixels, both included.
#[derive(Debug, Clone, Copy, PartialEq, Eq, Structural)]
pub struct FoWRectangle {
    pub topleft: PixelCoordinate,
    pub bottomright: PixelCoordinate,
}

impl FoWRectangle {
    /// Horizontal span: the number of pixels across, less one.
    pub open spec fn span_x(self) -> int {
        self.bottomright.x - self.topleft.x
    }

    /// Vertical span: the number of pixels down, less one.
    pub open spec fn span_y(self) -> int {
        self.bottomright.y - self.topleft.y
    }

    /// The top-left pixel lies above and left of the bottom-right one.
    pub open spec fn valid(self) -> bool {
        self.span_x() >= 0 && self.span_y() >= 0
    }

    /// Both spans are large enough for a split.
    pub open spec fn can_split(self) -> bool {
        self.span_x() >= MIN_SQUARE_SIZE && self.span_y() >= MIN_SQUARE_SIZE
    }

    /// The pixel `(x, y)` lies in the rectangle.
    pub open spec fn contains_pixel(self, x: int, y: int) -> bool {
        self.topleft.x <= x <= self.bottomright.x && self.topleft.y <= y <= self.bottomright.y
    }

    /// The number of pixels in the rectangle.
    pub open spec fn pixel_area(self) -> int {
        (self.span_x() + 1) * (self.span_y() + 1)
    }

    /// Last column of the left children.
    pub open spec fn mid_x(self) -> int {
        self.topleft.x + self.span_x() / 2
    }

    /// Last row of the top children.
    pub open spec fn mid_y(self) -> int {
        self.topleft.y + self.span_y() / 2
    }

    pub open spec fn rect_of(x0: int, y0: int, x1: int, y1: int) -> FoWRectangle {
        FoWRectangle {
            topleft: PixelCoordinate { x: x0 as i32, y: y0 as i32 },
            bottomright: PixelCoordinate { x: x1 as i32, y: y1 as i32 },
        }
    }

    /// The four quarters of a split: top-left, top-right, bottom-left, bottom-right.
    pub open spec fn quarters(self) -> (FoWRectangle, FoWRectangle, FoWRectangle, FoWRectangle) {
        let (x0, y0, x1, y1) = (
            self.topleft.x as int,
            self.topleft.y as int,
            self.bottomright.x as int,
            self.bottomright.y as int,
        );
        let (mx, my) = (self.mid_x(), self.mid_y());
        (
            Self::rect_of(x0, y0, mx, my),
            Self::rect_of(mx + 1, y0, x1, my),
            Self::rect_of(x0, my + 1, mx, y1),
            Self::rect_of(mx + 1, my + 1, x1, y1),
        )
    }

    pub fn new(topleft: PixelCoordinate, bottomright: PixelCoordinate) -> (r: Self)
        ensures
            r.topleft == topleft,
            r.bottomright == bottomright,
    {
        FoWRectangle { topleft, bottomright }
    }

    /// The map's rectangle in pixels: from the pixel of its origin to the
    /// pixel of its far corner.
    pub fn from_resolution(resolution: &Resolution) -> (r: Self)
        requires
            resolution.pixels_per_grid > 0,
            pixel_fits(resolution.map_origin.x as int, resolution.pixels_per_grid as int),
            pixel_fits(resolution.map_origin.y as int, resolution.pixels_per_grid as int),
            pixel_fits(resolution.map_size.x as int, resolution.pixels_per_grid as int),
            pixel_fits(resolution.map_size.y as int, resolution.pixels_per_grid as int),
        ensures
            r.topleft.x == to_pixel(resolution.map_origin.x as int, resolution.pixels_per_grid as int),
            r.topleft.y == to_pixel(resolution.map_origin.y as int, resolution.pixels_per_grid as int),
            r.bottomright.x == to_pixel(resolution.map_size.x as int, resolution.pixels_per_grid as int),
            r.bottomright.y == to_pixel(resolution.map_size.y as int, resolution.pixels_per_grid as int),
    {
        FoWRectangle {
            topleft: PixelCoordinate::from(&resolution.map_origin, resolution.pixels_per_grid),
            bottomright: PixelCoordinate::from(&resolution.map_size, resolution.pixels_per_grid),
        }
    }

    /// Classifies the rectangle against a polygon by the overlap that
    /// `measure` reports for it: the polygon's area within the rectangle and
    /// the rectangle's own area, in one unit.
    pub fn in_polygon<F: Fn(FoWRectangle) -> (u64, u64)>(&self, measure: &F) -> (r: InLineString)
        requires
            measure.requires((*self,)),
        ensures
            exists|o: (u64, u64)|
                #[trigger] measure.ensures((*self,), o) && r == class_of(o.0 as int, o.1 as int),
    {
        let o = measure(*self);
        classify_overlap(o.0, o.1)
    }

    /// Splits the rectangle into four quarters (top-left, top-right, bottom-left,
    /// bottom-right). The left and top quarters take half of each span, rounded
    /// down; the remainder goes to the right and bottom ones. A rectangle whose
    /// span is under the minimum on either axis is refused.
    pub fn split(&self) -> (r: Result<
        (FoWRectangle, FoWRectangle, FoWRectangle, FoWRectangle),
        RustVttError,
    >)
        ensures
            r is Ok <==> self.can_split(),
            r is Ok ==> r == Ok::<_, RustVttError>(self.quarters()),
            r is Err ==> r == Err::<(FoWRectangle, FoWRectangle, FoWRectangle, FoWRectangle), _>(
                RustVttError::MinimumRectangle { rectangle: *self },
            ),
    {
        let width: i64 = self.bottomright.x as i64 - self.topleft.x as i64;
        let height: i64 = self.bottomright.y as i64 - self.topleft.y as i64;
        if width < MIN_SQUARE_SIZE || height < MIN_SQUARE_SIZE {
            return Err(RustVttError::MinimumRectangle { rectangle: *self });
        }
        let mx: i32 = (self.topleft.x as i64 + width / 2) as i32;
        let my: i32 = (self.topleft.y as i64 + height / 2) as i32;
        let topleft_child = FoWRectangle {
            topleft: self.topleft,
            bottomright: PixelCoordinate::new(mx, my),
        };
        let topright_child = FoWRectangle {
            topleft: PixelCoordinate::new(mx + 1, self.topleft.y),
            bottomright: PixelCoordinate::new(self.bottomright.x, my),
        };
        let bottomleft_child = FoWRectangle {
            topleft: PixelCoordinate::new(self.topleft.x, my + 1),
            bottomright: PixelCoordinate::new(mx, self.bottomright.y),
        };
        let bottomright_child = FoWRectangle {
            topleft: PixelCoordinate::new(mx + 1, my + 1),
            bottomright: self.bottomright,
        };
        Ok((topleft_child, topright_child, bottomleft_child, bottomright_child))
    }
}

/// The quarters of a split tile the rectangle: each is a valid rectangle
/// inside it, every pixel of the rectangle lies in exactly one quarter, and
/// quarters side by side differ in width or height by at most one pixel.
pub proof fn lemma_split_tiles(r: FoWRectangle)
    requires
        r.can_split(),
    ensures
        ({
            let (tl, tr, bl, br) = r.quarters();
            &&& tl.valid() && tr.valid() && bl.valid() && br.valid()
            &&& forall|x: int, y: int|
                #![trigger r.contains_pixel(x, y)]
                r.contains_pixel(x, y) <==> (tl.contains_pixel(x, y) || tr.contains_pixel(x, y)
                    || bl.contains_pixel(x, y) || br.contains_pixel(x, y))
            &&& forall|x: int, y: int|
                #![trigger tl.contains_pixel(x, y)]
                #![trigger tr.contains_pixel(x, y)]
                #![trigger bl.contains_pixel(x, y)]
                #![trigger br.contains_pixel(x, y)]
                {
                    &&& !(tl.contains_pixel(x, y) && tr.contains_pixel(x, y))
                    &&& !(tl.contains_pixel(x, y) && bl.contains_pixel(x, y))
                    &&& !(tl.contains_pixel(x, y) && br.contains_pixel(x, y))
                    &&& !(tr.contains_pixel(x, y) && bl.contains_pixel(x, y))
                    &&& !(tr.contains_pixel(x, y) && br.contains_pixel(x, y))
                    &&& !(bl.contains_pixel(x, y) && br.contains_pixel(x, y))
                }
            &&& tl.span_x() == bl.span_x() && tr.span_x() == br.span_x()
            &&& tl.span_y() == tr.span_y() && bl.span_y() == br.span_y()
            &&& -1 <= tl.span_x() - tr.span_x() <= 1
            &&& -1 <= tl.span_y() - bl.span_y() <= 1
            &&& tl.pixel_area() + tr.pixel_area() + bl.pixel_area() + br.pixel_area()
                == r.pixel_area()
        }),
{
    let (tl, tr, bl, br) = r.quarters();
    let (w1, w2) = (tl.span_x() + 1, tr.span_x() + 1);
    let (h1, h2) = (tl.span_y() + 1, bl.span_y() + 1);
    assert(w1 + w2 == r.span_x() + 1);
    assert(h1 + h2 == r.span_y() + 1);
    assert(w1 * h1 + w2 * h1 + w1 * h2 + w2 * h2 == (w1 + w2) * (h1 + h2)) by (nonlinear_arith);
}

} // verus!
