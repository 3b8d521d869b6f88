//! Map coordinates: grid space, pixel space, and the map's resolution.
use vstd::prelude::*;

use crate::errors::RustVttError;

verus! {

/// Number of fixed-point units in one grid square.
pub const COORD_SCALE: i32 = 10000;

/// A point in grid space, held in fixed point: `x` and `y` count
/// `1 / COORD_SCALE` of a grid square (so a map may reach some two hundred
/// thousand squares from the origin).
#[derive(Debug, Clone, Copy, PartialEq, Eq, Structural)]
pub struct Coordinate {
    pub x: i32,
    pub y: i32,
}

/// A point in pixel space.
#[derive(Debug, Clone, Copy, PartialEq, Eq, Structural)]
pub struct PixelCoordinate {
    pub x: i32,
    pub y: i32,
}

/// Where the map lies in grid space and how many pixels one grid square spans.
#[derive(Debug, Clone, Copy, PartialEq, Eq, Structural)]
pub struct Resolution {
    pub map_origin: Coordinate,
    pub map_size: Coordinate,
    pub pixels_per_grid: i32,
}

/// The map's ambient lighting.
#[derive(Debug, PartialEq, Eq)]
pub struct Environment {
    pub baked_lighting: bool,
    pub ambient_light: Option<String>,
}

/// Division that rounds toward zero, as a cast of a real number to an integer does.
pub open spec fn trunc_div(a: int, d: int) -> int
    recommends
        d > 0,
{
    if a >= 0 {
        a / d
    } else {
        -((-a) / d)
    }
}

/// The pixel that a grid-space value falls on at the given scale.
pub open spec fn to_pixel(v: int, pixels_per_grid: int) -> int {
    trunc_div(v * pixels_per_grid, COORD_SCALE as int)
}

/// A grid-space value converts to a pixel value that fits in `i32`.
pub open spec fn pixel_fits(v: int, pixels_per_grid: int) -> bool {
    i32::MIN <= to_pixel(v, pixels_per_grid) <= i32::MAX
}

fn pixel_of(v: i32, pixels_per_grid: i32) -> (r: i32)
    requires
        pixels_per_grid > 0,
        pixel_fits(v as int, pixels_per_grid as int),
    ensures
        r == to_pixel(v as int, pixels_per_grid as int),
{
    let p: i128 = (v as i128) * (pixels_per_grid as i128);
    let s: i128 = COORD_SCALE as i128;
    let q: i128 = if p >= 0 {
        p / s
    } else {
        -((-p) / s)
    };
    q as i32
}

impl PixelCoordinate {
    /// The pixel that a grid coordinate falls on, rounding toward zero.
    pub fn from(coordinate: &Coordinate, pixels_per_grid: i32) -> (r: Self)
        requires
            pixels_per_grid > 0,
            pixel_fits(coordinate.x as int, pixels_per_grid as int),
            pixel_fits(coordinate.y as int, pixels_per_grid as int),
        ensures
            r.x == to_pixel(coordinate.x as int, pixels_per_grid as int),
            r.y == to_pixel(coordinate.y as int, pixels_per_grid as int),
    {
        PixelCoordinate { x: pixel_of(coordinate.x, pixels_per_grid), y: pixel_of(coordinate.y, pixels_per_grid) }
    }

    pub fn new(x: i32, y: i32) -> (r: Self)
        ensures
            r.x == x,
            r.y == y,
    {
        PixelCoordinate { x, y }
    }
}

impl Coordinate {
    pub fn new(x: i32, y: i32) -> (r: Self)
        ensures
            r.x == x,
            r.y == y,
    {
        Coordinate { x, y }
    }

    /// Whether `other` lies within one grid square of `self` on both axes.
    pub fn within_square(&self, other: &Coordinate) -> (r: bool)
        ensures
            r == (self.x - COORD_SCALE <= other.x <= self.x + COORD_SCALE && self.y
                - COORD_SCALE <= other.y <= self.y + COORD_SCALE),
    {
        let dx: i128 = other.x as i128 - self.x as i128;
        let dy: i128 = other.y as i128 - self.y as i128;
        let s: i128 = COORD_SCALE as i128;
        -s <= dx && dx <= s && -s <= dy && dy <= s
    }
}

/// Whether the observer lies strictly inside the map on both axes.
pub open spec fn strictly_inside(pov: Coordinate, resolution: Resolution) -> bool {
    resolution.map_origin.x < pov.x < resolution.map_size.x && resolution.map_origin.y < pov.y
        < resolution.map_size.y
}

/// Refuses an observer that lies on or beyond the map's border.
pub fn check_observer_bounds(pov: &Coordinate, resolution: &Resolution) -> (r: Result<
    (),
    RustVttError,
>)
    ensures
        r is Ok <==> strictly_inside(*pov, *resolution),
        r is Err ==> r == Err::<(), RustVttError>(RustVttError::OutOfBounds { coordinate: *pov }),
{
    if pov.x <= resolution.map_origin.x || resolution.map_size.x <= pov.x {
        return Err(RustVttError::OutOfBounds { coordinate: *pov });
    }
    if pov.y <= resolution.map_origin.y || resolution.map_size.y <= pov.y {
        return Err(RustVttError::OutOfBounds { coordinate: *pov });
    }
    Ok(())
}

/// Twice the signed area of the triangle `a`, `b`, `p`: zero exactly when
/// `p` lies on the line through `a` and `b`.
pub open spec fn cross(a: Coordinate, b: Coordinate, p: Coordinate) -> int {
    (b.x - a.x) * (p.y - a.y) - (b.y - a.y) * (p.x - a.x)
}

/// `p` lies on the segment from `a` to `b`, end points included.
pub open spec fn on_segment(p: Coordinate, a: Coordinate, b: Coordinate) -> bool {
    &&& cross(a, b, p) == 0
    &&& (a.x <= p.x <= b.x || b.x <= p.x <= a.x)
    &&& (a.y <= p.y <= b.y || b.y <= p.y <= a.y)
}

/// Whether `p` lies on the segment from `a` to `b`.
pub fn lies_on_segment(p: &Coordinate, a: &Coordinate, b: &Coordinate) -> (r: bool)
    ensures
        r == on_segment(*p, *a, *b),
{
    let dx: i128 = b.x as i128 - a.x as i128;
    let dy: i128 = b.y as i128 - a.y as i128;
    let px: i128 = p.x as i128 - a.x as i128;
    let py: i128 = p.y as i128 - a.y as i128;
    proof {
        let bound: int = 0x1_0000_0000;
        assert(-bound * bound <= dx * py <= bound * bound) by (nonlinear_arith)
            requires
                -bound <= dx <= bound,
                -bound <= py <= bound,
        ;
        assert(-bound * bound <= dy * px <= bound * bound) by (nonlinear_arith)
            requires
                -bound <= dy <= bound,
                -bound <= px <= bound,
        ;
    }
    let c: i128 = dx * py - dy * px;
    c == 0 && ((a.x <= p.x && p.x <= b.x) || (b.x <= p.x && p.x <= a.x)) && ((a.y <= p.y && p.y <= b.y)
        || (b.y <= p.y && p.y <= a.y))
}

/// Checks an observer before any geometry is computed: it must lie
/// strictly inside the map, and on none of the walls (segments `(a, b)`).
pub fn validate_observer(
    pov: &Coordinate,
    resolution: &Resolution,
    walls: &Vec<(Coordinate, Coordinate)>,
) -> (r: Result<(), RustVttError>)
    ensures
        !strictly_inside(*pov, *resolution) ==> r == Err::<(), RustVttError>(
            RustVttError::OutOfBounds { coordinate: *pov },
        ),
        strictly_inside(*pov, *resolution) && (exists|i: int|
            0 <= i < walls@.len() && #[trigger] on_segment(*pov, walls@[i].0, walls@[i].1)) ==> r
            == Err::<(), RustVttError>(RustVttError::InvalidPoint { coordinate: *pov }),
        r is Ok <==> strictly_inside(*pov, *resolution) && forall|i: int|
            0 <= i < walls@.len() ==> !#[trigger] on_segment(*pov, walls@[i].0, walls@[i].1),
{
    if let Err(e) = check_observer_bounds(pov, resolution) {
        return Err(e);
    }
    let mut i: usize = 0;
    while i < walls.len()
        invariant
            strictly_inside(*pov, *resolution),
            0 <= i <= walls@.len(),
            forall|j: int| 0 <= j < i ==> !#[trigger] on_segment(*pov, walls@[j].0, walls@[j].1),
        decreases walls@.len() - i,
    {
        let wall = &walls[i];
        if lies_on_segment(pov, &wall.0, &wall.1) {
            return Err(RustVttError::InvalidPoint { coordinate: *pov });
        }
        i = i + 1;
    }
    Ok(())
}

/// Distance between two sample points on the map's border: a fifth of a
/// grid square.
pub const LOS_STEP: i64 = 2000;

/// How many whole steps fit between `lo` and `hi`; none when `hi <= lo`.
pub open spec fn step_count(lo: int, hi: int) -> int {
    if hi > lo {
        (hi - lo) / (LOS_STEP as int)
    } else {
        0
    }
}

/// The points toward which sight rays are cast: every `LOS_STEP` along the
/// map's border, clockwise from its origin corner (top edge left to right,
/// right edge downward, bottom edge right to left, left edge upward), ending
/// back on the origin corner.
pub open spec fn border_points(res: Resolution) -> Seq<Coordinate> {
    let (ox, oy) = (res.map_origin.x as int, res.map_origin.y as int);
    let (sx, sy) = (res.map_size.x, res.map_size.y);
    let nx = step_count(ox, sx as int);
    let ny = step_count(oy, sy as int);
    let s = LOS_STEP as int;
    Seq::new((nx + 1) as nat, |k: int| Coordinate { x: (ox + k * s) as i32, y: oy as i32 }) + Seq::new(
        ny as nat,
        |k: int| Coordinate { x: sx, y: (oy + (k + 1) * s) as i32 },
    ) + Seq::new(nx as nat, |k: int| Coordinate { x: (ox + (nx - 1 - k) * s) as i32, y: sy })
        + Seq::new(ny as nat, |k: int| Coordinate { x: ox as i32, y: (oy + (ny - 1 - k) * s) as i32 })
}

proof fn lemma_steps_within(k: int, n: int)
    requires
        0 <= k <= n,
    ensures
        0 <= k * (LOS_STEP as int) <= n * (LOS_STEP as int),
{
    assert(0 <= k * 2000 <= n * 2000) by (nonlinear_arith)
        requires
            0 <= k <= n,
    ;
}

/// The sample points on the map's border toward which the direct line of
/// sight is cast, in clockwise order (see `border_points`).
pub fn sight_targets(resolution: &Resolution) -> (r: Vec<Coordinate>)
    ensures
        r@ == border_points(*resolution),
{
    let ox = resolution.map_origin.x;
    let oy = resolution.map_origin.y;
    let sx = resolution.map_size.x;
    let sy = resolution.map_size.y;
    let nx: i64 = if sx > ox {
        ((sx as i128 - ox as i128) / (LOS_STEP as i128)) as i64
    } else {
        0
    };
    let ny: i64 = if sy > oy {
        ((sy as i128 - oy as i128) / (LOS_STEP as i128)) as i64
    } else {
        0
    };
    let ghost s = LOS_STEP as int;
    let ghost top = Seq::new((nx + 1) as nat, |k: int| Coordinate { x: (ox + k * s) as i32, y: oy });
    let ghost right = Seq::new(ny as nat, |k: int| Coordinate { x: sx, y: (oy + (k + 1) * s) as i32 });
    let ghost bottom = Seq::new(nx as nat, |k: int| Coordinate { x: (ox + (nx - 1 - k) * s) as i32, y: sy });
    let ghost left = Seq::new(ny as nat, |k: int| Coordinate { x: ox, y: (oy + (ny - 1 - k) * s) as i32 });
    proof {
        assert(nx == 0 || nx * LOS_STEP <= sx - ox);
        assert(ny == 0 || ny * LOS_STEP <= sy - oy);
    }
    let mut points: Vec<Coordinate> = Vec::new();
    let mut k: i64 = 0;
    while k <= nx
        invariant
            0 <= k <= nx + 1,
            ox == resolution.map_origin.x && oy == resolution.map_origin.y,
            sx == resolution.map_size.x && sy == resolution.map_size.y,
            nx == step_count(ox as int, sx as int) && ny == step_count(oy as int, sy as int),
            0 <= nx && 0 <= ny,
            nx == 0 || nx * LOS_STEP <= sx - ox,
            ny == 0 || ny * LOS_STEP <= sy - oy,
            s == LOS_STEP as int,
            top == Seq::new((nx + 1) as nat, |k: int| Coordinate { x: (ox + k * s) as i32, y: oy }),
            right == Seq::new(ny as nat, |k: int| Coordinate { x: sx, y: (oy + (k + 1) * s) as i32 }),
            bottom == Seq::new(nx as nat, |k: int| Coordinate { x: (ox + (nx - 1 - k) * s) as i32, y: sy }),
            left == Seq::new(ny as nat, |k: int| Coordinate { x: ox, y: (oy + (ny - 1 - k) * s) as i32 }),
            points@ == top.subrange(0, k as int),
        decreases nx + 1 - k,
    {
        proof {
            lemma_steps_within(k as int, nx as int);
        }
        points.push(Coordinate { x: (ox as i128 + k as i128 * LOS_STEP as i128) as i32, y: oy });
        proof {
            assert(points@ =~= top.subrange(0, k + 1));
        }
        k = k + 1;
    }
    proof {
        assert(top.subrange(0, k as int) =~= top);
    }
    let mut k: i64 = 0;
    while k < ny
        invariant
            0 <= k <= ny,
            ox == resolution.map_origin.x && oy == resolution.map_origin.y,
            sx == resolution.map_size.x && sy == resolution.map_size.y,
            nx == step_count(ox as int, sx as int) && ny == step_count(oy as int, sy as int),
            0 <= nx && 0 <= ny,
            nx == 0 || nx * LOS_STEP <= sx - ox,
            ny == 0 || ny * LOS_STEP <= sy - oy,
            s == LOS_STEP as int,
            top == Seq::new((nx + 1) as nat, |k: int| Coordinate { x: (ox + k * s) as i32, y: oy }),
            right == Seq::new(ny as nat, |k: int| Coordinate { x: sx, y: (oy + (k + 1) * s) as i32 }),
            bottom == Seq::new(nx as nat, |k: int| Coordinate { x: (ox + (nx - 1 - k) * s) as i32, y: sy }),
            left == Seq::new(ny as nat, |k: int| Coordinate { x: ox, y: (oy + (ny - 1 - k) * s) as i32 }),
            points@ == top + right.subrange(0, k as int),
        decreases ny - k,
    {
        proof {
            lemma_steps_within(k + 1, ny as int);
        }
        points.push(Coordinate { x: sx, y: (oy as i128 + (k as i128 + 1) * LOS_STEP as i128) as i32 });
        proof {
            assert(points@ =~= top + right.subrange(0, k + 1));
        }
        k = k + 1;
    }
    proof {
        assert(right.subrange(0, k as int) =~= right);
    }
    let mut k: i64 = 0;
    while k < nx
        invariant
            0 <= k <= nx,
            ox == resolution.map_origin.x && oy == resolution.map_origin.y,
            sx == resolution.map_size.x && sy == resolution.map_size.y,
            nx == step_count(ox as int, sx as int) && ny == step_count(oy as int, sy as int),
            0 <= nx && 0 <= ny,
            nx == 0 || nx * LOS_STEP <= sx - ox,
            ny == 0 || ny * LOS_STEP <= sy - oy,
            s == LOS_STEP as int,
            top == Seq::new((nx + 1) as nat, |k: int| Coordinate { x: (ox + k * s) as i32, y: oy }),
            right == Seq::new(ny as nat, |k: int| Coordinate { x: sx, y: (oy + (k + 1) * s) as i32 }),
            bottom == Seq::new(nx as nat, |k: int| Coordinate { x: (ox + (nx - 1 - k) * s) as i32, y: sy }),
            left == Seq::new(ny as nat, |k: int| Coordinate { x: ox, y: (oy + (ny - 1 - k) * s) as i32 }),
            points@ == top + right + bottom.subrange(0, k as int),
        decreases nx - k,
    {
        proof {
            lemma_steps_within(nx - 1 - k, nx as int);
        }
        points.push(Coordinate { x: (ox as i128 + (nx as i128 - 1 - k as i128) * LOS_STEP as i128) as i32, y: sy });
        proof {
            assert(points@ =~= top + right + bottom.subrange(0, k + 1));
        }
        k = k + 1;
    }
    proof {
        assert(bottom.subrange(0, k as int) =~= bottom);
    }
    let mut k: i64 = 0;
    while k < ny
        invariant
            0 <= k <= ny,
            ox == resolution.map_origin.x && oy == resolution.map_origin.y,
            sx == resolution.map_size.x && sy == resolution.map_size.y,
            nx == step_count(ox as int, sx as int) && ny == step_count(oy as int, sy as int),
            0 <= nx && 0 <= ny,
            nx == 0 || nx * LOS_STEP <= sx - ox,
            ny == 0 || ny * LOS_STEP <= sy - oy,
            s == LOS_STEP as int,
            top == Seq::new((nx + 1) as nat, |k: int| Coordinate { x: (ox + k * s) as i32, y: oy }),
            right == Seq::new(ny as nat, |k: int| Coordinate { x: sx, y: (oy + (k + 1) * s) as i32 }),
            bottom == Seq::new(nx as nat, |k: int| Coordinate { x: (ox + (nx - 1 - k) * s) as i32, y: sy }),
            left == Seq::new(ny as nat, |k: int| Coordinate { x: ox, y: (oy + (ny - 1 - k) * s) as i32 }),
            points@ == top + right + bottom + left.subrange(0, k as int),
        decreases ny - k,
    {
        proof {
            lemma_steps_within(ny - 1 - k, ny as int);
        }
        points.push(Coordinate { x: ox, y: (oy as i128 + (ny as i128 - 1 - k as i128) * LOS_STEP as i128) as i32 });
        proof {
            assert(points@ =~= top + right + bottom + left.subrange(0, k + 1));
        }
        k = k + 1;
    }
    proof {
        assert(left.subrange(0, k as int) =~= left);
        assert(points@ =~= border_points(*resolution));
    }
    points
}

} // verus!
