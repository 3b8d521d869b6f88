//! The fog of war over a whole map: one cell per grid square, each fully
//! hidden, fully shown, or holding a quadtree for the parts in between.
use vstd::prelude::*;

use crate::fowrectangle::FoWRectangle;
use crate::quadtreenode::{covers, deterministic, lemma_covers_concat, merged, InLineString, QuadtreeNode};
use crate::vtt::{pixel_fits, to_pixel, PixelCoordinate, Resolution};

verus! {

/// The state of one grid cell.
#[derive(Debug)]
pub enum FowState {
    Hidden,
    Shown,
    Partial { node: QuadtreeNode },
}

impl Default for FowState {
    fn default() -> (r: Self)
        ensures
            r is Shown,
    {
        FowState::Shown
    }
}

/// Whether an update adds fog of war or removes it.
#[derive(Debug, Clone, Copy, PartialEq, Eq, Structural)]
pub enum Operation {
    HIDE,
    SHOW,
}

/// The fog of war over a map: its grid cells in row-major order and the
/// number of hidden rectangles among them.
#[derive(Debug)]
pub struct FogOfWar {
    squares: Vec<FowNode>,
    rectangle_count: usize,
    cell_area: usize,
}

/// The hidden rectangles of the cells, cell by cell.
pub open spec fn rects_of(cells: Seq<FowNode>) -> Seq<FoWRectangle>
    decreases cells.len(),
{
    if cells.len() == 0 {
        Seq::empty()
    } else {
        rects_of(cells.drop_last()) + cells.last().hidden_rects()
    }
}

/// Replacing one cell changes the number of hidden rectangles by the
/// difference between the old cell's and the new cell's.
proof fn lemma_rects_update(cells: Seq<FowNode>, i: int, c: FowNode)
    requires
        0 <= i < cells.len(),
    ensures
        rects_of(cells.update(i, c)).len() == rects_of(cells).len() - cells[i].hidden_rects().len()
            + c.hidden_rects().len(),
        cells[i].hidden_rects().len() <= rects_of(cells).len(),
    decreases cells.len(),
{
    let u = cells.update(i, c);
    if i == cells.len() - 1 {
        assert(u.drop_last() =~= cells.drop_last());
    } else {
        assert(u.drop_last() =~= cells.drop_last().update(i, c));
        lemma_rects_update(cells.drop_last(), i, c);
    }
}

/// The hidden rectangles of well-formed cells cover exactly their hidden
/// pixels.
proof fn lemma_cells_cover(cells: Seq<FowNode>)
    requires
        forall|i: int| 0 <= i < cells.len() ==> #[trigger] cells[i].wf(),
    ensures
        forall|x: int, y: int|
            #[trigger] covers(rects_of(cells), x, y) <==> exists|i: int|
                0 <= i < cells.len() && (#[trigger] cells[i]).area().contains_pixel(x, y)
                    && !cells[i].visible_at(x, y),
    decreases cells.len(),
{
    if cells.len() > 0 {
        let d = cells.drop_last();
        let c = cells.last();
        assert forall|i: int| 0 <= i < d.len() implies #[trigger] d[i].wf() by {
            assert(d[i] == cells[i]);
        }
        lemma_cells_cover(d);
        assert(cells[cells.len() - 1].wf());
        c.lemma_covers();
        assert forall|x: int, y: int|
            #[trigger] covers(rects_of(cells), x, y) <==> exists|i: int|
                0 <= i < cells.len() && (#[trigger] cells[i]).area().contains_pixel(x, y)
                    && !cells[i].visible_at(x, y) by {
            lemma_covers_concat(rects_of(d), c.hidden_rects(), x, y);
            if exists|i: int|
                0 <= i < cells.len() && (#[trigger] cells[i]).area().contains_pixel(x, y)
                    && !cells[i].visible_at(x, y) {
                let i = choose|i: int|
                    0 <= i < cells.len() && (#[trigger] cells[i]).area().contains_pixel(x, y)
                        && !cells[i].visible_at(x, y);
                if i < d.len() {
                    assert(d[i] == cells[i]);
                }
            }
            if covers(rects_of(d), x, y) {
                let i = choose|i: int|
                    0 <= i < d.len() && (#[trigger] d[i]).area().contains_pixel(x, y)
                        && !d[i].visible_at(x, y);
                assert(cells[i] == d[i]);
            }
            if covers(c.hidden_rects(), x, y) {
                assert(cells[cells.len() - 1] == c);
            }
        }
    }
}

/// Replacing cell `i` by a well-formed cell over the same rectangle keeps
/// every cell well formed and within the cell size, moves the number of
/// hidden rectangles by the cell's change, and keeps that number within the
/// counter's type.
proof fn lemma_replace_cell(cells0: Seq<FowNode>, cells1: Seq<FowNode>, i: int, ca: int)
    requires
        0 <= i < cells0.len(),
        cells1 == cells0.update(i, cells1[i]),
        forall|j: int|
            0 <= j < cells0.len() ==> #[trigger] cells0[j].wf() && cells0[j].area().pixel_area() <= ca,
        cells1[i].wf(),
        cells1[i].area() == cells0[i].area(),
        ca >= 0,
        cells0.len() * ca <= usize::MAX,
    ensures
        forall|j: int|
            0 <= j < cells1.len() ==> #[trigger] cells1[j].wf() && cells1[j].area().pixel_area() <= ca,
        rects_of(cells1).len() == rects_of(cells0).len() - cells0[i].hidden_rects().len()
            + cells1[i].hidden_rects().len(),
        cells0[i].hidden_rects().len() <= rects_of(cells0).len(),
        rects_of(cells1).len() <= usize::MAX,
{
    lemma_rects_update(cells0, i, cells1[i]);
    assert(cells0[i].wf() && cells0[i].area().pixel_area() <= ca);
    assert forall|j: int|
        0 <= j < cells1.len() implies #[trigger] cells1[j].wf() && cells1[j].area().pixel_area() <= ca by {
        if j != i {
            assert(cells1[j] == cells0[j]);
            assert(cells0[j].wf() && cells0[j].area().pixel_area() <= ca);
        }
    }
    assert forall|j: int| 0 <= j < cells1.len() implies #[trigger] cells1[j].hidden_rects().len() <= ca by {
        assert(cells1[j].wf() && cells1[j].area().pixel_area() <= ca);
        cells1[j].lemma_hidden_bound();
    }
    lemma_rects_bound(cells1, ca);
}

/// At most `bound` hidden rectangles in each cell make at most
/// `bound` times the number of cells in all.
proof fn lemma_rects_bound(cells: Seq<FowNode>, bound: int)
    requires
        bound >= 0,
        forall|i: int| 0 <= i < cells.len() ==> #[trigger] cells[i].hidden_rects().len() <= bound,
    ensures
        rects_of(cells).len() <= cells.len() * bound,
    decreases cells.len(),
{
    if cells.len() > 0 {
        let d = cells.drop_last();
        assert forall|i: int| 0 <= i < d.len() implies #[trigger] d[i].hidden_rects().len() <= bound by {
            assert(d[i] == cells[i]);
        }
        lemma_rects_bound(d, bound);
        assert(cells[cells.len() - 1].hidden_rects().len() <= bound);
        assert((d.len() + 1) * bound == d.len() * bound + bound) by (nonlinear_arith);
    }
}

/// The map's pixel origin on one axis, for a grid value `v`.
pub open spec fn axis_pixel(v: i32, res: Resolution) -> int {
    to_pixel(v as int, res.pixels_per_grid as int)
}

/// How many pixels the map spans from `lo` to `hi`; none when `hi <= lo`.
pub open spec fn pixel_extent(lo: int, hi: int) -> int {
    if hi > lo {
        hi - lo
    } else {
        0
    }
}

/// How many cells of `p` pixels it takes to cover `extent` pixels.
pub open spec fn cells_across(extent: int, p: int) -> int {
    if extent > 0 {
        (extent + p - 1) / p
    } else {
        0
    }
}

/// The number of cell columns of the map.
pub open spec fn grid_cols(res: Resolution) -> int {
    cells_across(
        pixel_extent(axis_pixel(res.map_origin.x, res), axis_pixel(res.map_size.x, res)),
        res.pixels_per_grid as int,
    )
}

/// The number of cell rows of the map.
pub open spec fn grid_rows(res: Resolution) -> int {
    cells_across(
        pixel_extent(axis_pixel(res.map_origin.y, res), axis_pixel(res.map_size.y, res)),
        res.pixels_per_grid as int,
    )
}

/// `r` is the cell in row `row` and column `col`: a square of
/// `pixels_per_grid` pixels whose top-left pixel is offset from the map's
/// pixel origin by whole cells.
pub open spec fn is_cell(r: FoWRectangle, res: Resolution, row: int, col: int) -> bool {
    let p = res.pixels_per_grid as int;
    let x = axis_pixel(res.map_origin.x, res) + col * p;
    let y = axis_pixel(res.map_origin.y, res) + row * p;
    &&& r.topleft.x == x && r.topleft.y == y
    &&& r.bottomright.x == x + p - 1 && r.bottomright.y == y + p - 1
}

/// A resolution that a fog of war can be built for: a positive scale, an
/// origin at or past zero, pixel positions that fit in `i32` one cell past
/// the map's far corner, and few enough pixels for the counter's type.
pub open spec fn valid_resolution(res: Resolution) -> bool {
    let p = res.pixels_per_grid as int;
    let (ox, oy) = (axis_pixel(res.map_origin.x, res), axis_pixel(res.map_origin.y, res));
    let (sx, sy) = (axis_pixel(res.map_size.x, res), axis_pixel(res.map_size.y, res));
    &&& p > 0
    &&& res.map_origin.x >= 0 && res.map_origin.y >= 0
    &&& pixel_fits(res.map_origin.x as int, p) && pixel_fits(res.map_origin.y as int, p)
    &&& pixel_fits(res.map_size.x as int, p) && pixel_fits(res.map_size.y as int, p)
    &&& sx + p <= i32::MAX && sy + p <= i32::MAX
    &&& (pixel_extent(ox, sx) + p) * (pixel_extent(oy, sy) + p) <= usize::MAX
}

proof fn lemma_cells_across(extent: int, p: int)
    requires
        extent > 0,
        p > 0,
    ensures
        cells_across(extent, p) >= 1,
        cells_across(extent, p) * p <= extent + p - 1,
        cells_across(extent, p) * p >= extent,
{
    let a = extent + p - 1;
    let n = a / p;
    vstd::arithmetic::div_mod::lemma_fundamental_div_mod(a, p);
    assert(a == p * n + a % p);
    assert(0 <= a % p < p) by {
        vstd::arithmetic::div_mod::lemma_mod_pos_bound(a, p);
    }
    assert(n * p == p * n) by (nonlinear_arith);
    assert(n >= 1) by (nonlinear_arith)
        requires
            a == p * n + a % p,
            0 <= a % p < p,
            a >= p,
    ;
}

impl FogOfWar {
    /// Partitions the map into square cells of `pixels_per_grid` pixels,
    /// row by row from the map's pixel origin, all of them shown.
    pub fn new(resolution: Resolution) -> (r: Self)
        requires
            valid_resolution(resolution),
        ensures
            r.wf(),
            r.rects() == Seq::<FoWRectangle>::empty(),
            r.cells().len() == grid_rows(resolution) * grid_cols(resolution),
            forall|i: int|
                0 <= i < r.cells().len() ==> is_cell(
                    (#[trigger] r.cells()[i]).area(),
                    resolution,
                    i / grid_cols(resolution),
                    i % grid_cols(resolution),
                ) && r.cells()[i].state_of() is Shown,
    {
        let p = resolution.pixels_per_grid;
        let origin = PixelCoordinate::from(&resolution.map_origin, p);
        let size = PixelCoordinate::from(&resolution.map_size, p);
        let ghost (w, h) = (pixel_extent(origin.x as int, size.x as int), pixel_extent(origin.y as int, size.y as int));
        let pw: i64 = p as i64;
        let cols: i64 = if size.x > origin.x {
            (size.x as i64 - origin.x as i64 + pw - 1) / pw
        } else {
            0
        };
        let rows: i64 = if size.y > origin.y {
            (size.y as i64 - origin.y as i64 + pw - 1) / pw
        } else {
            0
        };
        proof {
            if w > 0 {
                lemma_cells_across(w, pw as int);
                assert(cols == cells_across(w, pw as int));
                assert(cols * pw <= w + pw - 1);
            } else {
                assert(cols == 0);
            }
            if h > 0 {
                lemma_cells_across(h, pw as int);
                assert(rows == cells_across(h, pw as int));
                assert(rows * pw <= h + pw - 1);
            } else {
                assert(rows == 0);
            }
            assert(cols * pw <= w + pw) by (nonlinear_arith)
                requires
                    cols == 0 || cols * pw <= w + pw - 1,
                    w >= 0,
                    pw > 0,
            ;
            assert(rows * pw <= h + pw) by (nonlinear_arith)
                requires
                    rows == 0 || rows * pw <= h + pw - 1,
                    h >= 0,
                    pw > 0,
            ;
            assert(0 <= cols * pw && 0 <= rows * pw) by (nonlinear_arith)
                requires cols >= 0, rows >= 0, pw > 0;
            assert((rows * pw) * (cols * pw) <= (h + pw) * (w + pw)) by (nonlinear_arith)
                requires
                    0 <= rows * pw <= h + pw,
                    0 <= cols * pw <= w + pw,
            ;
            assert(rows * cols * (pw * pw) == (rows * pw) * (cols * pw)) by (nonlinear_arith);
            assert(pw * pw <= (h + pw) * (w + pw)) by (nonlinear_arith)
                requires h >= 0, w >= 0, pw > 0;
            assert((h + pw) * (w + pw) == (w + pw) * (h + pw)) by (nonlinear_arith);
            assert((w + pw) * (h + pw) <= usize::MAX);
        }
        let cell_area: usize = (p as usize) * (p as usize);
        let mut squares: Vec<FowNode> = Vec::new();
        let mut row: i64 = 0;
        while row < rows
            invariant
                0 <= row <= rows,
                cols >= 0,
                cols == grid_cols(resolution),
                rows == grid_rows(resolution),
                pw == p,
                p == resolution.pixels_per_grid,
                pw > 0,
                cell_area == pw * pw,
                rows * cols * (pw * pw) <= usize::MAX,
                cols * pw <= w + pw - 1 || cols == 0,
                rows * pw <= h + pw - 1 || rows == 0,
                origin.x == axis_pixel(resolution.map_origin.x, resolution),
                origin.y == axis_pixel(resolution.map_origin.y, resolution),
                origin.x + w == size.x || w == 0,
                origin.y + h == size.y || h == 0,
                size.x + pw <= i32::MAX,
                size.y + pw <= i32::MAX,
                origin.x >= 0,
                origin.y >= 0,
                squares@.len() == row * cols,
                forall|k: int|
                    0 <= k < squares@.len() ==> is_cell(
                        (#[trigger] squares@[k]).area(),
                        resolution,
                        k / (cols as int),
                        k % (cols as int),
                    ) && squares@[k].state_of() is Shown && squares@[k].wf()
                        && squares@[k].area().pixel_area() == cell_area,
            decreases rows - row,
        {
            let mut col: i64 = 0;
            proof {
                assert(row * pw <= h - 1) by (nonlinear_arith)
                    requires
                        0 <= row < rows,
                        rows * pw <= h + pw - 1,
                        pw > 0,
                ;
            }
            let y: i64 = origin.y as i64 + row * pw;
            while col < cols
                invariant
                    0 <= col <= cols,
                    0 <= row < rows,
                    cols == grid_cols(resolution),
                    pw == p,
                    p == resolution.pixels_per_grid,
                    pw > 0,
                    cell_area == pw * pw,
                    cols * pw <= w + pw - 1 || cols == 0,
                    origin.x == axis_pixel(resolution.map_origin.x, resolution),
                    origin.y == axis_pixel(resolution.map_origin.y, resolution),
                    origin.x + w == size.x || w == 0,
                    y == origin.y + row * pw,
                    origin.y <= y,
                    origin.y >= 0,
                    y + pw <= i32::MAX,
                    size.x + pw <= i32::MAX,
                    origin.x >= 0,
                    squares@.len() == row * cols + col,
                    forall|k: int|
                        0 <= k < squares@.len() ==> is_cell(
                            (#[trigger] squares@[k]).area(),
                            resolution,
                            k / (cols as int),
                            k % (cols as int),
                        ) && squares@[k].state_of() is Shown && squares@[k].wf()
                            && squares@[k].area().pixel_area() == cell_area,
                decreases cols - col,
            {
                proof {
                    assert(col * pw <= w - 1) by (nonlinear_arith)
                        requires
                            0 <= col < cols,
                            cols * pw <= w + pw - 1,
                            pw > 0,
                    ;
                    assert(col * pw >= 0) by (nonlinear_arith)
                        requires col >= 0, pw > 0;
                }
                let x: i64 = origin.x as i64 + col * pw;
                let topleft = PixelCoordinate::new(x as i32, y as i32);
                let bottomright = PixelCoordinate::new((x + pw - 1) as i32, (y + pw - 1) as i32);
                let node = FowNode::new(FoWRectangle::new(topleft, bottomright));
                let ghost k = squares@.len() as int;
                proof {
                    vstd::arithmetic::div_mod::lemma_fundamental_div_mod_converse(k, cols as int, row as int, col as int);
                    assert(node.area().pixel_area() == pw * pw);
                    assert(x == axis_pixel(resolution.map_origin.x, resolution) + col * (p as int));
                    assert(y == axis_pixel(resolution.map_origin.y, resolution) + row * (p as int));
                    assert(is_cell(node.area(), resolution, row as int, col as int));
                    assert(node.wf());
                    assert(k / (cols as int) == row && k % (cols as int) == col);
                }
                squares.push(node);
                col = col + 1;
                proof {
                    assert(row * cols + col == squares@.len());
                }
            }
            proof {
                assert((row + 1) * cols == row * cols + cols) by (nonlinear_arith);
            }
            row = row + 1;
        }
        proof {
            lemma_rects_all_shown(squares@);
        }
        FogOfWar { squares, rectangle_count: 0, cell_area }
    }

    /// The cells of the map in row-major order.
    pub closed spec fn cells(self) -> Seq<FowNode> {
        self.squares@
    }

    /// The rectangles under fog of war, cell by cell.
    pub closed spec fn rects(self) -> Seq<FoWRectangle> {
        rects_of(self.squares@)
    }

    /// Every cell is well formed and no larger than the cell size, the cells
    /// together hold few enough pixels for the counter, and the counter
    /// equals the number of hidden rectangles.
    pub closed spec fn wf(self) -> bool {
        &&& forall|i: int|
            0 <= i < self.squares@.len() ==> #[trigger] self.squares@[i].wf()
                && self.squares@[i].area().pixel_area() <= self.cell_area
        &&& self.squares@.len() * self.cell_area <= usize::MAX
        &&& self.rectangle_count == self.rects().len()
    }

    /// The value of the hidden-rectangle counter.
    pub closed spec fn counter(self) -> int {
        self.rectangle_count as int
    }

    /// The counter always equals the number of rectangles that
    /// `get_rectangles` returns: every constructor and every update keeps
    /// the fog of war well formed, and a well-formed fog of war counts its
    /// hidden rectangles exactly.
    pub proof fn lemma_counter_matches_rectangles(self)
        requires
            self.wf(),
        ensures
            self.counter() == self.rects().len(),
    {
    }

    /// The rectangles under fog of war are the hidden rectangles of the
    /// cells, cell by cell.
    pub proof fn lemma_rects_def(self)
        ensures
            self.rects() == rects_of(self.cells()),
    {
    }

    /// The rectangles under fog of war cover exactly the hidden pixels of
    /// the cells.
    pub proof fn lemma_covers(self)
        requires
            self.wf(),
        ensures
            forall|x: int, y: int|
                #[trigger] covers(self.rects(), x, y) <==> exists|i: int|
                    0 <= i < self.cells().len() && (#[trigger] self.cells()[i]).area().contains_pixel(x, y)
                        && !self.cells()[i].visible_at(x, y),
    {
        assert forall|i: int| 0 <= i < self.squares@.len() implies #[trigger] self.squares@[i].wf() by {}
        lemma_cells_cover(self.squares@);
        assert(self.cells() == self.squares@);
        assert(self.rects() == rects_of(self.squares@));
    }

    /// The number of hidden rectangles, as the counter holds it.
    pub fn rectangle_count(&self) -> (r: usize)
        requires
            self.wf(),
        ensures
            r == self.counter(),
            r == self.rects().len(),
    {
        self.rectangle_count
    }

    /// Puts the whole map under fog of war: every cell becomes hidden.
    pub fn hide_all(&mut self)
        requires
            old(self).wf(),
        ensures
            final(self).wf(),
            final(self).cells().len() == old(self).cells().len(),
            forall|i: int|
                0 <= i < final(self).cells().len() ==> (#[trigger] final(self).cells()[i]).area()
                    == old(self).cells()[i].area() && final(self).cells()[i].state_of() is Hidden,
            final(self).rects().len() == final(self).cells().len(),
    {
        let amount = self.squares.len();
        let mut i: usize = 0;
        while i < amount
            invariant
                amount == self.squares@.len(),
                amount == old(self).squares@.len(),
                self.cell_area == old(self).cell_area,
                0 <= i <= amount,
                forall|j: int|
                    0 <= j < amount ==> (#[trigger] self.squares@[j]).area() == old(self).squares@[j].area(),
                forall|j: int| 0 <= j < i ==> (#[trigger] self.squares@[j]).state_of() is Hidden,
                forall|j: int|
                    i <= j < amount ==> #[trigger] self.squares@[j] == old(self).squares@[j],
            decreases amount - i,
        {
            self.squares[i].conceal();
            i = i + 1;
        }
        proof {
            assert forall|j: int|
                0 <= j < amount implies #[trigger] self.squares@[j].hidden_rects().len() == 1 by {
                assert(self.squares@[j].hidden_rects() == seq![self.squares@[j].area()]);
            }
            lemma_rects_all_hidden(self.squares@);
            assert forall|j: int| 0 <= j < amount implies #[trigger] self.squares@[j].wf() by {
                assert(old(self).squares@[j].wf());
            }
        }
        self.rectangle_count = amount;
        proof {
            assert forall|j: int|
                0 <= j < self.squares@.len() implies #[trigger] self.squares@[j].wf()
                    && self.squares@[j].area().pixel_area() <= self.cell_area by {
                assert(old(self).squares@[j].wf());
                assert(old(self).squares@[j].area().pixel_area() <= self.cell_area);
            }
        }
    }

    /// Clears the fog of war from the whole map: every cell becomes shown.
    pub fn show_all(&mut self)
        requires
            old(self).wf(),
        ensures
            final(self).wf(),
            final(self).cells().len() == old(self).cells().len(),
            forall|i: int|
                0 <= i < final(self).cells().len() ==> (#[trigger] final(self).cells()[i]).area()
                    == old(self).cells()[i].area() && final(self).cells()[i].state_of() is Shown,
            final(self).rects() == Seq::<FoWRectangle>::empty(),
    {
        let amount = self.squares.len();
        let mut i: usize = 0;
        while i < amount
            invariant
                amount == self.squares@.len(),
                amount == old(self).squares@.len(),
                self.cell_area == old(self).cell_area,
                0 <= i <= amount,
                forall|j: int|
                    0 <= j < amount ==> (#[trigger] self.squares@[j]).area() == old(self).squares@[j].area(),
                forall|j: int| 0 <= j < i ==> (#[trigger] self.squares@[j]).state_of() is Shown,
                forall|j: int|
                    i <= j < amount ==> #[trigger] self.squares@[j] == old(self).squares@[j],
            decreases amount - i,
        {
            self.squares[i].show();
            i = i + 1;
        }
        proof {
            assert forall|j: int|
                0 <= j < amount implies #[trigger] self.squares@[j].hidden_rects().len() == 0 by {
                assert(self.squares@[j].hidden_rects() == Seq::<FoWRectangle>::empty());
            }
            lemma_rects_all_shown(self.squares@);
            assert forall|j: int| 0 <= j < amount implies #[trigger] self.squares@[j].wf() by {
                assert(old(self).squares@[j].wf());
            }
        }
        self.rectangle_count = 0;
        proof {
            assert forall|j: int|
                0 <= j < self.squares@.len() implies #[trigger] self.squares@[j].wf()
                    && self.squares@[j].area().pixel_area() <= self.cell_area by {
                assert(old(self).squares@[j].wf());
                assert(old(self).squares@[j].area().pixel_area() <= self.cell_area);
            }
            assert(self.rects().len() == 0);
        }
    }

    /// Updates every cell against a polygon that `measure` describes (see
    /// `FowNode::update`), adding fog of war for `HIDE` and removing it for
    /// `SHOW`. The counter moves by each cell's change in hidden rectangles.
    pub fn update<F: Fn(FoWRectangle) -> (u64, u64)>(&mut self, operation: Operation, measure: &F)
        requires
            old(self).wf(),
            forall|r: FoWRectangle| #[trigger] measure.requires((r,)),
        ensures
            final(self).wf(),
            final(self).cells().len() == old(self).cells().len(),
            forall|i: int|
                0 <= i < final(self).cells().len() ==> FowNode::updated_from(
                    #[trigger] final(self).cells()[i],
                    old(self).cells()[i],
                    operation is SHOW,
                    *measure,
                ) && FowNode::update_outcome(
                    final(self).cells()[i],
                    old(self).cells()[i],
                    operation is SHOW,
                    *measure,
                ),
            operation is HIDE ==> forall|x: int, y: int|
                #[trigger] covers(old(self).rects(), x, y) ==> covers(final(self).rects(), x, y),
            operation is SHOW ==> forall|x: int, y: int|
                #[trigger] covers(final(self).rects(), x, y) ==> covers(old(self).rects(), x, y),
    {
        let make_visible = match operation {
            Operation::HIDE => false,
            Operation::SHOW => true,
        };
        let amount = self.squares.len();
        let mut i: usize = 0;
        while i < amount
            invariant
                forall|r: FoWRectangle| #[trigger] measure.requires((r,)),
                make_visible == operation is SHOW,
                amount == self.squares@.len(),
                amount == old(self).squares@.len(),
                self.cell_area == old(self).cell_area,
                0 <= i <= amount,
                self.wf(),
                forall|j: int|
                    0 <= j < i ==> FowNode::updated_from(
                        #[trigger] self.squares@[j],
                        old(self).squares@[j],
                        make_visible,
                        *measure,
                    ) && FowNode::update_outcome(
                        self.squares@[j],
                        old(self).squares@[j],
                        make_visible,
                        *measure,
                    ),
                forall|j: int|
                    i <= j < amount ==> #[trigger] self.squares@[j] == old(self).squares@[j],
            decreases amount - i,
        {
            let ghost cells0 = self.squares@;
            let ghost ca = self.cell_area as int;
            proof {
                assert forall|j: int| 0 <= j < cells0.len() implies #[trigger] cells0[j].wf()
                    && cells0[j].area().pixel_area() <= ca by {
                    assert(self.squares@[j].wf());
                }
                assert(i < cells0.len());
                assert(cells0[i as int].wf());
                assert(cells0[i as int].area().pixel_area() <= self.cell_area);
                lemma_rects_update(cells0, i as int, cells0[i as int]);
            }
            let before = self.squares[i].hidden_count(self.cell_area);
            self.squares[i].update(make_visible, measure);
            let ghost cells1 = self.squares@;
            proof {
                assert(self.cell_area == ca);
                assert(cells1 == cells0.update(i as int, cells1[i as int]));
                lemma_replace_cell(cells0, cells1, i as int, ca);
            }
            let after = self.squares[i].hidden_count(self.cell_area);
            self.rectangle_count = self.rectangle_count - before + after;
            proof {
                assert(self.squares@ == cells1);
                assert(self.cell_area == ca);
                assert(self.rectangle_count == rects_of(cells1).len());
                assert forall|j: int|
                    0 <= j < self.squares@.len() implies #[trigger] self.squares@[j].wf()
                        && self.squares@[j].area().pixel_area() <= self.cell_area by {
                    assert(0 <= j < cells1.len());
                    assert(cells1[j].wf());
                }
                assert(self.wf());
            }
            i = i + 1;
        }
        proof {
            old(self).lemma_covers();
            self.lemma_covers();
            let (c0, c1) = (old(self).cells(), self.cells());
            assert forall|x: int, y: int|
                #[trigger] covers(old(self).rects(), x, y) && !make_visible implies covers(
                    self.rects(),
                    x,
                    y,
                ) by {
                let i = choose|i: int|
                    0 <= i < c0.len() && (#[trigger] c0[i]).area().contains_pixel(x, y)
                        && !c0[i].visible_at(x, y);
                assert(FowNode::updated_from(c1[i], c0[i], make_visible, *measure));
                let t = choose|t: QuadtreeNode|
                    #[trigger] grown_over(t, c0[i].area(), make_visible, *measure) && forall|x: int, y: int|
                        c0[i].area().contains_pixel(x, y) ==> #[trigger] c1[i].visible_at(x, y) == merged(
                            c0[i].visible_at(x, y),
                            t.visible_at(x, y),
                            make_visible,
                        );
                assert(!c1[i].visible_at(x, y));
                assert(c1[i].area().contains_pixel(x, y));
            }
            assert forall|x: int, y: int|
                #[trigger] covers(self.rects(), x, y) && make_visible implies covers(
                    old(self).rects(),
                    x,
                    y,
                ) by {
                let i = choose|i: int|
                    0 <= i < c1.len() && (#[trigger] c1[i]).area().contains_pixel(x, y)
                        && !c1[i].visible_at(x, y);
                assert(FowNode::updated_from(c1[i], c0[i], make_visible, *measure));
                let t = choose|t: QuadtreeNode|
                    #[trigger] grown_over(t, c0[i].area(), make_visible, *measure) && forall|x: int, y: int|
                        c0[i].area().contains_pixel(x, y) ==> #[trigger] c1[i].visible_at(x, y) == merged(
                            c0[i].visible_at(x, y),
                            t.visible_at(x, y),
                            make_visible,
                        );
                assert(!c0[i].visible_at(x, y));
                assert(c0[i].area().contains_pixel(x, y));
            }
        }
    }

    /// All rectangles under fog of war, cell by cell.
    pub fn get_rectangles(&self) -> (r: Vec<FoWRectangle>)
        ensures
            r@ == self.rects(),
    {
        let mut vec: Vec<FoWRectangle> = Vec::new();
        let mut i: usize = 0;
        while i < self.squares.len()
            invariant
                0 <= i <= self.squares@.len(),
                vec@ == rects_of(self.squares@.subrange(0, i as int)),
            decreases self.squares@.len() - i,
        {
            proof {
                assert(self.squares@.subrange(0, i + 1).drop_last() =~= self.squares@.subrange(0, i as int));
            }
            self.squares[i].rectangles(&mut vec);
            i = i + 1;
        }
        proof {
            assert(self.squares@.subrange(0, i as int) =~= self.squares@);
        }
        vec
    }
}

proof fn lemma_rects_all_hidden(cells: Seq<FowNode>)
    requires
        forall|j: int| 0 <= j < cells.len() ==> #[trigger] cells[j].hidden_rects().len() == 1,
    ensures
        rects_of(cells).len() == cells.len(),
    decreases cells.len(),
{
    if cells.len() > 0 {
        let d = cells.drop_last();
        assert forall|j: int| 0 <= j < d.len() implies #[trigger] d[j].hidden_rects().len() == 1 by {
            assert(d[j] == cells[j]);
        }
        lemma_rects_all_hidden(d);
        assert(cells[cells.len() - 1].hidden_rects().len() == 1);
    }
}

proof fn lemma_rects_all_shown(cells: Seq<FowNode>)
    requires
        forall|j: int| 0 <= j < cells.len() ==> #[trigger] cells[j].hidden_rects().len() == 0,
    ensures
        rects_of(cells) == Seq::<FoWRectangle>::empty(),
    decreases cells.len(),
{
    if cells.len() > 0 {
        let d = cells.drop_last();
        assert forall|j: int| 0 <= j < d.len() implies #[trigger] d[j].hidden_rects().len() == 0 by {
            assert(d[j] == cells[j]);
        }
        lemma_rects_all_shown(d);
        assert(cells[cells.len() - 1].hidden_rects().len() == 0);
        assert(rects_of(cells) =~= Seq::<FoWRectangle>::empty());
    }
}

/// After hiding and then showing over one polygon, the cell `after` shows a
/// pixel exactly when `before` showed it or the polygon's tree `t` (grown to
/// hide) hides it.
pub open spec fn hidden_then_shown(before: FowNode, after: FowNode, t: QuadtreeNode) -> bool {
    forall|x: int, y: int|
        before.area().contains_pixel(x, y) ==> #[trigger] after.visible_at(x, y) == (before.visible_at(x, y)
            || !t.visible_at(x, y))
}

/// `after` is `before` hidden and then shown over the polygon that
/// `measure` describes: some tree grown to hide the polygon relates them as
/// `hidden_then_shown` says.
pub open spec fn shown_back<F: Fn(FoWRectangle) -> (u64, u64)>(
    before: FowNode,
    after: FowNode,
    measure: F,
) -> bool {
    exists|t: QuadtreeNode|
        #[trigger] grown_over(t, before.area(), false, measure) && hidden_then_shown(before, after, t)
}

/// Hiding a polygon and then showing the same polygon, measured the same way
/// both times, gives back every pixel that was visible and clears every
/// pixel that the polygon covers; so where the polygon's area was clear
/// before, the cell is as it was.
pub proof fn lemma_hide_then_show<F: Fn(FoWRectangle) -> (u64, u64)>(
    c0: FowNode,
    c1: FowNode,
    c2: FowNode,
    measure: F,
)
    requires
        c0.wf(),
        deterministic(measure),
        FowNode::updated_from(c1, c0, false, measure),
        FowNode::updated_from(c2, c1, true, measure),
    ensures
        shown_back(c0, c2, measure),
{
    let b = c0.area();
    let t = choose|t: QuadtreeNode|
        #[trigger] grown_over(t, b, false, measure) && forall|x: int, y: int|
            b.contains_pixel(x, y) ==> #[trigger] c1.visible_at(x, y) == merged(
                c0.visible_at(x, y),
                t.visible_at(x, y),
                false,
            );
    let u = choose|u: QuadtreeNode|
        #[trigger] grown_over(u, c1.area(), true, measure) && forall|x: int, y: int|
            c1.area().contains_pixel(x, y) ==> #[trigger] c2.visible_at(x, y) == merged(
                c1.visible_at(x, y),
                u.visible_at(x, y),
                true,
            );
    c0.lemma_area_valid();
    QuadtreeNode::lemma_grown_complement(t, u, b, true, measure);
    assert forall|x: int, y: int|
        b.contains_pixel(x, y) implies #[trigger] c2.visible_at(x, y) == (c0.visible_at(x, y)
            || !t.visible_at(x, y)) by {
        assert(c1.visible_at(x, y) == merged(c0.visible_at(x, y), t.visible_at(x, y), false));
        assert(u.visible_at(x, y) == !t.visible_at(x, y));
    }
    assert(grown_over(t, c0.area(), false, measure) && hidden_then_shown(c0, c2, t));
}

/// The same, cell by cell, for two updates of a whole fog of war: one that
/// hides a polygon and one that then shows it.
pub proof fn lemma_update_hide_then_show<F: Fn(FoWRectangle) -> (u64, u64)>(
    f0: FogOfWar,
    f1: FogOfWar,
    f2: FogOfWar,
    measure: F,
)
    requires
        f0.wf(),
        deterministic(measure),
        f1.cells().len() == f0.cells().len(),
        f2.cells().len() == f1.cells().len(),
        forall|i: int|
            0 <= i < f1.cells().len() ==> FowNode::updated_from(
                #[trigger] f1.cells()[i],
                f0.cells()[i],
                false,
                measure,
            ),
        forall|i: int|
            0 <= i < f2.cells().len() ==> FowNode::updated_from(
                #[trigger] f2.cells()[i],
                f1.cells()[i],
                true,
                measure,
            ),
    ensures
        forall|i: int|
            0 <= i < f0.cells().len() ==> #[trigger] shown_back(f0.cells()[i], f2.cells()[i], measure),
{
    assert forall|i: int| 0 <= i < f0.cells().len() implies #[trigger] shown_back(
        f0.cells()[i],
        f2.cells()[i],
        measure,
    ) by {
        assert(f0.squares@[i].wf());
        assert(FowNode::updated_from(f1.cells()[i], f0.cells()[i], false, measure));
        assert(FowNode::updated_from(f2.cells()[i], f1.cells()[i], true, measure));
        lemma_hide_then_show(f0.cells()[i], f1.cells()[i], f2.cells()[i], measure);
    }
}

/// One grid cell of the map.
#[derive(Debug)]
pub struct FowNode {
    state: FowState,
    rect: FoWRectangle,
}

/// `t` is a tree grown over `b` against the polygon that `measure`
/// describes, from a single leaf of visibility `!make_visible`.
pub open spec fn grown_over<F: Fn(FoWRectangle) -> (u64, u64)>(
    t: QuadtreeNode,
    b: FoWRectangle,
    make_visible: bool,
    measure: F,
) -> bool {
    QuadtreeNode::grown(t, QuadtreeNode::Leaf { bounds: b, visible: !make_visible }, make_visible, measure)
}

impl FowNode {
    /// The rectangle that the cell covers.
    pub closed spec fn area(self) -> FoWRectangle {
        self.rect
    }

    /// The cell's rectangle is valid and a partial cell holds a tree over it.
    pub closed spec fn wf(self) -> bool {
        &&& self.rect.valid()
        &&& match self.state {
            FowState::Partial { node } => node.wf_over(self.rect),
            _ => true,
        }
    }

    /// The rectangles under fog of war in this cell.
    pub closed spec fn hidden_rects(self) -> Seq<FoWRectangle> {
        match self.state {
            FowState::Hidden => seq![self.rect],
            FowState::Shown => Seq::empty(),
            FowState::Partial { node } => node.hidden_rects(),
        }
    }

    /// Whether the pixel `(x, y)` of the cell is visible.
    pub closed spec fn visible_at(self, x: int, y: int) -> bool {
        match self.state {
            FowState::Hidden => false,
            FowState::Shown => true,
            FowState::Partial { node } => node.visible_at(x, y),
        }
    }

    /// The state of the cell.
    pub closed spec fn state_of(self) -> FowState {
        self.state
    }

    /// `new` is `old` after an update: the same rectangle, and each pixel
    /// merged with a tree grown against the polygon that `measure` describes.
    pub open spec fn updated_from<F: Fn(FoWRectangle) -> (u64, u64)>(
        new: FowNode,
        old: FowNode,
        make_visible: bool,
        measure: F,
    ) -> bool {
        &&& new.area() == old.area()
        &&& exists|t: QuadtreeNode|
            #[trigger] grown_over(t, old.area(), make_visible, measure) && forall|x: int, y: int|
                old.area().contains_pixel(x, y) ==> #[trigger] new.visible_at(x, y) == merged(
                    old.visible_at(x, y),
                    t.visible_at(x, y),
                    make_visible,
                )
    }

    /// A partial cell holds a coalesced tree that is more than one leaf.
    pub open spec fn settled(self) -> bool {
        match self.state_of() {
            FowState::Partial { node } => node.compact() && node is Internal,
            _ => true,
        }
    }

    /// The shape of `new` after an update of `old`, by the class of the
    /// cell that `measure` gave: an inside cell wholly takes the operation's
    /// state, an outside cell is left as it is, and a cell across the border
    /// ends settled.
    pub open spec fn update_outcome<F: Fn(FoWRectangle) -> (u64, u64)>(
        new: FowNode,
        old: FowNode,
        make_visible: bool,
        measure: F,
    ) -> bool {
        exists|o: (u64, u64)|
            #[trigger] measure.ensures((old.area(),), o) && match crate::quadtreenode::class_of(
                o.0 as int,
                o.1 as int,
            ) {
                InLineString::INSIDE => new.area() == old.area() && new.state_of() == if make_visible {
                    FowState::Shown
                } else {
                    FowState::Hidden
                },
                InLineString::OUTSIDE => new == old,
                InLineString::PARTIAL => new.settled(),
            }
    }

    /// A grown tree whose merge gives `new` shows that `new` is `old` updated.
    proof fn lemma_updated_from_witness<F: Fn(FoWRectangle) -> (u64, u64)>(
        new: FowNode,
        old: FowNode,
        make_visible: bool,
        measure: F,
        t: QuadtreeNode,
    )
        requires
            new.area() == old.area(),
            grown_over(t, old.area(), make_visible, measure),
            forall|x: int, y: int|
                old.area().contains_pixel(x, y) ==> #[trigger] new.visible_at(x, y) == merged(
                    old.visible_at(x, y),
                    t.visible_at(x, y),
                    make_visible,
                ),
        ensures
            Self::updated_from(new, old, make_visible, measure),
    {
    }

    /// What a cell's spec functions are, by its state: a hidden cell has
    /// its own rectangle as its one hidden rectangle and no visible pixel, a
    /// shown cell none and every pixel visible, and a partial cell what its
    /// tree has.
    pub proof fn lemma_def(self)
        ensures
            self.hidden_rects() == match self.state_of() {
                FowState::Hidden => seq![self.area()],
                FowState::Shown => Seq::empty(),
                FowState::Partial { node } => node.hidden_rects(),
            },
            forall|x: int, y: int|
                #[trigger] self.visible_at(x, y) == match self.state_of() {
                    FowState::Hidden => false,
                    FowState::Shown => true,
                    FowState::Partial { node } => node.visible_at(x, y),
                },
            self.wf() == (self.area().valid() && match self.state_of() {
                FowState::Partial { node } => node.wf_over(self.area()),
                _ => true,
            }),
    {
    }

    /// The hidden rectangles of a cell cover exactly its hidden pixels.
    pub proof fn lemma_covers(self)
        requires
            self.wf(),
        ensures
            forall|x: int, y: int|
                #[trigger] covers(self.hidden_rects(), x, y) <==> (self.area().contains_pixel(x, y)
                    && !self.visible_at(x, y)),
    {
        match self.state {
            FowState::Partial { node } => node.lemma_covers(self.rect),
            FowState::Hidden => {
                assert forall|x: int, y: int|
                    #[trigger] covers(self.hidden_rects(), x, y) <==> (self.area().contains_pixel(x, y)
                        && !self.visible_at(x, y)) by {
                    if self.rect.contains_pixel(x, y) {
                        assert(self.hidden_rects()[0] == self.rect);
                    }
                }
            },
            FowState::Shown => {},
        }
    }

    /// A well-formed cell covers a valid rectangle.
    pub proof fn lemma_area_valid(self)
        requires
            self.wf(),
        ensures
            self.area().valid(),
    {
    }

    /// The cell's hidden rectangles number at most its pixels.
    pub proof fn lemma_hidden_bound(self)
        requires
            self.wf(),
        ensures
            self.hidden_rects().len() <= self.area().pixel_area(),
    {
        let r = self.rect;
        assert(r.pixel_area() >= 1) by (nonlinear_arith)
            requires
                r.span_x() >= 0,
                r.span_y() >= 0,
                r.pixel_area() == (r.span_x() + 1) * (r.span_y() + 1),
        ;
        if let FowState::Partial { node } = self.state {
            node.lemma_hidden_bound(r);
        }
    }

    /// The number of hidden rectangles in the cell.
    fn hidden_count(&self, cell_area: usize) -> (r: usize)
        requires
            self.wf(),
            self.area().pixel_area() <= cell_area,
        ensures
            r == self.hidden_rects().len(),
    {
        proof {
            self.lemma_hidden_bound();
        }
        match &self.state {
            FowState::Hidden => 1,
            FowState::Shown => 0,
            FowState::Partial { node } => {
                let mut count: usize = 0;
                node.hidden_children(&mut count);
                count
            },
        }
    }

    /// Creates a shown cell over `rect`.
    pub fn new(rect: FoWRectangle) -> (r: Self)
        ensures
            r.area() == rect,
            r.state_of() is Shown,
            r.hidden_rects() == Seq::<FoWRectangle>::empty(),
    {
        FowNode { state: FowState::Shown, rect }
    }

    /// Puts the whole cell under fog of war.
    pub fn conceal(&mut self)
        ensures
            final(self).area() == old(self).area(),
            final(self).state_of() is Hidden,
            final(self).hidden_rects() == seq![old(self).area()],
    {
        self.state = FowState::Hidden;
    }

    /// Clears the fog of war from the whole cell.
    pub fn show(&mut self)
        ensures
            final(self).area() == old(self).area(),
            final(self).state_of() is Shown,
            final(self).hidden_rects() == Seq::<FoWRectangle>::empty(),
    {
        self.state = FowState::Shown;
    }

    /// Appends the cell's hidden rectangles to `vec`.
    pub fn rectangles(&self, vec: &mut Vec<FoWRectangle>)
        ensures
            final(vec)@ == old(vec)@ + self.hidden_rects(),
    {
        match &self.state {
            FowState::Partial { node } => node.populate_rectangle_vec(vec),
            FowState::Hidden => {
                vec.push(self.rect);
                assert(final(vec)@ =~= old(vec)@ + self.hidden_rects());
            },
            FowState::Shown => {
                assert(final(vec)@ =~= old(vec)@ + self.hidden_rects());
            },
        }
    }

    /// Updates the cell against a polygon that `measure` describes: a cell
    /// inside the polygon takes the operation's state whole, a cell outside
    /// is left as it is, and a cell across the border is merged with a tree
    /// grown against the polygon.
    pub fn update<F: Fn(FoWRectangle) -> (u64, u64)>(&mut self, make_visible: bool, measure: &F)
        requires
            old(self).wf(),
            forall|r: FoWRectangle| #[trigger] measure.requires((r,)),
        ensures
            final(self).wf(),
            Self::updated_from(*final(self), *old(self), make_visible, *measure),
            Self::update_outcome(*final(self), *old(self), make_visible, *measure),
    {
        let rect = self.rect;
        let class = rect.in_polygon(measure);
        let ghost o = choose|o: (u64, u64)|
            #[trigger] measure.ensures((rect,), o) && class == crate::quadtreenode::class_of(o.0 as int, o.1 as int);
        match class {
            InLineString::INSIDE => {
                if make_visible {
                    self.show();
                } else {
                    self.conceal();
                }
                proof {
                    let t = QuadtreeNode::Leaf { bounds: rect, visible: make_visible };
                    assert(measure.ensures((rect,), o));
                    assert(QuadtreeNode::grown_leaf_by(t, rect, !make_visible, make_visible, *measure, o));
                    assert(QuadtreeNode::grown_leaf(t, rect, !make_visible, make_visible, *measure));
                    assert(grown_over(t, rect, make_visible, *measure));
                    assert forall|x: int, y: int|
                        rect.contains_pixel(x, y) implies #[trigger] self.visible_at(x, y) == merged(
                            old(self).visible_at(x, y),
                            t.visible_at(x, y),
                            make_visible,
                        ) by {}
                    Self::lemma_updated_from_witness(*self, *old(self), make_visible, *measure, t);
                }
            },
            InLineString::OUTSIDE => {
                proof {
                    let t = QuadtreeNode::Leaf { bounds: rect, visible: !make_visible };
                    assert(measure.ensures((rect,), o));
                    assert(QuadtreeNode::grown_leaf_by(t, rect, !make_visible, make_visible, *measure, o));
                    assert(QuadtreeNode::grown_leaf(t, rect, !make_visible, make_visible, *measure));
                    assert(grown_over(t, rect, make_visible, *measure));
                    assert forall|x: int, y: int|
                        rect.contains_pixel(x, y) implies #[trigger] self.visible_at(x, y) == merged(
                            old(self).visible_at(x, y),
                            t.visible_at(x, y),
                            make_visible,
                        ) by {}
                    Self::lemma_updated_from_witness(*self, *old(self), make_visible, *measure, t);
                }
            },
            InLineString::PARTIAL => {
                self.partial(make_visible, measure);
            },
        }
        proof {
            assert(measure.ensures((old(self).area(),), o));
        }
    }

    /// Grows a tree over the cell against a polygon that `measure`
    /// describes and merges it into the cell: where `make_visible` holds the
    /// tree's visible pixels are shown, otherwise its hidden pixels are
    /// hidden. The result is coalesced, and a cell that ends as one leaf is
    /// stored as wholly hidden or wholly shown.
    pub fn partial<F: Fn(FoWRectangle) -> (u64, u64)>(&mut self, make_visible: bool, measure: &F)
        requires
            old(self).wf(),
            forall|r: FoWRectangle| #[trigger] measure.requires((r,)),
        ensures
            final(self).wf(),
            Self::updated_from(*final(self), *old(self), make_visible, *measure),
            final(self).settled(),
    {
        let rect = self.rect;
        let mut tree = QuadtreeNode::from_bounds(rect, !make_visible);
        tree.create_tree(make_visible, measure);
        let ghost grown_tree = tree;
        let mut state = FowState::Shown;
        core::mem::swap(&mut state, &mut self.state);
        let mut node = match state {
            FowState::Hidden => QuadtreeNode::Leaf { bounds: rect, visible: false },
            FowState::Shown => QuadtreeNode::Leaf { bounds: rect, visible: true },
            FowState::Partial { node } => node,
        };
        let ghost start = node;
        proof {
            node.lemma_area(rect);
            assert forall|x: int, y: int| #[trigger] start.visible_at(x, y) == old(self).visible_at(x, y) by {}
        }
        if make_visible {
            node.show(&tree);
        } else {
            node.conceal(&tree);
        }
        let ghost joined = node;
        node.clean();
        proof {
            node.lemma_area(rect);
        }
        let ghost last = node;
        self.state = match node {
            QuadtreeNode::Leaf { visible: true, .. } => FowState::Shown,
            QuadtreeNode::Leaf { visible: false, .. } => FowState::Hidden,
            n => FowState::Partial { node: n },
        };
        proof {
            assert(grown_over(grown_tree, rect, make_visible, *measure));
            assert forall|x: int, y: int|
                rect.contains_pixel(x, y) implies #[trigger] self.visible_at(x, y) == merged(
                    old(self).visible_at(x, y),
                    grown_tree.visible_at(x, y),
                    make_visible,
                ) by {
                assert(last.visible_at(x, y) == joined.visible_at(x, y));
                assert(start.visible_at(x, y) == old(self).visible_at(x, y));
            }
            Self::lemma_updated_from_witness(*self, *old(self), make_visible, *measure, grown_tree);
        }
    }
}

} // verus!
