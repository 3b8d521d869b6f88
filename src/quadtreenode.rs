//! A quadtree over one rectangle that records which pixels are visible.
use vstd::prelude::*;

use crate::errors::RustVttError;
use crate::fowrectangle::FoWRectangle;

verus! {

/// How a rectangle relates to a polygon.
#[derive(Debug, Clone, Copy, PartialEq, Eq, Structural)]
pub enum InLineString {
    INSIDE,
    OUTSIDE,
    PARTIAL,
}

/// The class of a rectangle whose overlap with a polygon is `overlap` and
/// whose own area is `area`, both in one unit: inside above 99.99 %,
/// outside below 0.01 %, partial otherwise.
pub open spec fn class_of(overlap: int, area: int) -> InLineString {
    if 10000 * overlap > 9999 * area {
        InLineString::INSIDE
    } else if 10000 * overlap < area {
        InLineString::OUTSIDE
    } else {
        InLineString::PARTIAL
    }
}

/// Classifies a rectangle by the share of its area that a polygon covers.
pub fn classify_overlap(overlap: u64, area: u64) -> (r: InLineString)
    ensures
        r == class_of(overlap as int, area as int),
{
    let o: u128 = overlap as u128;
    let a: u128 = area as u128;
    if 10000 * o > 9999 * a {
        InLineString::INSIDE
    } else if 10000 * o < a {
        InLineString::OUTSIDE
    } else {
        InLineString::PARTIAL
    }
}

/// What merging `other` into a pixel of visibility `mine` gives: showing
/// keeps what either shows, hiding keeps only what both show.
pub open spec fn merged(mine: bool, other: bool, make_visible: bool) -> bool {
    if make_visible {
        mine || other
    } else {
        mine && other
    }
}

/// Some rectangle of `rs` holds the pixel `(x, y)`.
pub open spec fn covers(rs: Seq<FoWRectangle>, x: int, y: int) -> bool {
    exists|k: int| 0 <= k < rs.len() && #[trigger] rs[k].contains_pixel(x, y)
}

/// A pixel is covered by a concatenation exactly when either part covers it.
pub proof fn lemma_covers_concat(a: Seq<FoWRectangle>, b: Seq<FoWRectangle>, x: int, y: int)
    ensures
        covers(a + b, x, y) <==> (covers(a, x, y) || covers(b, x, y)),
{
    if covers(a + b, x, y) {
        let k = choose|k: int| 0 <= k < (a + b).len() && #[trigger] (a + b)[k].contains_pixel(x, y);
        if k < a.len() {
            assert(a[k] == (a + b)[k]);
        } else {
            assert(b[k - a.len()] == (a + b)[k]);
        }
    }
    if covers(a, x, y) {
        let k = choose|k: int| 0 <= k < a.len() && #[trigger] a[k].contains_pixel(x, y);
        assert((a + b)[k] == a[k]);
    }
    if covers(b, x, y) {
        let k = choose|k: int| 0 <= k < b.len() && #[trigger] b[k].contains_pixel(x, y);
        assert((a + b)[k + a.len()] == b[k]);
    }
}

/// `measure` gives one answer for each rectangle.
pub open spec fn deterministic<F: Fn(FoWRectangle) -> (u64, u64)>(measure: F) -> bool {
    forall|r: FoWRectangle, o1: (u64, u64), o2: (u64, u64)|
        #![trigger measure.ensures((r,), o1), measure.ensures((r,), o2)]
        measure.ensures((r,), o1) && measure.ensures((r,), o2) ==> o1 == o2
}

/// A node of the visibility tree: a leaf with one visibility for its whole
/// rectangle, or an internal node whose four children cover the quarters of
/// its rectangle.
#[derive(Debug)]
pub enum QuadtreeNode {
    Leaf { bounds: FoWRectangle, visible: bool },
    Internal {
        topleft: Box<QuadtreeNode>,
        topright: Box<QuadtreeNode>,
        bottomleft: Box<QuadtreeNode>,
        bottomright: Box<QuadtreeNode>,
    },
}

impl QuadtreeNode {
    /// The rectangle the node covers: from the top-left corner of its first
    /// leaf to the bottom-right corner of its last.
    pub open spec fn area(self) -> FoWRectangle
        decreases self,
    {
        match self {
            QuadtreeNode::Leaf { bounds, .. } => bounds,
            QuadtreeNode::Internal { topleft, bottomright, .. } => FoWRectangle {
                topleft: topleft.area().topleft,
                bottomright: bottomright.area().bottomright,
            },
        }
    }

    /// The node covers `b`: a leaf holds `b` itself, an internal node splits
    /// `b` and each child covers its quarter.
    pub open spec fn wf_over(self, b: FoWRectangle) -> bool
        decreases self,
    {
        match self {
            QuadtreeNode::Leaf { bounds, .. } => bounds == b && b.valid(),
            QuadtreeNode::Internal { topleft, topright, bottomleft, bottomright } => {
                &&& b.can_split()
                &&& topleft.wf_over(b.quarters().0)
                &&& topright.wf_over(b.quarters().1)
                &&& bottomleft.wf_over(b.quarters().2)
                &&& bottomright.wf_over(b.quarters().3)
            },
        }
    }

    /// The node is a well-formed tree over its own area.
    pub open spec fn wf(self) -> bool {
        self.wf_over(self.area())
    }

    /// The rectangles of the hidden leaves, in the order top-left,
    /// top-right, bottom-left, bottom-right at every level.
    pub open spec fn hidden_rects(self) -> Seq<FoWRectangle>
        decreases self,
    {
        match self {
            QuadtreeNode::Leaf { bounds, visible } => if visible {
                Seq::empty()
            } else {
                seq![bounds]
            },
            QuadtreeNode::Internal { topleft, topright, bottomleft, bottomright } => topleft.hidden_rects()
                + topright.hidden_rects() + bottomleft.hidden_rects() + bottomright.hidden_rects(),
        }
    }

    /// Whether the pixel `(x, y)` is visible, read from the leaf that holds it.
    pub open spec fn visible_at(self, x: int, y: int) -> bool
        decreases self,
    {
        match self {
            QuadtreeNode::Leaf { visible, .. } => visible,
            QuadtreeNode::Internal { topleft, topright, bottomleft, bottomright } => {
                if topleft.area().contains_pixel(x, y) {
                    topleft.visible_at(x, y)
                } else if topright.area().contains_pixel(x, y) {
                    topright.visible_at(x, y)
                } else if bottomleft.area().contains_pixel(x, y) {
                    bottomleft.visible_at(x, y)
                } else {
                    bottomright.visible_at(x, y)
                }
            },
        }
    }

    /// The visibility of a leaf; none for an internal node.
    pub open spec fn leaf_visibility(self) -> Option<bool> {
        match self {
            QuadtreeNode::Leaf { visible, .. } => Some(visible),
            QuadtreeNode::Internal { .. } => None,
        }
    }

    /// No internal node has four leaf children of one visibility.
    pub open spec fn compact(self) -> bool
        decreases self,
    {
        match self {
            QuadtreeNode::Leaf { .. } => true,
            QuadtreeNode::Internal { topleft, topright, bottomleft, bottomright } => {
                &&& topleft.compact()
                &&& topright.compact()
                &&& bottomleft.compact()
                &&& bottomright.compact()
                &&& !(topleft.leaf_visibility() is Some && topleft.leaf_visibility()
                    == topright.leaf_visibility() && topleft.leaf_visibility()
                    == bottomleft.leaf_visibility() && topleft.leaf_visibility()
                    == bottomright.leaf_visibility())
            },
        }
    }

    /// A tree over `b` has `b` as its area.
    pub proof fn lemma_area(self, b: FoWRectangle)
        requires
            self.wf_over(b),
        ensures
            self.area() == b,
            self.wf(),
        decreases self,
    {
        match self {
            QuadtreeNode::Leaf { .. } => {},
            QuadtreeNode::Internal { topleft, topright, bottomleft, bottomright } => {
                topleft.lemma_area(b.quarters().0);
                topright.lemma_area(b.quarters().1);
                bottomleft.lemma_area(b.quarters().2);
                bottomright.lemma_area(b.quarters().3);
                assert(self.area().topleft == b.topleft);
                assert(self.area().bottomright == b.bottomright);
            },
        }
    }

    /// A tree has no more hidden leaves than its rectangle has pixels.
    pub proof fn lemma_hidden_bound(self, b: FoWRectangle)
        requires
            self.wf_over(b),
        ensures
            self.hidden_rects().len() <= b.pixel_area(),
        decreases self,
    {
        match self {
            QuadtreeNode::Leaf { .. } => {
                assert(b.pixel_area() >= 1) by (nonlinear_arith)
                    requires
                        b.span_x() >= 0,
                        b.span_y() >= 0,
                        b.pixel_area() == (b.span_x() + 1) * (b.span_y() + 1),
                ;
            },
            QuadtreeNode::Internal { topleft, topright, bottomleft, bottomright } => {
                crate::fowrectangle::lemma_split_tiles(b);
                topleft.lemma_hidden_bound(b.quarters().0);
                topright.lemma_hidden_bound(b.quarters().1);
                bottomleft.lemma_hidden_bound(b.quarters().2);
                bottomright.lemma_hidden_bound(b.quarters().3);
            },
        }
    }

    /// Creates a leaf covering `bounds`.
    pub fn from_bounds(bounds: FoWRectangle, visible: bool) -> (r: Self)
        ensures
            r == (QuadtreeNode::Leaf { bounds, visible }),
    {
        QuadtreeNode::Leaf { bounds, visible }
    }

    /// A leaf covering the whole map.
    pub fn from_resolution(resolution: &crate::vtt::Resolution, visible: bool) -> (r: Self)
        requires
            resolution.pixels_per_grid > 0,
            crate::vtt::pixel_fits(resolution.map_origin.x as int, resolution.pixels_per_grid as int),
            crate::vtt::pixel_fits(resolution.map_origin.y as int, resolution.pixels_per_grid as int),
            crate::vtt::pixel_fits(resolution.map_size.x as int, resolution.pixels_per_grid as int),
            crate::vtt::pixel_fits(resolution.map_size.y as int, resolution.pixels_per_grid as int),
        ensures
            r == (QuadtreeNode::Leaf { bounds: r.area(), visible }),
            r.area().topleft.x == crate::vtt::to_pixel(
                resolution.map_origin.x as int,
                resolution.pixels_per_grid as int,
            ),
            r.area().topleft.y == crate::vtt::to_pixel(
                resolution.map_origin.y as int,
                resolution.pixels_per_grid as int,
            ),
            r.area().bottomright.x == crate::vtt::to_pixel(
                resolution.map_size.x as int,
                resolution.pixels_per_grid as int,
            ),
            r.area().bottomright.y == crate::vtt::to_pixel(
                resolution.map_size.y as int,
                resolution.pixels_per_grid as int,
            ),
    {
        QuadtreeNode::Leaf { bounds: FoWRectangle::from_resolution(resolution), visible }
    }

    /// The rectangle the node covers.
    pub fn get_area(&self) -> (r: FoWRectangle)
        ensures
            r == self.area(),
    {
        FoWRectangle { topleft: self.get_topleft_point(), bottomright: self.get_bottomright_point() }
    }

    fn get_topleft_point(&self) -> (r: crate::vtt::PixelCoordinate)
        ensures
            r == self.area().topleft,
        decreases self,
    {
        match self {
            QuadtreeNode::Leaf { bounds, .. } => bounds.topleft,
            QuadtreeNode::Internal { topleft, .. } => topleft.get_topleft_point(),
        }
    }

    fn get_bottomright_point(&self) -> (r: crate::vtt::PixelCoordinate)
        ensures
            r == self.area().bottomright,
        decreases self,
    {
        match self {
            QuadtreeNode::Leaf { bounds, .. } => bounds.bottomright,
            QuadtreeNode::Internal { bottomright, .. } => bottomright.get_bottomright_point(),
        }
    }

    /// The visibility of a leaf; asking it of an internal node is an error.
    pub fn visible(&self) -> (r: Result<bool, RustVttError>)
        ensures
            self.leaf_visibility() is Some ==> r == Ok::<bool, RustVttError>(
                self.leaf_visibility().unwrap(),
            ),
            self.leaf_visibility() is None ==> r == Err::<bool, RustVttError>(
                RustVttError::InvalidInput,
            ),
    {
        match self {
            QuadtreeNode::Leaf { visible, .. } => Ok(*visible),
            QuadtreeNode::Internal { .. } => Err(RustVttError::InvalidInput),
        }
    }

    /// Adds the number of hidden leaves to `count`.
    pub fn hidden_children(&self, count: &mut usize)
        requires
            *old(count) + self.hidden_rects().len() <= usize::MAX,
        ensures
            *final(count) == *old(count) + self.hidden_rects().len(),
        decreases self,
    {
        match self {
            QuadtreeNode::Leaf { visible, .. } => {
                if !*visible {
                    *count = *count + 1;
                }
            },
            QuadtreeNode::Internal { topleft, topright, bottomleft, bottomright } => {
                topleft.hidden_children(count);
                topright.hidden_children(count);
                bottomleft.hidden_children(count);
                bottomright.hidden_children(count);
            },
        }
    }

    /// Appends the rectangles of the hidden leaves to `vec`.
    pub fn populate_rectangle_vec(&self, vec: &mut Vec<FoWRectangle>)
        ensures
            final(vec)@ == old(vec)@ + self.hidden_rects(),
        decreases self,
    {
        match self {
            QuadtreeNode::Leaf { bounds, visible } => {
                if !*visible {
                    vec.push(*bounds);
                }
            },
            QuadtreeNode::Internal { topleft, topright, bottomleft, bottomright } => {
                topleft.populate_rectangle_vec(vec);
                topright.populate_rectangle_vec(vec);
                bottomleft.populate_rectangle_vec(vec);
                bottomright.populate_rectangle_vec(vec);
                assert(final(vec)@ =~= old(vec)@ + self.hidden_rects());
            },
        }
    }

    /// An internal node whose four children are leaves of visibility `v`
    /// over the quarters of `b`.
    pub open spec fn split_leaf(b: FoWRectangle, v: bool) -> QuadtreeNode {
        QuadtreeNode::Internal {
            topleft: Box::new(QuadtreeNode::Leaf { bounds: b.quarters().0, visible: v }),
            topright: Box::new(QuadtreeNode::Leaf { bounds: b.quarters().1, visible: v }),
            bottomleft: Box::new(QuadtreeNode::Leaf { bounds: b.quarters().2, visible: v }),
            bottomright: Box::new(QuadtreeNode::Leaf { bounds: b.quarters().3, visible: v }),
        }
    }

    /// Turns a leaf into an internal node whose four children keep the leaf's
    /// visibility; an internal node is left as it is. A leaf too small to be
    /// split is left as it is and the split's error is returned.
    pub fn to_internal(&mut self) -> (r: Result<(), RustVttError>)
        ensures
            match *old(self) {
                QuadtreeNode::Leaf { bounds, visible } => if bounds.can_split() {
                    r is Ok && *final(self) == Self::split_leaf(bounds, visible)
                } else {
                    r == Err::<(), RustVttError>(RustVttError::MinimumRectangle { rectangle: bounds })
                        && *final(self) == *old(self)
                },
                QuadtreeNode::Internal { .. } => r is Ok && *final(self) == *old(self),
            },
    {
        let (bounds, visible) = match &*self {
            QuadtreeNode::Leaf { bounds, visible } => (*bounds, *visible),
            QuadtreeNode::Internal { .. } => return Ok(()),
        };
        match bounds.split() {
            Ok((tl, tr, bl, br)) => {
                *self = QuadtreeNode::Internal {
                    topleft: Box::new(Self::from_bounds(tl, visible)),
                    topright: Box::new(Self::from_bounds(tr, visible)),
                    bottomleft: Box::new(Self::from_bounds(bl, visible)),
                    bottomright: Box::new(Self::from_bounds(br, visible)),
                };
                Ok(())
            },
            Err(e) => Err(e),
        }
    }

    /// A split leaf is a well-formed tree over the same rectangle, with the
    /// leaf's visibility at every pixel and its hidden rectangles split four
    /// ways.
    pub proof fn lemma_split_leaf(b: FoWRectangle, v: bool)
        requires
            b.can_split(),
        ensures
            Self::split_leaf(b, v).wf_over(b),
            Self::split_leaf(b, v).area() == b,
            forall|x: int, y: int| #[trigger]
                Self::split_leaf(b, v).visible_at(x, y) == v,
    {
        crate::fowrectangle::lemma_split_tiles(b);
        let t = Self::split_leaf(b, v);
        reveal_with_fuel(QuadtreeNode::wf_over, 2);
        reveal_with_fuel(QuadtreeNode::visible_at, 2);
        assert(t.wf_over(b));
        t.lemma_area(b);
        assert forall|x: int, y: int| #[trigger] t.visible_at(x, y) == v by {}
    }

    /// Merges `other` into `self` pixel by pixel: with `make_visible` a
    /// pixel is visible where either tree shows it, otherwise only where both
    /// do. Where `other` is a leaf of visibility `make_visible`, `self`
    /// becomes that one leaf over its area; a leaf of the other visibility
    /// leaves `self` as it is. A leaf of `self` that `other` refines is split
    /// unless it already holds the result.
    fn merge(&mut self, other: &Self, make_visible: bool)
        requires
            old(self).wf(),
            other.wf(),
            other.area() == old(self).area(),
        ensures
            final(self).wf(),
            final(self).area() == old(self).area(),
            forall|x: int, y: int|
                old(self).area().contains_pixel(x, y) ==> #[trigger] final(self).visible_at(x, y)
                    == merged(old(self).visible_at(x, y), other.visible_at(x, y), make_visible),
            other.leaf_visibility() == Some(make_visible) ==> *final(self) == (QuadtreeNode::Leaf {
                bounds: old(self).area(),
                visible: make_visible,
            }),
            other.leaf_visibility() == Some(!make_visible) ==> *final(self) == *old(self),
        decreases other,
    {
        match other {
            QuadtreeNode::Leaf { visible: other_visible, .. } => {
                if *other_visible == make_visible {
                    let bounds = self.get_area();
                    *self = QuadtreeNode::Leaf { bounds, visible: make_visible };
                }
            },
            QuadtreeNode::Internal {
                topleft: tl_other,
                topright: tr_other,
                bottomleft: bl_other,
                bottomright: br_other,
            } => {
                let b = Ghost(self.area());
                proof {
                    other.lemma_area(other.area());
                }
                if let QuadtreeNode::Leaf { visible, .. } = &*self {
                    if *visible == make_visible {
                        return;
                    }
                }
                let _ = self.to_internal();
                proof {
                    if (*old(self)) is Leaf {
                        Self::lemma_split_leaf(b@, !make_visible);
                    }
                    crate::fowrectangle::lemma_split_tiles(b@);
                }
                let ghost before = *self;
                match self {
                    QuadtreeNode::Internal {
                        topleft: tl_self,
                        topright: tr_self,
                        bottomleft: bl_self,
                        bottomright: br_self,
                    } => {
                        proof {
                            tl_self.lemma_area(b@.quarters().0);
                            tr_self.lemma_area(b@.quarters().1);
                            bl_self.lemma_area(b@.quarters().2);
                            br_self.lemma_area(b@.quarters().3);
                            tl_other.lemma_area(b@.quarters().0);
                            tr_other.lemma_area(b@.quarters().1);
                            bl_other.lemma_area(b@.quarters().2);
                            br_other.lemma_area(b@.quarters().3);
                        }
                        tl_self.merge(tl_other, make_visible);
                        tr_self.merge(tr_other, make_visible);
                        bl_self.merge(bl_other, make_visible);
                        br_self.merge(br_other, make_visible);
                    },
                    QuadtreeNode::Leaf { .. } => {},
                }
                proof {
                    assert forall|x: int, y: int|
                        old(self).area().contains_pixel(x, y) implies #[trigger] self.visible_at(x, y)
                            == merged(old(self).visible_at(x, y), other.visible_at(x, y), make_visible) by {
                        assert(before.visible_at(x, y) == old(self).visible_at(x, y));
                        let q = b@.quarters();
                        if let (
                            QuadtreeNode::Internal { topleft: a0, topright: a1, bottomleft: a2, bottomright: a3 },
                            QuadtreeNode::Internal { topleft: c0, topright: c1, bottomleft: c2, bottomright: c3 },
                        ) = (*self, before) {
                            assert(a0.area() == q.0 && c0.area() == q.0);
                            assert(a1.area() == q.1 && c1.area() == q.1);
                            assert(a2.area() == q.2 && c2.area() == q.2);
                            assert(a3.area() == q.3 && c3.area() == q.3);
                            if q.0.contains_pixel(x, y) {
                                assert(a0.visible_at(x, y) == merged(c0.visible_at(x, y), tl_other.visible_at(x, y), make_visible));
                            } else if q.1.contains_pixel(x, y) {
                                assert(a1.visible_at(x, y) == merged(c1.visible_at(x, y), tr_other.visible_at(x, y), make_visible));
                            } else if q.2.contains_pixel(x, y) {
                                assert(a2.visible_at(x, y) == merged(c2.visible_at(x, y), bl_other.visible_at(x, y), make_visible));
                            } else {
                                assert(q.3.contains_pixel(x, y));
                                assert(a3.visible_at(x, y) == merged(c3.visible_at(x, y), br_other.visible_at(x, y), make_visible));
                            }
                        } else {
                            assert(false);
                        }
                    }
                }
            },
        }
    }

    /// Merges `other` into `self` so that a pixel stays visible only where
    /// both trees show it: fog of war is added wherever `other` has it. A
    /// hidden leaf as `other` makes `self` one hidden leaf over its area; a
    /// visible leaf leaves `self` as it is.
    pub fn conceal(&mut self, other: &Self)
        requires
            old(self).wf(),
            other.wf(),
            other.area() == old(self).area(),
        ensures
            final(self).wf(),
            final(self).area() == old(self).area(),
            forall|x: int, y: int|
                old(self).area().contains_pixel(x, y) ==> #[trigger] final(self).visible_at(x, y)
                    == (old(self).visible_at(x, y) && other.visible_at(x, y)),
            other.leaf_visibility() == Some(false) ==> *final(self) == (QuadtreeNode::Leaf {
                bounds: old(self).area(),
                visible: false,
            }),
            other.leaf_visibility() == Some(true) ==> *final(self) == *old(self),
    {
        self.merge(other, false);
    }

    /// Merges `other` into `self` so that a pixel is visible where either
    /// tree shows it: fog of war is removed wherever `other` is clear. A
    /// visible leaf as `other` makes `self` one visible leaf over its area;
    /// a hidden leaf leaves `self` as it is.
    pub fn show(&mut self, other: &Self)
        requires
            old(self).wf(),
            other.wf(),
            other.area() == old(self).area(),
        ensures
            final(self).wf(),
            final(self).area() == old(self).area(),
            forall|x: int, y: int|
                old(self).area().contains_pixel(x, y) ==> #[trigger] final(self).visible_at(x, y)
                    == (old(self).visible_at(x, y) || other.visible_at(x, y)),
            other.leaf_visibility() == Some(true) ==> *final(self) == (QuadtreeNode::Leaf {
                bounds: old(self).area(),
                visible: true,
            }),
            other.leaf_visibility() == Some(false) ==> *final(self) == *old(self),
    {
        self.merge(other, true);
    }

    /// Coalesces, bottom up, every internal node whose four children are
    /// leaves of one visibility into a single leaf over the node's area.
    /// Which pixels are visible does not change.
    pub fn clean(&mut self)
        requires
            old(self).wf(),
        ensures
            final(self).wf(),
            final(self).area() == old(self).area(),
            final(self).compact(),
            forall|x: int, y: int|
                old(self).area().contains_pixel(x, y) ==> #[trigger] final(self).visible_at(x, y)
                    == old(self).visible_at(x, y),
        decreases *old(self),
    {
        let b = Ghost(self.area());
        proof {
            self.lemma_area(b@);
            if (*self) is Internal {
                crate::fowrectangle::lemma_split_tiles(b@);
            }
        }
        let ghost before = *self;
        let merged: Option<bool> = match self {
            QuadtreeNode::Internal { topleft, topright, bottomleft, bottomright } => {
                proof {
                    topleft.lemma_area(b@.quarters().0);
                    topright.lemma_area(b@.quarters().1);
                    bottomleft.lemma_area(b@.quarters().2);
                    bottomright.lemma_area(b@.quarters().3);
                }
                topleft.clean();
                topright.clean();
                bottomleft.clean();
                bottomright.clean();
                match (topleft.visible(), topright.visible(), bottomleft.visible(), bottomright.visible()) {
                    (Ok(n1), Ok(n2), Ok(n3), Ok(n4)) => {
                        if n1 && n2 && n3 && n4 {
                            Some(true)
                        } else if !n1 && !n2 && !n3 && !n4 {
                            Some(false)
                        } else {
                            None
                        }
                    },
                    _ => None,
                }
            },
            QuadtreeNode::Leaf { .. } => None,
        };
        proof {
            if before is Internal {
                let q = b@.quarters();
                assert forall|x: int, y: int|
                    b@.contains_pixel(x, y) implies #[trigger] self.visible_at(x, y) == before.visible_at(x, y) by {
                    if let (
                        QuadtreeNode::Internal { topleft: a0, topright: a1, bottomleft: a2, bottomright: a3 },
                        QuadtreeNode::Internal { topleft: c0, topright: c1, bottomleft: c2, bottomright: c3 },
                    ) = (*self, before) {
                        assert(a0.area() == q.0 && c0.area() == q.0);
                        assert(a1.area() == q.1 && c1.area() == q.1);
                        assert(a2.area() == q.2 && c2.area() == q.2);
                        assert(a3.area() == q.3 && c3.area() == q.3);
                        if q.0.contains_pixel(x, y) {
                            assert(a0.visible_at(x, y) == c0.visible_at(x, y));
                        } else if q.1.contains_pixel(x, y) {
                            assert(a1.visible_at(x, y) == c1.visible_at(x, y));
                        } else if q.2.contains_pixel(x, y) {
                            assert(a2.visible_at(x, y) == c2.visible_at(x, y));
                        } else {
                            assert(q.3.contains_pixel(x, y));
                            assert(a3.visible_at(x, y) == c3.visible_at(x, y));
                        }
                    } else {
                        assert(false);
                    }
                }
            }
        }
        if let Some(v) = merged {
            let bounds = self.get_area();
            let ghost cur = *self;
            proof {
                if let QuadtreeNode::Internal { topleft: a0, topright: a1, bottomleft: a2, bottomright: a3 } = cur {
                    assert(a0.leaf_visibility() == Some(v));
                    assert(a1.leaf_visibility() == Some(v));
                    assert(a2.leaf_visibility() == Some(v));
                    assert(a3.leaf_visibility() == Some(v));
                    assert forall|x: int, y: int| #[trigger] cur.visible_at(x, y) == v by {
                        assert(a0.visible_at(x, y) == v);
                        assert(a1.visible_at(x, y) == v);
                        assert(a2.visible_at(x, y) == v);
                        assert(a3.visible_at(x, y) == v);
                    }
                } else {
                    assert(false);
                }
            }
            *self = QuadtreeNode::Leaf { bounds, visible: v };
            proof {
                assert forall|x: int, y: int|
                    b@.contains_pixel(x, y) implies #[trigger] self.visible_at(x, y) == before.visible_at(x, y) by {
                    assert(cur.visible_at(x, y) == v);
                }
            }
        }
    }

    /// `t` is a possible outcome of growing a leaf of visibility `v` over `b`
    /// against a polygon that `measure` describes: `measure` gives, for a
    /// rectangle, its overlap with the polygon and its own area. An inside
    /// leaf takes `make_visible`, an outside one its negation, and a partial
    /// one is split and its quarters grown in turn; a partial leaf too small
    /// to be split keeps `v`.
    pub open spec fn grown_leaf<F: Fn(FoWRectangle) -> (u64, u64)>(
        t: QuadtreeNode,
        b: FoWRectangle,
        v: bool,
        make_visible: bool,
        measure: F,
    ) -> bool
        decreases b.span_x() + b.span_y(), 1int,
    {
        exists|o: (u64, u64)|
            #[trigger] measure.ensures((b,), o) && Self::grown_leaf_by(t, b, v, make_visible, measure, o)
    }

    /// `t` is the outcome of growing a leaf of visibility `v` over `b` when
    /// `measure` answers `o` for `b` (see `grown_leaf`).
    pub open spec fn grown_leaf_by<F: Fn(FoWRectangle) -> (u64, u64)>(
        t: QuadtreeNode,
        b: FoWRectangle,
        v: bool,
        make_visible: bool,
        measure: F,
        o: (u64, u64),
    ) -> bool
        decreases b.span_x() + b.span_y(), 0int,
    {
        measure.ensures((b,), o) && match class_of(o.0 as int, o.1 as int) {
            InLineString::INSIDE => t == QuadtreeNode::Leaf { bounds: b, visible: make_visible },
            InLineString::OUTSIDE => t == QuadtreeNode::Leaf { bounds: b, visible: !make_visible },
            InLineString::PARTIAL => if b.can_split() {
                match t {
                    QuadtreeNode::Internal { topleft, topright, bottomleft, bottomright } => {
                        &&& Self::grown_leaf(*topleft, b.quarters().0, v, make_visible, measure)
                        &&& Self::grown_leaf(*topright, b.quarters().1, v, make_visible, measure)
                        &&& Self::grown_leaf(*bottomleft, b.quarters().2, v, make_visible, measure)
                        &&& Self::grown_leaf(*bottomright, b.quarters().3, v, make_visible, measure)
                    },
                    QuadtreeNode::Leaf { .. } => false,
                }
            } else {
                t == QuadtreeNode::Leaf { bounds: b, visible: v }
            },
        }
    }

    /// `t` is a possible outcome of growing every leaf of `start` as
    /// `grown_leaf` describes.
    pub open spec fn grown<F: Fn(FoWRectangle) -> (u64, u64)>(
        t: QuadtreeNode,
        start: QuadtreeNode,
        make_visible: bool,
        measure: F,
    ) -> bool
        decreases start,
    {
        match start {
            QuadtreeNode::Leaf { bounds, visible } => Self::grown_leaf(t, bounds, visible, make_visible, measure),
            QuadtreeNode::Internal { topleft, topright, bottomleft, bottomright } => match t {
                QuadtreeNode::Internal { topleft: t0, topright: t1, bottomleft: t2, bottomright: t3 } => {
                    &&& Self::grown(*t0, *topleft, make_visible, measure)
                    &&& Self::grown(*t1, *topright, make_visible, measure)
                    &&& Self::grown(*t2, *bottomleft, make_visible, measure)
                    &&& Self::grown(*t3, *bottomright, make_visible, measure)
                },
                QuadtreeNode::Leaf { .. } => false,
            },
        }
    }

    /// Grows the tree against a polygon: each leaf is classified by the
    /// overlap that `measure` reports for its rectangle; inside leaves take
    /// `make_visible`, outside leaves its negation, and partial leaves are
    /// split and their quarters grown in turn until they reach the minimum
    /// size. The tree is meant to start as one leaf of visibility
    /// `!make_visible`.
    pub fn create_tree<F: Fn(FoWRectangle) -> (u64, u64)>(&mut self, make_visible: bool, measure: &F)
        requires
            old(self).wf(),
            forall|r: FoWRectangle| #[trigger] measure.requires((r,)),
        ensures
            final(self).wf(),
            final(self).area() == old(self).area(),
            Self::grown(*final(self), *old(self), make_visible, *measure),
        decreases old(self).area().span_x() + old(self).area().span_y(),
    {
        let b = Ghost(self.area());
        proof {
            self.lemma_area(b@);
            if (*self) is Internal {
                crate::fowrectangle::lemma_split_tiles(b@);
            }
        }
        let (bounds, visible) = match self {
            QuadtreeNode::Internal { topleft, topright, bottomleft, bottomright } => {
                proof {
                    topleft.lemma_area(b@.quarters().0);
                    topright.lemma_area(b@.quarters().1);
                    bottomleft.lemma_area(b@.quarters().2);
                    bottomright.lemma_area(b@.quarters().3);
                }
                topleft.create_tree(make_visible, measure);
                topright.create_tree(make_visible, measure);
                bottomleft.create_tree(make_visible, measure);
                bottomright.create_tree(make_visible, measure);
                return;
            },
            QuadtreeNode::Leaf { bounds, visible } => (*bounds, *visible),
        };
        let o = measure(bounds);
        match classify_overlap(o.0, o.1) {
            InLineString::INSIDE => {
                *self = QuadtreeNode::Leaf { bounds, visible: make_visible };
            },
            InLineString::OUTSIDE => {
                *self = QuadtreeNode::Leaf { bounds, visible: !make_visible };
            },
            InLineString::PARTIAL => {
                if self.to_internal().is_err() {
                    return;
                }
                proof {
                    Self::lemma_split_leaf(bounds, visible);
                    crate::fowrectangle::lemma_split_tiles(bounds);
                }
                match self {
                    QuadtreeNode::Internal { topleft, topright, bottomleft, bottomright } => {
                        topleft.create_tree(make_visible, measure);
                        topright.create_tree(make_visible, measure);
                        bottomleft.create_tree(make_visible, measure);
                        bottomright.create_tree(make_visible, measure);
                    },
                    QuadtreeNode::Leaf { .. } => {},
                }
            },
        }
    }

    /// A grown leaf over a valid rectangle is a well-formed tree over it.
    pub proof fn lemma_grown_leaf_wf<F: Fn(FoWRectangle) -> (u64, u64)>(
        t: QuadtreeNode,
        b: FoWRectangle,
        v: bool,
        make_visible: bool,
        measure: F,
    )
        requires
            b.valid(),
            Self::grown_leaf(t, b, v, make_visible, measure),
        ensures
            t.wf_over(b),
        decreases b.span_x() + b.span_y(),
    {
        let o = choose|o: (u64, u64)|
            #[trigger] measure.ensures((b,), o) && Self::grown_leaf_by(t, b, v, make_visible, measure, o);
        if class_of(o.0 as int, o.1 as int) == InLineString::PARTIAL && b.can_split() {
            crate::fowrectangle::lemma_split_tiles(b);
            if let QuadtreeNode::Internal { topleft, topright, bottomleft, bottomright } = t {
                Self::lemma_grown_leaf_wf(*topleft, b.quarters().0, v, make_visible, measure);
                Self::lemma_grown_leaf_wf(*topright, b.quarters().1, v, make_visible, measure);
                Self::lemma_grown_leaf_wf(*bottomleft, b.quarters().2, v, make_visible, measure);
                Self::lemma_grown_leaf_wf(*bottomright, b.quarters().3, v, make_visible, measure);
            }
        }
    }

    /// With a measure that answers each rectangle one way, the tree grown to
    /// hide a polygon and the tree grown to show it are each other's
    /// negation at every pixel.
    pub proof fn lemma_grown_complement<F: Fn(FoWRectangle) -> (u64, u64)>(
        t: QuadtreeNode,
        u: QuadtreeNode,
        b: FoWRectangle,
        v: bool,
        measure: F,
    )
        requires
            b.valid(),
            deterministic(measure),
            Self::grown_leaf(t, b, v, false, measure),
            Self::grown_leaf(u, b, !v, true, measure),
        ensures
            forall|x: int, y: int|
                b.contains_pixel(x, y) ==> #[trigger] u.visible_at(x, y) == !t.visible_at(x, y),
        decreases b.span_x() + b.span_y(),
    {
        let o = choose|o: (u64, u64)|
            #[trigger] measure.ensures((b,), o) && Self::grown_leaf_by(t, b, v, false, measure, o);
        let nv = !v;
        let o2 = choose|o: (u64, u64)|
            #[trigger] measure.ensures((b,), o) && Self::grown_leaf_by(u, b, nv, true, measure, o);
        assert(o == o2);
        if class_of(o.0 as int, o.1 as int) == InLineString::PARTIAL && b.can_split() {
            crate::fowrectangle::lemma_split_tiles(b);
            let q = b.quarters();
            if let (
                QuadtreeNode::Internal { topleft: a0, topright: a1, bottomleft: a2, bottomright: a3 },
                QuadtreeNode::Internal { topleft: c0, topright: c1, bottomleft: c2, bottomright: c3 },
            ) = (t, u) {
                Self::lemma_grown_complement(*a0, *c0, q.0, v, measure);
                Self::lemma_grown_complement(*a1, *c1, q.1, v, measure);
                Self::lemma_grown_complement(*a2, *c2, q.2, v, measure);
                Self::lemma_grown_complement(*a3, *c3, q.3, v, measure);
                Self::lemma_grown_leaf_wf(*a0, q.0, v, false, measure);
                Self::lemma_grown_leaf_wf(*a1, q.1, v, false, measure);
                Self::lemma_grown_leaf_wf(*a2, q.2, v, false, measure);
                Self::lemma_grown_leaf_wf(*a3, q.3, v, false, measure);
                Self::lemma_grown_leaf_wf(*c0, q.0, !v, true, measure);
                Self::lemma_grown_leaf_wf(*c1, q.1, !v, true, measure);
                Self::lemma_grown_leaf_wf(*c2, q.2, !v, true, measure);
                Self::lemma_grown_leaf_wf(*c3, q.3, !v, true, measure);
                a0.lemma_area(q.0);
                a1.lemma_area(q.1);
                a2.lemma_area(q.2);
                a3.lemma_area(q.3);
                c0.lemma_area(q.0);
                c1.lemma_area(q.1);
                c2.lemma_area(q.2);
                c3.lemma_area(q.3);
                assert forall|x: int, y: int|
                    b.contains_pixel(x, y) implies #[trigger] u.visible_at(x, y) == !t.visible_at(x, y) by {
                    if q.0.contains_pixel(x, y) {
                        assert(c0.visible_at(x, y) == !a0.visible_at(x, y));
                    } else if q.1.contains_pixel(x, y) {
                        assert(c1.visible_at(x, y) == !a1.visible_at(x, y));
                    } else if q.2.contains_pixel(x, y) {
                        assert(c2.visible_at(x, y) == !a2.visible_at(x, y));
                    } else {
                        assert(q.3.contains_pixel(x, y));
                        assert(c3.visible_at(x, y) == !a3.visible_at(x, y));
                    }
                }
            }
        }
    }

    /// The hidden rectangles of a tree cover exactly its hidden pixels.
    pub proof fn lemma_covers(self, b: FoWRectangle)
        requires
            self.wf_over(b),
        ensures
            forall|x: int, y: int|
                #[trigger] covers(self.hidden_rects(), x, y) <==> (b.contains_pixel(x, y)
                    && !self.visible_at(x, y)),
        decreases self,
    {
        match self {
            QuadtreeNode::Leaf { bounds, visible } => {
                assert forall|x: int, y: int|
                    #[trigger] covers(self.hidden_rects(), x, y) <==> (b.contains_pixel(x, y)
                        && !self.visible_at(x, y)) by {
                    if !visible && b.contains_pixel(x, y) {
                        assert(self.hidden_rects()[0] == bounds);
                    }
                }
            },
            QuadtreeNode::Internal { topleft, topright, bottomleft, bottomright } => {
                let q = b.quarters();
                crate::fowrectangle::lemma_split_tiles(b);
                topleft.lemma_covers(q.0);
                topright.lemma_covers(q.1);
                bottomleft.lemma_covers(q.2);
                bottomright.lemma_covers(q.3);
                topleft.lemma_area(q.0);
                topright.lemma_area(q.1);
                bottomleft.lemma_area(q.2);
                bottomright.lemma_area(q.3);
                let (h0, h1, h2, h3) = (
                    topleft.hidden_rects(),
                    topright.hidden_rects(),
                    bottomleft.hidden_rects(),
                    bottomright.hidden_rects(),
                );
                assert forall|x: int, y: int|
                    #[trigger] covers(self.hidden_rects(), x, y) <==> (b.contains_pixel(x, y)
                        && !self.visible_at(x, y)) by {
                    lemma_covers_concat(h0 + h1 + h2, h3, x, y);
                    lemma_covers_concat(h0 + h1, h2, x, y);
                    lemma_covers_concat(h0, h1, x, y);
                    assert(covers(h0, x, y) == (q.0.contains_pixel(x, y) && !topleft.visible_at(x, y)));
                    assert(covers(h1, x, y) == (q.1.contains_pixel(x, y) && !topright.visible_at(x, y)));
                    assert(covers(h2, x, y) == (q.2.contains_pixel(x, y) && !bottomleft.visible_at(x, y)));
                    assert(covers(h3, x, y) == (q.3.contains_pixel(x, y) && !bottomright.visible_at(x, y)));
                }
            },
        }
    }
}

} // verus!
