use vtt_rust::errors::RustVttError;
use vtt_rust::fowrectangle::FoWRectangle;
use vtt_rust::quadtreenode::{classify_overlap, InLineString, QuadtreeNode};
use vtt_rust::vtt::PixelCoordinate;

fn rect(x0: i32, y0: i32, x1: i32, y1: i32) -> FoWRectangle {
    FoWRectangle::new(PixelCoordinate::new(x0, y0), PixelCoordinate::new(x1, y1))
}

/// Overlap of a rectangle with the half plane of columns below `edge`, in pixels.
fn left_of(edge: i32) -> impl Fn(FoWRectangle) -> (u64, u64) {
    move |r: FoWRectangle| {
        let w = (r.bottomright.x - r.topleft.x + 1) as u64;
        let h = (r.bottomright.y - r.topleft.y + 1) as u64;
        let inside_cols = if edge <= r.topleft.x {
            0
        } else if edge > r.bottomright.x {
            w
        } else {
            (edge - r.topleft.x) as u64
        };
        (inside_cols * h, w * h)
    }
}

fn hidden(node: &QuadtreeNode) -> Vec<FoWRectangle> {
    let mut v = Vec::new();
    node.populate_rectangle_vec(&mut v);
    v
}

fn count(node: &QuadtreeNode) -> usize {
    let mut c: usize = 0;
    node.hidden_children(&mut c);
    c
}

#[test]
fn classify_boundary_values() {
    assert_eq!(classify_overlap(99995, 100000), InLineString::INSIDE);
    assert_eq!(classify_overlap(5, 100000), InLineString::OUTSIDE);
    assert_eq!(classify_overlap(50000, 100000), InLineString::PARTIAL);
}

#[test]
fn classify_exact_thresholds_are_partial() {
    assert_eq!(classify_overlap(9999, 10000), InLineString::PARTIAL);
    assert_eq!(classify_overlap(1, 10000), InLineString::PARTIAL);
    assert_eq!(classify_overlap(10000, 10000), InLineString::INSIDE);
    assert_eq!(classify_overlap(0, 10000), InLineString::OUTSIDE);
}

#[test]
fn to_internal_splits_leaf() {
    let mut node = QuadtreeNode::from_bounds(rect(0, 0, 10, 10), false);
    assert!(node.to_internal().is_ok());
    assert_eq!(count(&node), 4);
    assert_eq!(
        hidden(&node),
        vec![rect(0, 0, 5, 5), rect(6, 0, 10, 5), rect(0, 6, 5, 10), rect(6, 6, 10, 10)]
    );
    assert_eq!(node.get_area(), rect(0, 0, 10, 10));
}

#[test]
fn to_internal_refuses_small_leaf() {
    let mut node = QuadtreeNode::from_bounds(rect(0, 0, 2, 9), true);
    match node.to_internal() {
        Err(RustVttError::MinimumRectangle { rectangle }) => assert_eq!(rectangle, rect(0, 0, 2, 9)),
        other => panic!("Expected MinimumRectangle error, got {:?}", other),
    }
    assert_eq!(node.visible().ok(), Some(true));
}

#[test]
fn visible_of_internal_node_is_an_error() {
    let mut node = QuadtreeNode::from_bounds(rect(0, 0, 10, 10), true);
    node.to_internal().expect("split should succeed");
    assert!(matches!(node.visible(), Err(RustVttError::InvalidInput)));
}

#[test]
fn create_tree_follows_polygon() {
    let mut tree = QuadtreeNode::from_bounds(rect(0, 0, 15, 15), true);
    tree.create_tree(false, &left_of(8));
    assert_eq!(hidden(&tree), vec![rect(0, 0, 7, 7), rect(0, 8, 7, 15)]);
}

#[test]
fn create_tree_inside_and_outside() {
    let mut tree = QuadtreeNode::from_bounds(rect(0, 0, 15, 15), true);
    tree.create_tree(false, &left_of(100));
    assert_eq!(hidden(&tree), vec![rect(0, 0, 15, 15)]);
    let mut tree = QuadtreeNode::from_bounds(rect(0, 0, 15, 15), false);
    tree.create_tree(false, &left_of(0));
    assert_eq!(hidden(&tree), Vec::<FoWRectangle>::new());
}

#[test]
fn conceal_and_show_merge() {
    let mut base = QuadtreeNode::from_bounds(rect(0, 0, 15, 15), true);
    let mut fog = QuadtreeNode::from_bounds(rect(0, 0, 15, 15), true);
    fog.create_tree(false, &left_of(8));
    base.conceal(&fog);
    base.clean();
    assert_eq!(count(&base), 2);
    assert_eq!(hidden(&base), vec![rect(0, 0, 7, 7), rect(0, 8, 7, 15)]);

    let mut light = QuadtreeNode::from_bounds(rect(0, 0, 15, 15), false);
    light.create_tree(true, &left_of(8));
    base.show(&light);
    base.clean();
    assert_eq!(count(&base), 0);
    assert_eq!(base.visible().ok(), Some(true));
}

#[test]
fn clean_merges_equal_children() {
    let mut node = QuadtreeNode::from_bounds(rect(0, 0, 10, 10), false);
    node.to_internal().expect("split should succeed");
    node.clean();
    assert_eq!(node.visible().ok(), Some(false));
    assert_eq!(hidden(&node), vec![rect(0, 0, 10, 10)]);
}

#[test]
fn hidden_children_adds_to_count() {
    let mut node = QuadtreeNode::from_bounds(rect(0, 0, 10, 10), false);
    node.to_internal().expect("split should succeed");
    let mut c: usize = 3;
    node.hidden_children(&mut c);
    assert_eq!(c, 7);
}

#[test]
fn conceal_with_hidden_leaf_gives_one_hidden_leaf() {
    let mut node = QuadtreeNode::from_bounds(rect(0, 0, 10, 10), true);
    let other = QuadtreeNode::from_bounds(rect(0, 0, 10, 10), false);
    node.conceal(&other);
    assert_eq!(node.visible().ok(), Some(false));
    assert_eq!(count(&node), 1);
}

#[test]
fn show_with_visible_leaf_gives_one_visible_leaf() {
    let mut node = QuadtreeNode::from_bounds(rect(0, 0, 10, 10), false);
    node.to_internal().expect("split should succeed");
    let other = QuadtreeNode::from_bounds(rect(0, 0, 10, 10), true);
    node.show(&other);
    assert_eq!(node.visible().ok(), Some(true));
    assert_eq!(count(&node), 0);
}
