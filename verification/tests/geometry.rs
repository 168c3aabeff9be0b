use euclid::default::Box2D;
use euclid::point2;
use webrender_surface::geometry::{
    DeviceIntPoint, DeviceIntRect, DeviceIntSize, Point, Rect,
};
use webrender_surface::scalar::Scalar;
use webrender_surface::spatial::{
    CoordinateSpaceMapping, ScaleOffset, SpaceMapper, SpatialNodeIndex, SpatialTree,
};

fn scalar(v: f32) -> Scalar {
    Scalar::from_bits(v.to_bits())
}

fn point(x: f32, y: f32) -> Point {
    Point { x: scalar(x), y: scalar(y) }
}

fn rect(x0: f32, y0: f32, x1: f32, y1: f32) -> Rect {
    Rect { min: point(x0, y0), max: point(x1, y1) }
}

fn boxed(r: &Rect) -> Box2D<f32> {
    let f = |s: Scalar| f32::from_bits(s.bits);
    Box2D::new(point2(f(r.min.x), f(r.min.y)), point2(f(r.max.x), f(r.max.y)))
}

fn sample_rects() -> Vec<Rect> {
    let n = f32::NAN;
    vec![
        rect(0.0, 0.0, 10.0, 10.0),
        rect(5.0, 5.0, 15.0, 15.0),
        rect(10.0, 0.0, 20.0, 10.0),
        rect(2.0, 3.0, 4.0, 5.0),
        rect(-5.0, -5.0, 0.0, 0.0),
        rect(0.0, 0.0, 0.0, 0.0),
        rect(-0.0, -0.0, 0.0, 10.0),
        rect(3.0, 3.0, 3.0, 8.0),
        rect(8.0, 8.0, 2.0, 2.0),
        rect(n, 0.0, 10.0, 10.0),
        rect(0.0, 0.0, 10.0, n),
        rect(f32::NEG_INFINITY, f32::NEG_INFINITY, f32::INFINITY, f32::INFINITY),
        rect(f32::MIN, f32::MIN, f32::MAX, f32::MAX),
        rect(1.0e-45, -1.0e-45, 1.0e-44, 1.0e-44),
    ]
}

#[test]
fn scalars_order_like_floats() {
    let values = [
        0.0f32,
        -0.0,
        1.0,
        -1.0,
        0.5,
        100.0,
        -100.0,
        f32::MIN,
        f32::MAX,
        f32::MIN_POSITIVE,
        -f32::MIN_POSITIVE,
        f32::INFINITY,
        f32::NEG_INFINITY,
        f32::NAN,
        1.0e-45,
        -1.0e-45,
    ];
    for a in values.iter() {
        for b in values.iter() {
            let x = scalar(*a);
            let y = scalar(*b);
            assert_eq!(x.lt(y), a < b, "{} < {}", a, b);
            assert_eq!(x.le(y), a <= b, "{} <= {}", a, b);
            let least = if a <= b { a } else { b };
            let most = if a >= b { a } else { b };
            assert_eq!(x.min(y).bits, least.to_bits());
            assert_eq!(x.max(y).bits, most.to_bits());
        }
        assert_eq!(scalar(*a).is_nan(), a.is_nan());
    }
}

#[test]
fn zero_and_one_are_those_of_floats() {
    assert_eq!(Scalar::zero(), scalar(0.0));
    assert_eq!(Scalar::one(), scalar(1.0));
}

#[test]
fn rectangles_compare_like_euclid_boxes() {
    let rects = sample_rects();
    for a in rects.iter() {
        let x = boxed(a);
        assert_eq!(a.is_empty(), x.is_empty(), "{:?}", x);
        for b in rects.iter() {
            let y = boxed(b);
            assert_eq!(a.intersects(b), x.intersects(&y), "{:?} {:?}", x, y);
            assert_eq!(a.contains_box(b), x.contains_box(&y), "{:?} {:?}", x, y);
        }
    }
}

#[test]
fn rectangles_intersect_like_euclid_boxes() {
    let rects = sample_rects();
    for a in rects.iter() {
        for b in rects.iter() {
            let ours = a.intersection(b).map(|r| boxed(&r));
            assert_eq!(ours, boxed(a).intersection(&boxed(b)));
        }
    }
}

#[test]
fn the_whole_plane_spans_half_the_finite_range() {
    let plane = boxed(&Rect::max_rect());
    assert_eq!(plane.min, point2(f32::MIN / 2.0, f32::MIN / 2.0));
    assert_eq!(plane.max, point2(f32::MAX / 2.0, f32::MAX / 2.0));
    assert!(!Rect::max_rect().is_empty());
    assert_eq!(Rect::zero(), rect(0.0, 0.0, 0.0, 0.0));
}

#[test]
fn whole_pixel_rectangles_have_a_size() {
    let r = DeviceIntRect {
        min: DeviceIntPoint { x: -3, y: 4 },
        max: DeviceIntPoint { x: 7, y: 10 },
    };
    assert_eq!(r.size(), DeviceIntSize { width: 10, height: 6 });
    assert!(!r.is_empty());
    let flat = DeviceIntRect { min: r.min, max: DeviceIntPoint { x: 7, y: 4 } };
    assert!(flat.is_empty());
    assert_eq!(flat.size(), DeviceIntSize { width: 10, height: 0 });
}

#[test]
fn the_latest_relation_between_two_nodes_counts() {
    let root = SpatialNodeIndex(0);
    let scroll = SpatialNodeIndex(3);
    let mut tree = SpatialTree::new(root);
    assert_eq!(tree.root_reference_frame_index(), root);
    tree.set_relative_transform(root, scroll, CoordinateSpaceMapping::Local);
    assert_eq!(tree.get_relative_transform(root, scroll), CoordinateSpaceMapping::Local);
    let moved = ScaleOffset { offset_y: scalar(-20.0), ..ScaleOffset::identity() };
    tree.set_relative_transform(scroll, root, CoordinateSpaceMapping::Transform);
    tree.set_relative_transform(root, scroll, CoordinateSpaceMapping::ScaleOffset(moved));
    assert_eq!(
        tree.get_relative_transform(root, scroll),
        CoordinateSpaceMapping::ScaleOffset(moved),
    );
    assert_eq!(tree.get_relative_transform(scroll, root), CoordinateSpaceMapping::Transform);
}

#[test]
fn a_mapper_keeps_its_node_and_bounds() {
    let bounds = rect(1.0, 2.0, 3.0, 4.0);
    let mapper = SpaceMapper::new(SpatialNodeIndex(9), bounds);
    assert_eq!(mapper.ref_spatial_node_index, SpatialNodeIndex(9));
    assert_eq!(mapper.bounds, bounds);
}
