use pdfplumber::clustering::cluster_items;
use pdfplumber::float::Float;
use pdfplumber::geometry::bbox_from_points;
use pdfplumber::geometry::rect_to_edges;
use pdfplumber::geometry::snap_edges;
use pdfplumber::geometry::union_all;
use pdfplumber::order::sort_order;
use pdfplumber::transform::Transform;
use pdfplumber::types::BBox;
use pdfplumber::types::Edge;
use pdfplumber::types::Orientation;
use pdfplumber::types::Point;
use pdfplumber::types::RectObject;

fn f(v: f64) -> Float {
    Float { bits: v.to_bits() }
}

fn n(v: Float) -> f64 {
    f64::from_bits(v.bits)
}

fn bits(t: Transform) -> [u64; 6] {
    [t.m11.bits, t.m12.bits, t.m21.bits, t.m22.bits, t.m31.bits, t.m32.bits]
}

type Plane = euclid::Transform2D<f64, euclid::UnknownUnit, euclid::UnknownUnit>;

fn both(v: [f64; 6]) -> (Transform, Plane) {
    (
        Transform {
            m11: f(v[0]),
            m12: f(v[1]),
            m21: f(v[2]),
            m22: f(v[3]),
            m31: f(v[4]),
            m32: f(v[5]),
        },
        Plane::row_major(v[0], v[1], v[2], v[3], v[4], v[5]),
    )
}

fn plane_bits(t: Plane) -> [u64; 6] {
    [
        t.m11.to_bits(),
        t.m12.to_bits(),
        t.m21.to_bits(),
        t.m22.to_bits(),
        t.m31.to_bits(),
        t.m32.to_bits(),
    ]
}

#[test]
fn transforms_compute_what_euclid_computes() {
    let samples: [[f64; 6]; 5] = [
        [1.0, 0.0, 0.0, 1.0, 0.0, 0.0],
        [0.1, 0.2, -0.3, 0.7, 12.5, -3.3],
        [0.0, 1.0, -1.0, 0.0, 612.0, 0.0],
        [1.0e10, 3.0e-7, 2.2, -9.9, 0.1, 0.3],
        [-0.0, 5.5, 1.0 / 3.0, 2.0 / 3.0, 1.0e-5, 7.7],
    ];
    for a in samples {
        for b in samples {
            let (ours_a, theirs_a) = both(a);
            let (ours_b, theirs_b) = both(b);
            assert_eq!(
                bits(ours_a.post_transform(ours_b)),
                plane_bits(theirs_a.post_transform(&theirs_b))
            );
            assert_eq!(
                bits(ours_a.pre_transform(ours_b)),
                plane_bits(theirs_a.pre_transform(&theirs_b))
            );
            let p: Point = ours_a.transform_point(f(b[4]), f(b[5]));
            let q = theirs_a.transform_point(euclid::Point2D::new(b[4], b[5]));
            assert_eq!((p.x.bits, p.y.bits), (q.x.to_bits(), q.y.to_bits()));
        }
    }
    assert_eq!(bits(Transform::identity()), plane_bits(Plane::identity()));
    assert_eq!(
        bits(Transform::create_translation(f(3.5), f(-1.25))),
        plane_bits(Plane::create_translation(3.5, -1.25))
    );
}

#[test]
fn sorting_is_stable() {
    let keys: Vec<(i64, i64)> = vec![(2, 0), (1, 5), (2, 0), (1, 4), (1, 5)];
    assert_eq!(sort_order(&keys), vec![3, 1, 4, 0, 2]);
    assert_eq!(sort_order(&Vec::new()), Vec::<usize>::new());
}

#[test]
fn clusters_chain_neighbours() {
    let keys: Vec<Float> = [5.0, 1.0, 2.0, 9.0, 2.9, 6.1].iter().map(|v| f(*v)).collect();
    assert_eq!(cluster_items(&keys, f(1.0)), vec![vec![1, 2, 4], vec![0], vec![5], vec![3]]);
    assert_eq!(cluster_items(&keys, f(0.0)).len(), 6);
    assert_eq!(cluster_items(&Vec::new(), f(1.0)).len(), 0);
}

#[test]
fn equal_keys_share_a_cluster_without_tolerance() {
    let keys: Vec<Float> = [3.0, 1.0, 3.0, 1.0].iter().map(|v| f(*v)).collect();
    assert_eq!(cluster_items(&keys, f(0.0)), vec![vec![1, 3], vec![0, 2]]);
}

#[test]
fn the_box_around_points_holds_them() {
    let p = |x: f64, y: f64| Point { x: f(x), y: f(y) };
    let b: BBox = bbox_from_points(&vec![p(3.0, 9.0), p(-1.0, 4.0), p(2.0, 12.0)]).unwrap();
    assert_eq!((n(b.x0), n(b.top), n(b.x1), n(b.bottom)), (-1.0, 4.0, 3.0, 12.0));
    assert!(bbox_from_points(&Vec::new()).is_none());
    assert!(union_all(&Vec::new()).is_none());
}

#[test]
fn boxes_meet_where_they_have_more_than_a_point_in_common() {
    let b = |x0: f64, top: f64, x1: f64, bottom: f64| BBox::new(f(x0), f(top), f(x1), f(bottom));
    let a: BBox = b(0.0, 0.0, 10.0, 10.0);
    let c: BBox = a.overlap(b(5.0, 5.0, 20.0, 20.0)).unwrap();
    assert_eq!((n(c.x0), n(c.top), n(c.x1), n(c.bottom)), (5.0, 5.0, 10.0, 10.0));
    assert!(a.overlap(b(10.0, 0.0, 20.0, 10.0)).is_some());
    assert!(a.overlap(b(10.0, 10.0, 20.0, 20.0)).is_none());
    assert!(a.overlap(b(11.0, 0.0, 20.0, 10.0)).is_none());
    let turned: BBox = b(10.0, 20.0, 0.0, 5.0).normalized();
    assert_eq!((n(turned.x0), n(turned.top), n(turned.x1), n(turned.bottom)), (0.0, 5.0, 10.0, 20.0));
    assert_eq!((n(turned.width()), n(turned.height())), (10.0, 15.0));
}

#[test]
fn a_rectangle_has_four_edges() {
    let rect: RectObject = RectObject {
        object_type: "rect".to_string(),
        page_number: 1,
        x0: f(1.0),
        top: f(2.0),
        x1: f(11.0),
        bottom: f(22.0),
        y0: f(0.0),
        y1: f(0.0),
        doctop: f(2.0),
        width: f(10.0),
        height: f(20.0),
        pts: Vec::new(),
        path: Vec::new(),
        stroke: true,
        fill: true,
        linewidth: f(0.0),
    };
    let edges: Vec<Edge> = rect_to_edges(&rect);
    assert_eq!(edges.len(), 4);
    for e in &edges {
        assert_eq!(e.object_type, "rect_edge");
        match e.orientation {
            Orientation::Horizontal => assert_eq!((n(e.width), n(e.height)), (10.0, 0.0)),
            Orientation::Vertical => assert_eq!((n(e.width), n(e.height)), (0.0, 20.0)),
        }
    }
}

#[test]
fn near_edges_move_to_their_average() {
    let across = |y: f64| Edge {
        x0: f(0.0),
        top: f(y),
        x1: f(10.0),
        bottom: f(y),
        width: f(10.0),
        height: f(0.0),
        orientation: Orientation::Horizontal,
        object_type: "line".to_string(),
    };
    let snapped: Vec<Edge> = snap_edges(&vec![across(1.0), across(2.0), across(30.0)], f(3.0), f(3.0));
    assert_eq!(snapped.iter().map(|e| n(e.top)).collect::<Vec<_>>(), vec![1.5, 1.5, 30.0]);
    assert_eq!(snapped.iter().map(|e| n(e.bottom)).collect::<Vec<_>>(), vec![1.5, 1.5, 30.0]);
}
