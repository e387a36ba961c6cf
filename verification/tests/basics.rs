use gnarled::arith::{div_floor, div_round, isqrt};
use gnarled::attributes::{AttributeReverse, AttributeSVGLine};
use gnarled::n2::hl::{DefaultHasherRandField2D, RandomField2D, FIELD_RESOLUTION};
use gnarled::n2::point::p2;
use gnarled::n3::p3;
use gnarled::nbase::bounds::Bounds;
use gnarled::nbase::line_segment::LineSegment;
use gnarled::nbase::point::{bimap, Point, COORD_MAX, SPACE_MAX, UNIT};
use gnarled::nbase::polyline::PolyLine;
use gnarled::svg::{PolyLineProperties, PolyLineStroke};

#[test]
fn division_rounds_down_and_to_the_nearest() {
    assert_eq!(div_floor(7, 2), 3);
    assert_eq!(div_floor(-7, 2), -4);
    assert_eq!(div_floor(-8, 2), -4);
    assert_eq!(div_floor(0, 5), 0);
    assert_eq!(div_round(7, 2), 4);
    assert_eq!(div_round(-7, 2), -3);
    assert_eq!(div_round(5, 10), 1);
    assert_eq!(div_round(-5, 10), 0);
    assert_eq!(div_round(4, 10), 0);
    assert_eq!(div_round(-6, 10), -1);
}

#[test]
fn integer_square_root() {
    assert_eq!(isqrt(0), 0);
    assert_eq!(isqrt(1), 1);
    assert_eq!(isqrt(3), 1);
    assert_eq!(isqrt(4), 2);
    assert_eq!(isqrt(99), 9);
    assert_eq!(isqrt(100), 10);
    assert_eq!(isqrt(u128::MAX), (1u128 << 64) - 1);
    assert_eq!(isqrt(1u128 << 126), 1u128 << 63);
}

#[test]
fn grid_constants() {
    assert_eq!(UNIT, 10_000);
    assert_eq!(COORD_MAX, 1 << 28);
    assert_eq!(SPACE_MAX, 1 << 24);
}

#[test]
fn bimap_combines_position_by_position() {
    let a = [1i64, 2, 3];
    let b = [10i64, 20, 30];
    assert_eq!(bimap(&a, &b, |x: i64, y: i64| x + y), [11, 22, 33]);
    let flags = bimap(&a, &b, |x: i64, y: i64| 10 * x == y);
    assert_eq!(flags, [true, true, true]);
    let none: [i64; 0] = [];
    assert_eq!(bimap(&none, &none, |x: i64, y: i64| x * y), none);
    let p = Point::bimap(p2(1, 2), p2(3, 4), |x, y| x * y);
    assert_eq!(p.vs, [3, 8]);
}

#[test]
fn point_arithmetic() {
    assert_eq!(Point::<3>::zero().vs, [0, 0, 0]);
    assert_eq!(Point::from([4, 5]).vs, [4, 5]);
    assert_eq!(p2(3, -4).neg().vs, [-3, 4]);
    assert_eq!(p3(3, -4, 5).neg().vs, [-3, 4, -5]);
    assert_eq!(p2(3, -4).dot(p2(2, 5)), -14);
    assert_eq!(p3(1, 2, 3).dot(p3(4, 5, 6)), 32);
    assert_eq!(p2(3, -4).norm_squared(), 25);
    assert_eq!(p3(1, 2, 2).norm_squared(), 9);
    assert_eq!(p3(1, 0, 0).cross(p3(0, 1, 0)).vs, [0, 0, 1]);
    assert_eq!(p3(1, 2, 3).cross(p3(4, 5, 6)).vs, [-3, 6, -3]);
    assert_eq!(p2(3, -4).min(), -4);
    assert_eq!(p2(3, -4).max(), 3);
    assert_eq!(p3(3, -4, 9).min(), -4);
    assert_eq!(p3(3, -4, 9).max(), 9);
    assert_eq!(Point::componentwise_min(p3(1, 5, 3), p3(2, 4, 3)).vs, [1, 4, 3]);
    assert_eq!(Point::componentwise_max(p3(1, 5, 3), p3(2, 4, 3)).vs, [2, 5, 3]);
    assert!(p2(1, 2).same(&p2(1, 2)));
    assert!(!p2(1, 2).same(&p2(2, 1)));
    assert!(p2(COORD_MAX, -COORD_MAX).is_wf());
    assert!(!p2(COORD_MAX + 1, 0).is_wf());
    assert!(p3(SPACE_MAX, 0, -SPACE_MAX).is_wf());
    assert!(!p3(0, 0, SPACE_MAX + 1).is_wf());
}

#[test]
fn segment_halves_and_pieces() {
    let s = LineSegment::new(p2(0, 0), p2(7, -7));
    assert_eq!(s.len2(), 98);
    assert_eq!(s.midpoint().vs, [3, -4]);
    let (a, b) = s.split();
    assert_eq!((a.ps[0].vs, a.ps[1].vs), ([0, 0], [3, -4]));
    assert_eq!((b.ps[0].vs, b.ps[1].vs), ([3, -4], [7, -7]));
    assert_eq!(s.reverse().ps[0].vs, [7, -7]);
    let pieces = s.nsplit(3);
    let ends: Vec<[i64; 2]> = pieces.iter().map(|p| p.ps[1].vs).collect();
    assert_eq!(ends, vec![[2, -3], [4, -5], [7, -7]]);
    assert_eq!(pieces[0].ps[0].vs, [0, 0]);
    assert_eq!(s.along(1, 2).vs, [3, -4]);
    assert!(s.nsplit(0).is_empty());
    assert!(s.is_wf());
    let t = LineSegment::new(p3(0, 0, 0), p3(3, -8, 5));
    assert_eq!(t.len2(), 98);
    assert_eq!(t.extent(), 8);
    assert_eq!(t.midpoint().vs, [1, -4, 2]);
    let (a, b) = t.split();
    assert_eq!(a.extent(), 4);
    assert_eq!(b.extent(), 4);
    assert!(t.is_wf());
}

#[test]
fn polyline_links_and_reverse() {
    let pl = PolyLine { ps: vec![p2(0, 0), p2(1, 0), p2(1, 1)] };
    let links = pl.line_segments();
    assert_eq!(links.len(), 2);
    assert_eq!((links[1].ps[0].vs, links[1].ps[1].vs), ([1, 0], [1, 1]));
    let back = pl.reverse();
    assert_eq!(back.ps.iter().map(|p| p.vs).collect::<Vec<_>>(), vec![[1, 1], [1, 0], [0, 0]]);
    assert_eq!(pl.clone().ps.len(), 3);
    assert!(PolyLine::<2> { ps: vec![p2(0, 0)] }.line_segments().is_empty());
    assert!(PolyLine::<2> { ps: vec![] }.line_segments().is_empty());
    let pl3 = PolyLine { ps: vec![p3(0, 0, 0), p3(1, 0, 0), p3(1, 1, 1), p3(2, 2, 2)] };
    assert_eq!(pl3.line_segments().len(), 3);
}

#[test]
fn bounds_contain_and_grow() {
    let b = Bounds { min: p2(0, 0), max: p2(10, 20) };
    assert!(b.contains(p2(0, 20)));
    assert!(!b.contains(p2(11, 20)));
    let g = b.expand_by(5);
    assert_eq!((g.min.vs, g.max.vs), ([-5, -5], [15, 25]));
    let b = Bounds { min: p3(0, 0, 0), max: p3(10, 20, 30) };
    assert!(b.contains(p3(10, 0, 30)));
    assert!(!b.contains(p3(10, 0, 31)));
    let g = b.expand_by(-1);
    assert_eq!((g.min.vs, g.max.vs), ([1, 1, 1], [9, 19, 29]));
}

#[test]
fn strokes_have_names() {
    assert_eq!(PolyLineStroke::Black.name(), "black");
    assert_eq!(PolyLineStroke::Red.name(), "red");
    assert_eq!(PolyLineStroke::Green.name(), "green");
    assert!(matches!(PolyLineStroke::default(), PolyLineStroke::Black));
    assert!(matches!(PolyLineProperties::default().stroke, PolyLineStroke::Black));
    assert_eq!(().line_attributes(), "stroke=\"black\"");
    assert_eq!(().reverse(), ());
}

#[test]
fn hashed_field_is_a_function_of_the_point() {
    let field = DefaultHasherRandField2D {};
    let a = field.at(p2(12, 34));
    assert!(a < FIELD_RESOLUTION);
    assert_eq!(a, field.at(p2(12, 34)));
    assert_eq!(FIELD_RESOLUTION, 4096);
    let mut seen = std::collections::HashSet::new();
    for x in 0..64 {
        for y in 0..64 {
            let v = field.at(p2(x, y));
            assert!(v < FIELD_RESOLUTION);
            seen.insert(v);
        }
    }
    assert!(seen.len() > 1_000);
}
