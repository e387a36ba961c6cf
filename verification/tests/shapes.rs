use gnarled::n3::p3;
use gnarled::n3::shape::{AABox, Hit, Ray, Shape, Sphere};
use gnarled::nbase::bounds::Bounds;

fn cube() -> AABox {
    AABox { bounds: Bounds { min: p3(0, 0, 0), max: p3(10_000, 10_000, 10_000) } }
}

fn ray(o: (i64, i64, i64), d: (i64, i64, i64)) -> Ray {
    Ray { origin: p3(o.0, o.1, o.2), direction: p3(d.0, d.1, d.2) }
}

fn parts(h: Option<Hit>) -> Option<(i128, i128)> {
    h.map(|h| (h.num, h.den))
}

#[test]
fn box_is_hit_where_the_ray_enters() {
    let hit = cube().intersect(&ray((-10_000, 5_000, 5_000), (20_000, 0, 0)));
    assert_eq!(parts(hit), Some((10_000, 20_000)));
    let hit = cube().intersect(&ray((-5_000, -5_000, -5_000), (10_000, 10_000, 10_000)));
    assert_eq!(parts(hit), Some((5_000, 10_000)));
    let hit = cube().intersect(&ray((20_000, 5_000, 5_000), (-20_000, 0, 0)));
    assert_eq!(parts(hit), Some((10_000, 20_000)));
    // The latest of the three entries counts.
    let hit = cube().intersect(&ray((-10_000, -10_000, 5_000), (40_000, 30_000, 0)));
    assert_eq!(parts(hit), Some((10_000, 30_000)));
    // A ray through an edge of the box is inside for no time at all.
    assert!(cube().intersect(&ray((-10_000, -10_000, 5_000), (40_000, 20_000, 0))).is_none());
}

#[test]
fn box_is_missed() {
    assert!(cube().intersect(&ray((-10_000, 15_000, 5_000), (20_000, 0, 0))).is_none());
    assert!(cube().intersect(&ray((-10_000, 0, 5_000), (10_000, 30_000, 0))).is_none());
    // The box lies behind the ray.
    assert!(cube().intersect(&ray((20_000, 5_000, 5_000), (20_000, 0, 0))).is_none());
}

#[test]
fn ray_from_inside_the_box_hits_where_it_leaves() {
    let hit = cube().intersect(&ray((5_000, 5_000, 5_000), (10_000, 0, 0)));
    assert_eq!(parts(hit), Some((5_000, 10_000)));
    let hit = cube().intersect(&ray((0, 5_000, 5_000), (10_000, 0, 0)));
    assert_eq!(parts(hit), Some((10_000, 10_000)));
}

#[test]
fn ray_that_leaves_the_box_at_its_origin_hits_nothing() {
    assert!(cube().intersect(&ray((10_000, 5_000, 5_000), (10_000, 0, 0))).is_none());
    assert!(cube().intersect(&ray((10_000, 10_000, 10_000), (1, 1, 1))).is_none());
}

#[test]
fn box_smallest_parameter_is_a_thousandth() {
    let hit = cube().intersect(&ray((-10, 5_000, 5_000), (10_000, 0, 0)));
    assert_eq!(parts(hit), Some((10, 10_000)));
    let hit = cube().intersect(&ray((-9, 5_000, 5_000), (10_000, 0, 0)));
    assert_eq!(parts(hit), Some((10_009, 10_000)));
    // The ray leaves the box exactly at a thousandth: that does not count.
    assert!(cube().intersect(&ray((9_990, 5_000, 5_000), (10_000, 0, 0))).is_none());
    let hit = cube().intersect(&ray((9_989, 5_000, 5_000), (10_000, 0, 0)));
    assert_eq!(parts(hit), Some((11, 10_000)));
}

#[test]
fn ray_without_direction() {
    let hit = cube().intersect(&ray((5_000, 5_000, 5_000), (0, 0, 0)));
    assert_eq!(parts(hit), Some((1, 0)));
    assert!(cube().intersect(&ray((-5, 5_000, 5_000), (0, 0, 0))).is_none());
    assert!(cube().intersect(&ray((0, 5_000, 5_000), (0, 0, 0))).is_none());
}

#[test]
fn ray_along_a_face_of_the_box_hits_nothing() {
    assert!(cube().intersect(&ray((-5_000, 0, 5_000), (20_000, 0, 0))).is_none());
    assert!(cube().intersect(&ray((-5_000, 10_000, 5_000), (20_000, 0, 0))).is_none());
    let hit = cube().intersect(&ray((-5_000, 1, 5_000), (20_000, 0, 0)));
    assert_eq!(parts(hit), Some((5_000, 20_000)));
}

#[test]
fn box_contains_and_bounds() {
    let b = cube();
    assert!(b.contains(p3(0, 0, 0), 0));
    assert!(b.contains(p3(10_000, 5, 5), 0));
    assert!(!b.contains(p3(10_001, 5, 5), 0));
    assert!(b.contains(p3(10_001, -1, 5), 1));
    assert!(!b.contains(p3(5, 5, 5_000), -5_000));
    assert!(b.bounds().min.same(&p3(0, 0, 0)));
    assert!(b.bounds().max.same(&p3(10_000, 10_000, 10_000)));
    b.compile();
}

#[test]
fn box_has_twelve_edges() {
    let b = AABox { bounds: Bounds { min: p3(1, 2, 3), max: p3(4, 5, 6) } };
    let paths = b.paths();
    let got: Vec<Vec<[i64; 3]>> =
        paths.iter().map(|pl| pl.ps.iter().map(|p| p.vs).collect()).collect();
    assert_eq!(
        got,
        vec![
            vec![[1, 2, 3], [1, 2, 6]],
            vec![[1, 2, 3], [1, 5, 3]],
            vec![[1, 2, 3], [4, 2, 3]],
            vec![[1, 2, 6], [1, 5, 6]],
            vec![[1, 2, 6], [4, 2, 6]],
            vec![[1, 5, 3], [1, 5, 6]],
            vec![[1, 5, 3], [4, 5, 3]],
            vec![[1, 5, 6], [4, 5, 6]],
            vec![[4, 2, 3], [4, 2, 6]],
            vec![[4, 2, 3], [4, 5, 3]],
            vec![[4, 2, 6], [4, 5, 6]],
            vec![[4, 5, 3], [4, 5, 6]],
        ]
    );
}

fn ball() -> Sphere {
    Sphere { center: p3(0, 0, 0), radius: 1_000 }
}

#[test]
fn ball_is_hit_on_its_shrunk_surface() {
    // The radius tested against is 995; the ray meets it at 2.005.
    let hit = ball().intersect(&ray((-3_000, 0, 0), (1_000, 0, 0)));
    assert_eq!(parts(hit), Some((2_005_000_000, 1_000_000_000)));
}

#[test]
fn ball_is_missed() {
    assert!(ball().intersect(&ray((-3_000, 2_000, 0), (1_000, 0, 0))).is_none());
    // The ball lies behind the ray.
    assert!(ball().intersect(&ray((3_000, 0, 0), (1_000, 0, 0))).is_none());
    // A ray without direction meets nothing, not even from inside.
    assert!(ball().intersect(&ray((0, 0, 0), (0, 0, 0))).is_none());
}

#[test]
fn ray_that_grazes_the_ball_misses_it() {
    assert!(ball().intersect(&ray((-3_000, 995, 0), (1_000, 0, 0))).is_some());
    assert!(ball().intersect(&ray((-3_000, 996, 0), (1_000, 0, 0))).is_none());
    assert!(ball().intersect(&ray((-3_000, 1_000, 0), (1_000, 0, 0))).is_none());
}

#[test]
fn ray_from_inside_the_ball_hits_the_far_side() {
    let hit = ball().intersect(&ray((0, 0, 0), (1_000, 0, 0)));
    assert_eq!(parts(hit), Some((995_000_000, 1_000_000_000)));
}

#[test]
fn ball_parameter_has_the_root_rounded_down() {
    // The root of the discriminant, in thousandths, is 1407142494.5.
    let hit = ball().intersect(&ray((-1_000, -1_000, 0), (1_000, 1_000, 0)));
    assert_eq!(parts(hit), Some((2_000_000_000 - 1_407_142_494, 2_000_000_000)));
}

#[test]
fn ball_contains_and_bounds() {
    let s = Sphere { center: p3(100, 200, 300), radius: 50 };
    assert!(s.contains(p3(100, 200, 349), 0));
    assert!(!s.contains(p3(100, 200, 350), 0));
    assert!(s.contains(p3(130, 240, 300), 0) == false);
    assert!(s.contains(p3(129, 240, 300), 0));
    assert!(!s.contains(p3(100, 200, 340), 10));
    assert!(s.contains(p3(100, 200, 339), 10));
    assert!(s.bounds().min.same(&p3(50, 150, 250)));
    assert!(s.bounds().max.same(&p3(150, 250, 350)));
    s.compile();
}

#[test]
fn ball_has_twenty_rings_of_eighty_segments() {
    let s = Sphere { center: p3(10_000, 20_000, 30_000), radius: 1_000 };
    let paths = s.paths();
    assert_eq!(paths.len(), 20);
    for ring in paths.iter() {
        assert_eq!(ring.ps.len(), 81);
        assert!(ring.ps[0].same(&ring.ps[80]));
        let z = ring.ps[0].vs[2];
        assert!(ring.ps.iter().all(|p| p.vs[2] == z));
    }
    // The lowest ring lies 950 below the centre and has radius 312.
    let low = &paths[0];
    assert_eq!(low.ps[0].vs, [10_312, 20_000, 29_050]);
    assert_eq!(low.ps[10].vs, [10_221, 20_221, 29_050]);
    assert_eq!(low.ps[20].vs, [10_000, 20_312, 29_050]);
    assert_eq!(low.ps[40].vs, [9_688, 20_000, 29_050]);
    assert_eq!(low.ps[60].vs, [10_000, 19_688, 29_050]);
    // The rings next to the equator lie 50 below and above the centre.
    assert_eq!(paths[9].ps[0].vs, [10_998, 20_000, 29_950]);
    assert_eq!(paths[10].ps[0].vs, [10_998, 20_000, 30_050]);
    assert_eq!(paths[19].ps[0].vs, [10_312, 20_000, 30_950]);
    // Every point lies on the ball, give or take the rounding.
    for ring in paths.iter() {
        for p in ring.ps.iter() {
            let (dx, dy, dz) = (p.vs[0] - 10_000, p.vs[1] - 20_000, p.vs[2] - 30_000);
            let d2 = dx * dx + dy * dy + dz * dz;
            assert!(996 * 996 <= d2 && d2 <= 1_002 * 1_002);
        }
    }
}

#[test]
fn shape_passes_everything_on() {
    let b = Shape::AABox(cube());
    let s = Shape::Sphere(ball());
    let r = ray((-3_000, 500, 500), (1_000, 0, 0));
    assert_eq!(parts(b.intersect(&r)), Some((3_000, 1_000)));
    assert!(s.intersect(&r).is_some());
    assert_eq!(b.paths().len(), 12);
    assert_eq!(s.paths().len(), 20);
    assert!(b.contains(p3(1, 1, 1), 0));
    assert!(s.contains(p3(1, 1, 1), 0));
    assert!(b.bounds().max.same(&p3(10_000, 10_000, 10_000)));
    assert!(s.bounds().max.same(&p3(1_000, 1_000, 1_000)));
    b.compile();
    s.compile();
}

#[test]
fn ball_smallest_parameter_is_a_thousandth() {
    // The ray leaves the shrunk ball, of radius 995, after one unit of its
    // direction, which is a thousandth of the direction given.
    let exact = ball().intersect(&ray((994, 0, 0), (1_000, 0, 0)));
    assert_eq!(parts(exact), Some((1_000_000, 1_000_000_000)));
    // Short of a thousandth the far side does not count.
    assert!(ball().intersect(&ray((994, 0, 0), (1_001, 0, 0))).is_none());
    assert!(ball().intersect(&ray((994, 0, 0), (999, 0, 0))).is_some());
}
