use gnarled::n2::point::p2;
use gnarled::n3::shape::{AABox, Shape};
use gnarled::n3::{p3, Camera, CameraBuilder, Scene};
use gnarled::nbase::bounds::Bounds;
use gnarled::nbase::line_merger::{
    MegaMerger, DEFAULT_DIRECTION_SCALE, DEFAULT_OFFSET_SCALE,
};
use gnarled::nbase::line_segment::LineSegment;
use gnarled::nbase::polyline::PolyLine;

fn camera(canvas: i64) -> Camera {
    CameraBuilder::builder()
        .canvas(0, 0, canvas, canvas)
        .eye(0, 0, -1_000)
        .fwd(0, 0, 100)
        .right(100, 0, 0)
        .up(0, 100, 0)
        .create()
        .unwrap()
}

fn block(min: (i64, i64, i64), max: (i64, i64, i64)) -> Shape {
    Shape::AABox(AABox { bounds: Bounds { min: p3(min.0, min.1, min.2), max: p3(max.0, max.1, max.2) } })
}

fn seg(x0: i64, y0: i64, x1: i64, y1: i64) -> LineSegment<2> {
    LineSegment::new(p2(x0, y0), p2(x1, y1))
}

fn links(out: &[PolyLine<2>]) -> Vec<[i64; 4]> {
    let mut all = Vec::new();
    for pl in out.iter() {
        for w in pl.ps.windows(2) {
            all.push([w[0].vs[0], w[0].vs[1], w[1].vs[0], w[1].vs[1]]);
        }
    }
    all
}

/// The length of what the links cover of the vertical line at `x`, counting
/// twice what two links cover.
fn drawn_on_vertical(all: &[[i64; 4]], x: i64) -> i64 {
    all.iter().filter(|l| l[0] == x && l[2] == x).map(|l| (l[3] - l[1]).abs()).sum()
}

fn two_boxes() -> Scene {
    let mut scene = Scene::new();
    scene.add_primitive(block((-300, -100, 0), (-100, 100, 200)));
    scene.add_primitive(block((-100, -100, 0), (100, 100, 200)));
    scene
}

#[test]
fn pipeline_has_the_default_scales() {
    assert_eq!(DEFAULT_DIRECTION_SCALE, 600);
    assert_eq!(DEFAULT_OFFSET_SCALE, 20);
    let m = MegaMerger::new();
    assert_eq!(m.binning_merger.core.n_scale, 600);
    assert_eq!(m.binning_merger.core.p_scale, 20);
}

#[test]
fn shared_edge_of_two_boxes_is_drawn_once() {
    let raw = two_boxes().render(&camera(8_000_000));
    let raw_links: Vec<[i64; 4]> =
        raw.iter().map(|s| [s.ps[0].vs[0], s.ps[0].vs[1], s.ps[1].vs[0], s.ps[1].vs[1]]).collect();
    // The renderer draws the shared edge once for either box.
    assert_eq!(drawn_on_vertical(&raw_links, 3_600_000), 2 * 800_000);
    let out = MegaMerger::new().run(&raw);
    let all = links(&out);
    assert_eq!(drawn_on_vertical(&all, 3_600_000), 800_000);
    // The outer edges are drawn once as they were.
    assert_eq!(drawn_on_vertical(&all, 2_800_000), 800_000);
    assert_eq!(drawn_on_vertical(&all, 4_400_000), 800_000);
    // No stroke is left twice, in either direction.
    for (i, a) in all.iter().enumerate() {
        for b in all.iter().skip(i + 1) {
            assert_ne!(a, b);
            assert_ne!(*a, [b[2], b[3], b[0], b[1]]);
        }
    }
    assert!(all.len() < raw.len());
}

#[test]
fn shared_edge_of_two_boxes_is_drawn_once_on_a_small_canvas() {
    let raw = two_boxes().render(&camera(20_000));
    assert_eq!(raw.len(), 16);
    let raw_links: Vec<[i64; 4]> =
        raw.iter().map(|s| [s.ps[0].vs[0], s.ps[0].vs[1], s.ps[1].vs[0], s.ps[1].vs[1]]).collect();
    assert_eq!(drawn_on_vertical(&raw_links, 9_000), 2 * 2_000);
    let out = MegaMerger::new().run(&raw);
    assert_eq!(drawn_on_vertical(&links(&out), 9_000), 2_000);
}

#[test]
fn edge_in_the_plane_of_the_eye_is_not_hidden() {
    // The face that the two boxes share lies in a plane through the eye. A
    // ray from its far edge to the eye runs within that plane, inside
    // neither box, so the far edge is drawn as well as the near one.
    let mut scene = Scene::new();
    scene.add_primitive(block((-200, -100, 0), (0, 100, 200)));
    scene.add_primitive(block((0, -100, 0), (200, 100, 200)));
    let raw = scene.render(&camera(20_000));
    assert_eq!(raw.len(), 22);
    let out = MegaMerger::new().run(&raw);
    let all = links(&out);
    // The near and the far edge have the same image but for their length;
    // what is left is the longer stroke, once.
    assert_eq!(drawn_on_vertical(&all, 10_000), 2_000);
}

#[test]
fn pipeline_joins_deduplicates_and_chains() {
    let input = vec![
        // A square drawn in pieces, one side twice and once backwards.
        seg(0, 0, 50_000, 0),
        seg(50_000, 0, 100_000, 0),
        seg(100_000, 0, 100_000, 100_000),
        seg(100_000, 100_000, 0, 100_000),
        seg(0, 100_000, 0, 0),
        seg(0, 0, 0, 100_000),
        seg(100_000, 0, 0, 0),
    ];
    let out = MegaMerger::new().run(&input);
    let all = links(&out);
    assert_eq!(all.len(), 4);
    assert_eq!(out.len(), 1);
    assert_eq!(out[0].ps.len(), 5);
    assert!(out[0].ps[0].same(&out[0].ps[4]));
}

#[test]
fn pipeline_of_nothing_gives_nothing() {
    assert!(MegaMerger::new().run(&Vec::new()).is_empty());
}

#[test]
fn scene_of_many_solids_runs_through() {
    let unit = 256;
    let camera = CameraBuilder::builder()
        .canvas(0, 0, 8_000_000, 8_000_000)
        .eye(15 * unit, 15 * unit, 15 * unit)
        .fwd(-unit, -unit, -unit)
        .right(unit, 0, 0)
        .up(0, 0, unit)
        .create()
        .unwrap();
    assert!(camera.is_wf());
    let mut scene = Scene::new();
    for iy in -2..=2 {
        for ix in -2..=2 {
            let (x0, y0) = (3 * ix * unit, 3 * iy * unit);
            scene.add_primitive(block((x0 - unit, y0 - unit, -unit), (x0 + unit, y0 + unit, unit)));
        }
    }
    scene.add_primitive(Shape::Sphere(gnarled::n3::shape::Sphere {
        center: p3(6 * unit, -6 * unit, 0),
        radius: 3 * unit,
    }));
    for iz in 0..8 {
        let z0 = iz * unit;
        scene.add_primitive(block((-unit / 2, -unit / 2, z0 - unit / 4), (unit / 2, unit / 2, z0 + unit / 4)));
    }
    let raw = scene.render(&camera);
    assert!(raw.len() > 1_000);
    for s in raw.iter() {
        assert!(s.is_wf());
        let dx = (s.ps[1].vs[0] - s.ps[0].vs[0]) as i128;
        let dy = (s.ps[1].vs[1] - s.ps[0].vs[1]) as i128;
        assert!(dx * dx + dy * dy <= camera.lmax as i128);
    }
    let out = MegaMerger::new().run(&raw);
    let all = links(&out);
    assert!(!all.is_empty());
    assert!(all.len() < raw.len() / 4);
    assert!(out.len() <= all.len());
}
