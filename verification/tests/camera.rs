use gnarled::n3::shape::{AABox, Shape, Sphere};
use gnarled::n3::{
    create_culling_info, create_occlusion_info, p3, Camera, CameraBuilder, CameraBuilderError,
    DEFAULT_LMAX, DEFAULT_LMIN,
};
use gnarled::nbase::bounds::Bounds;
use gnarled::nbase::line_segment::LineSegment;
use gnarled::nbase::point::UNIT;

fn straight_camera() -> Camera {
    CameraBuilder::builder()
        .canvas(0, 0, 8_000_000, 8_000_000)
        .eye(0, 0, 0)
        .fwd(0, 0, 100)
        .right(100, 0, 0)
        .up(0, 100, 0)
        .create()
        .unwrap()
}

fn seg3(a: (i64, i64, i64), b: (i64, i64, i64)) -> LineSegment<3> {
    LineSegment::new(p3(a.0, a.1, a.2), p3(b.0, b.1, b.2))
}

fn missing(b: CameraBuilder) -> Vec<String> {
    match b.create() {
        Err(CameraBuilderError::MissingFields(names)) => names,
        Ok(_) => panic!("a camera was built"),
    }
}

#[test]
fn builder_names_every_missing_field() {
    assert_eq!(missing(CameraBuilder::builder()), vec!["canvas", "eye", "fwd", "right", "up"]);
    assert_eq!(
        missing(CameraBuilder::builder().eye(1, 2, 3)),
        vec!["canvas", "fwd", "right", "up"]
    );
    assert_eq!(
        missing(CameraBuilder::builder().canvas(0, 0, 1, 1).up(0, 0, 1).fwd(1, 0, 0)),
        vec!["eye", "right"]
    );
    assert_eq!(
        missing(
            CameraBuilder::builder().canvas(0, 0, 1, 1).eye(0, 0, 0).fwd(1, 0, 0).right(0, 1, 0)
        ),
        vec!["up"]
    );
}

#[test]
fn builder_builds_what_it_was_given() {
    let camera = CameraBuilder::builder()
        .canvas(1, 2, 3, 4)
        .eye(5, 6, 7)
        .fwd(8, 9, 10)
        .right(11, 12, 13)
        .up(14, 15, 16)
        .create()
        .unwrap();
    assert_eq!(camera.canvas.min.vs, [1, 2]);
    assert_eq!(camera.canvas.max.vs, [3, 4]);
    assert_eq!(camera.eye.vs, [5, 6, 7]);
    assert_eq!(camera.fwd.vs, [8, 9, 10]);
    assert_eq!(camera.right.vs, [11, 12, 13]);
    assert_eq!(camera.up.vs, [14, 15, 16]);
    assert_eq!(camera.lmax, DEFAULT_LMAX);
    assert_eq!(camera.lmin, DEFAULT_LMIN);
    assert_eq!(DEFAULT_LMAX, 2 * UNIT * UNIT);
    assert_eq!(5 * DEFAULT_LMIN, UNIT * UNIT);
}

#[test]
fn builder_keeps_the_last_value_and_leaves_the_original_alone() {
    let first = CameraBuilder::builder().eye(1, 1, 1);
    let second = first.eye(2, 2, 2);
    assert_eq!(first.eye.unwrap().vs, [1, 1, 1]);
    assert_eq!(second.eye.unwrap().vs, [2, 2, 2]);
}

#[test]
fn camera_validity() {
    assert!(straight_camera().is_wf());
    let mut c = straight_camera();
    c.fwd = p3(0, 0, 0);
    assert!(!c.is_wf());
    let mut c = straight_camera();
    c.up = p3(0, 0, 7);
    assert!(!c.is_wf());
    let mut c = straight_camera();
    c.right = p3(0, 5, 5);
    assert!(!c.is_wf());
    let mut c = straight_camera();
    c.right = p3(1_025, 0, 0);
    assert!(!c.is_wf());
    let mut c = straight_camera();
    c.right = p3(-1_024, 1_024, 1_024);
    assert!(c.is_wf());
    let mut c = straight_camera();
    c.lmin = -1;
    assert!(!c.is_wf());
    let mut c = straight_camera();
    c.eye = p3(0, 0, 1 << 25);
    assert!(!c.is_wf());
}

#[test]
fn camera_coordinates_of_a_point() {
    let c = straight_camera().to_camera_coordinates(&p3(50, 20, 200));
    // Across a quarter, up a tenth, at depth two.
    assert_eq!(4 * c.xn, c.xd);
    assert_eq!(10 * c.yn, c.yd);
    assert_eq!(c.zn, 2 * c.zd);
    assert_eq!((c.xn, c.xd), (50_000_000_000_000, 200_000_000_000_000));
    assert_eq!((c.yn, c.yd), (200_000_000_000, 2_000_000_000_000));
    assert_eq!((c.zn, c.zd), (20_000, 10_000));
}

#[test]
fn camera_corrects_vectors_that_are_not_at_right_angles() {
    let straight = straight_camera();
    let mut skewed = straight_camera();
    skewed.up = p3(0, 100, 50);
    skewed.right = p3(100, 30, 20);
    assert!(skewed.is_wf());
    for p in [p3(50, 20, 200), p3(-700, 33, 150), p3(9, -9_000, 41), p3(5, 5, -300)] {
        let a = straight.to_camera_coordinates(&p);
        let b = skewed.to_camera_coordinates(&p);
        assert_eq!(a.xn * b.xd, b.xn * a.xd);
        assert_eq!(a.yn * b.yd, b.yn * a.yd);
        assert_eq!(a.zn * b.zd, b.zn * a.zd);
    }
}

#[test]
fn camera_with_its_right_on_the_left_still_has_positive_denominators() {
    let mut c = straight_camera();
    c.right = p3(-100, 0, 0);
    let p = c.to_camera_coordinates(&p3(50, 20, 200));
    assert!(p.xd > 0);
    assert_eq!(-4 * p.xn, p.xd);
}

#[test]
fn point_lands_on_the_canvas() {
    let c = straight_camera();
    let q = c.project_pt(&p3(50, 20, 200)).unwrap();
    assert_eq!(q.vs, [5_000_000, 3_600_000]);
    // The middle of the view is the middle of the canvas.
    assert_eq!(c.project_pt(&p3(0, 0, 100)).unwrap().vs, [4_000_000, 4_000_000]);
    // The corners of the view are the corners of the canvas; up is towards
    // smaller y.
    assert_eq!(c.project_pt(&p3(-300, 300, 300)).unwrap().vs, [0, 0]);
    assert_eq!(c.project_pt(&p3(300, -300, 300)).unwrap().vs, [8_000_000, 8_000_000]);
    // Rounded down to the grid.
    assert_eq!(c.project_pt(&p3(1, -1, 300)).unwrap().vs, [4_013_333, 4_013_333]);
    assert_eq!(c.project_pt(&p3(-1, 1, 300)).unwrap().vs, [3_986_666, 3_986_666]);
}

#[test]
fn point_at_or_behind_the_eye_lands_nowhere() {
    let c = straight_camera();
    assert!(c.project_pt(&p3(5, 5, 0)).is_none());
    assert!(c.project_pt(&p3(5, 5, -100)).is_none());
    assert!(c.project_pt(&p3(0, 0, 0)).is_none());
    assert!(c.project_pt(&p3(5, 5, 1)).is_some());
}

#[test]
fn point_beyond_the_coordinate_range_lands_nowhere() {
    let c = straight_camera();
    assert!(c.project_pt(&p3(1_000_000, 0, 1)).is_none());
    assert!(c.project_pt(&p3(0, -1_000_000, 1)).is_none());
}

#[test]
fn example_camera_looks_down_the_diagonal() {
    let c = CameraBuilder::builder()
        .canvas(0, 0, 8_000_000, 8_000_000)
        .eye(3_840, 3_840, 3_840)
        .fwd(-256, -256, -256)
        .right(256, 0, 0)
        .up(0, 0, 256)
        .create()
        .unwrap();
    assert!(c.is_wf());
    assert_eq!(c.project_pt(&p3(0, 0, 0)).unwrap().vs, [4_000_000, 4_000_000]);
    assert_eq!(c.project_pt(&p3(256, 256, 256)).unwrap().vs, [4_000_000, 4_000_000]);
    assert_eq!(c.project_pt(&p3(-256, 256, 0)).unwrap().vs, [3_466_666, 4_000_000]);
    assert_eq!(c.project_pt(&p3(256, -256, 256)).unwrap().vs, [4_545_454, 3_727_272]);
    let p = c.to_camera_coordinates(&p3(0, 0, 0));
    assert_eq!(p.zn, 15 * p.zd);
}

#[test]
fn segment_behind_the_near_plane_is_not_visible() {
    let c = straight_camera();
    assert!(!c.is_segment_visible(&seg3((0, 0, 50), (10, 10, 99))));
    assert!(!c.is_segment_visible(&seg3((0, 0, -50), (10, 10, 0))));
    // One end at the near plane is enough.
    assert!(c.is_segment_visible(&seg3((0, 0, 50), (10, 10, 100))));
}

#[test]
fn segment_with_an_end_in_view_is_visible() {
    let c = straight_camera();
    assert!(c.is_segment_visible(&seg3((0, 0, 200), (5_000, 0, 200))));
    assert!(c.is_segment_visible(&seg3((5_000, 0, 200), (200, -200, 200))));
    // An end behind the near plane counts if it is within the view.
    assert!(c.is_segment_visible(&seg3((10, 10, 50), (5_000, 0, 200))));
}

#[test]
fn segment_beyond_one_side_of_the_view_is_not_visible() {
    let c = straight_camera();
    assert!(!c.is_segment_visible(&seg3((-300, 0, 200), (-201, 900, 200))));
    assert!(!c.is_segment_visible(&seg3((300, 0, 200), (201, -900, 200))));
    assert!(!c.is_segment_visible(&seg3((0, -300, 200), (900, -201, 200))));
    assert!(!c.is_segment_visible(&seg3((0, 300, 200), (-900, 201, 200))));
}

#[test]
fn segment_that_may_cross_the_view_is_visible() {
    let c = straight_camera();
    // From the left of the view to the right of it.
    assert!(c.is_segment_visible(&seg3((-300, 0, 200), (300, 0, 200))));
    // From the left of the view to above it, passing the corner outside.
    assert!(c.is_segment_visible(&seg3((-900, 0, 200), (0, 900, 200))));
    // One end at depth zero lies on no side.
    assert!(c.is_segment_visible(&seg3((-900, 0, 0), (-900, 0, 200))));
}

#[test]
fn segment_lands_on_the_canvas() {
    let c = straight_camera();
    let s = c.project(&seg3((50, 20, 200), (0, 0, 100))).unwrap();
    assert_eq!(s.ps[0].vs, [5_000_000, 3_600_000]);
    assert_eq!(s.ps[1].vs, [4_000_000, 4_000_000]);
    assert!(c.project(&seg3((50, 20, 200), (0, 0, 0))).is_none());
    assert!(c.project(&seg3((50, 20, -1), (0, 0, 100))).is_none());
}

#[test]
fn point_is_hidden_by_a_solid_between_it_and_the_eye() {
    let c = straight_camera();
    let solids = vec![
        Shape::AABox(AABox { bounds: Bounds { min: p3(-100, -100, 400), max: p3(100, 100, 600) } }),
        Shape::Sphere(Sphere { center: p3(1_000, 0, 500), radius: 100 }),
    ];
    let info = create_occlusion_info(&c, &solids);
    assert!(info.is_occluded(&p3(0, 0, 1_000)));
    assert!(info.is_occluded(&p3(2_000, 0, 1_000)));
    assert!(!info.is_occluded(&p3(500, 0, 500)));
    assert!(!info.is_occluded(&p3(0, 0, 300)));
    // A point on the near face of the box is not hidden by the box; a point
    // on its far face is.
    assert!(!info.is_occluded(&p3(50, 50, 400)));
    assert!(info.is_occluded(&p3(50, 50, 600)));
    // Nothing hides anything in an empty scene.
    let nothing: Vec<Shape> = Vec::new();
    assert!(!create_occlusion_info(&c, &nothing).is_occluded(&p3(0, 0, 1_000)));
    let _ = create_culling_info(&c);
}

#[test]
fn corrected_frame_is_at_right_angles() {
    let (f, up) = ([-256i64, -256, -256], [0i64, 0, 256]);
    let dot = |a: [i64; 3], b: [i64; 3]| a[0] * b[0] + a[1] * b[1] + a[2] * b[2];
    let ff = dot(f, f);
    let uf = dot(up, f);
    let u = [up[0] * ff - f[0] * uf, up[1] * ff - f[1] * uf, up[2] * ff - f[2] * uf];
    let w = p3(u[0], u[1], u[2]).cross(p3(f[0], f[1], f[2])).vs;
    assert_eq!(dot(u, f), 0);
    assert_eq!(dot(w, f), 0);
    assert_eq!(dot(w, u), 0);
    // The coordinates put a point together again: with the camera at the
    // origin, d = (d.W / W.W) W + (d.U / U.U) U + (d.f / f.f) f.
    let d = [37i64, -11, 5];
    let (uu, ww) = (dot(u, u) as i128, dot(w, w) as i128);
    let (dw, du, df) = (dot(d, w) as i128, dot(d, u) as i128, dot(d, f) as i128);
    for k in 0..3 {
        let whole = uu * ww * ff as i128 * d[k] as i128;
        let parts = dw * uu * ff as i128 * w[k] as i128
            + du * ww * ff as i128 * u[k] as i128
            + df * uu * ww * f[k] as i128;
        assert_eq!(whole, parts);
    }
}
