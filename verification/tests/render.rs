use gnarled::n3::shape::{AABox, Shape, Sphere};
use gnarled::n3::{
    create_occlusion_info, p3, render_paths, render_segments, Camera, CameraBuilder, Scene,
    Verdict,
};
use gnarled::nbase::bounds::Bounds;
use gnarled::nbase::line_segment::LineSegment;

fn camera(canvas: i64) -> Camera {
    CameraBuilder::builder()
        .canvas(0, 0, canvas, canvas)
        .eye(0, 0, -1_000)
        .fwd(0, 0, 100)
        .right(100, 0, 0)
        .up(0, 100, 0)
        .create()
        .unwrap()
}

fn block(min: (i64, i64, i64), max: (i64, i64, i64)) -> Shape {
    Shape::AABox(AABox { bounds: Bounds { min: p3(min.0, min.1, min.2), max: p3(max.0, max.1, max.2) } })
}

fn seg3(a: (i64, i64, i64), b: (i64, i64, i64)) -> LineSegment<3> {
    LineSegment::new(p3(a.0, a.1, a.2), p3(b.0, b.1, b.2))
}

fn flat(out: &[LineSegment<2>]) -> Vec<[i64; 4]> {
    out.iter().map(|s| [s.ps[0].vs[0], s.ps[0].vs[1], s.ps[1].vs[0], s.ps[1].vs[1]]).collect()
}

#[test]
fn box_seen_from_the_front() {
    let mut scene = Scene::new();
    scene.add_primitive(block((-100, -100, 0), (100, 100, 200)));
    let out = scene.render(&camera(20_000));
    // The four edges of the near face, and of each edge that runs into the
    // depth the stub that is too short to be split; nothing of the far face.
    assert_eq!(
        flat(&out),
        vec![
            [9_000, 11_000, 9_166, 10_833],
            [9_000, 11_000, 9_000, 9_000],
            [9_000, 11_000, 11_000, 11_000],
            [9_000, 9_000, 9_166, 9_166],
            [9_000, 9_000, 11_000, 9_000],
            [11_000, 11_000, 10_833, 10_833],
            [11_000, 11_000, 11_000, 9_000],
            [11_000, 9_000, 10_833, 9_166],
        ]
    );
}

#[test]
fn shape_renders_as_the_scene_does() {
    let solid = block((-100, -100, 0), (100, 100, 200));
    let solids = vec![solid];
    let c = camera(20_000);
    let info = create_occlusion_info(&c, &solids);
    let mut scene = Scene::new();
    scene.add_primitive(solid);
    let whole = flat(&scene.render(&c));
    assert_eq!(flat(&solid.render(&c, &info)), whole);
    match solid {
        Shape::AABox(b) => assert_eq!(flat(&b.render(&c, &info)), whole),
        Shape::Sphere(_) => unreachable!(),
    }
    let mut out = Vec::new();
    render_paths(&c, &info, &solid.paths(), &mut out);
    assert_eq!(flat(&out), whole);
}

#[test]
fn box_hidden_by_another_is_not_drawn() {
    let mut scene = Scene::new();
    scene.add_primitive(block((-100, -100, 0), (100, 100, 200)));
    scene.add_primitive(block((-50, -50, 300), (50, 50, 400)));
    let out = scene.render(&camera(20_000));
    assert_eq!(out.len(), 8);
    let mut alone = Scene::new();
    alone.add_primitive(block((-50, -50, 300), (50, 50, 400)));
    assert_eq!(alone.render(&camera(20_000)).len(), 8);
}

#[test]
fn nothing_behind_the_near_plane_is_drawn() {
    let c = camera(20_000);
    let mut scene = Scene::new();
    // Wholly between the eye and the near plane, and wholly behind the eye.
    scene.add_primitive(block((-10, -10, -990), (10, 10, -910)));
    scene.add_primitive(block((-100, -100, -3_000), (100, 100, -2_000)));
    assert!(scene.render(&c).is_empty());
    let solids: Vec<Shape> = Vec::new();
    let info = create_occlusion_info(&c, &solids);
    let mut out = Vec::new();
    render_segments(&c, &info, vec![seg3((0, 0, -950), (5, 5, -901))], &mut out);
    assert!(out.is_empty());
    let (what, image) = c.classify(&info, &seg3((0, 0, -950), (5, 5, -901)));
    assert!(matches!(what, Verdict::Discard));
    assert!(image.is_none());
}

#[test]
fn edge_that_leaves_the_view_through_the_near_plane_is_cut() {
    let c = camera(20_000);
    let solids: Vec<Shape> = Vec::new();
    let info = create_occlusion_info(&c, &solids);
    let mut out = Vec::new();
    // From depth 2 to behind the eye, along the axis of the view.
    render_segments(&c, &info, vec![seg3((10, 0, -800), (10, 0, -1_200))], &mut out);
    assert!(!out.is_empty());
    // The pieces follow one another from the far end, and stop at the near
    // plane, where the depth is one and the image is a tenth from the middle.
    for w in out.windows(2) {
        assert_eq!(w[0].ps[1].vs, w[1].ps[0].vs);
    }
    assert_eq!(out[0].ps[0].vs, [10_500, 10_000]);
    let last = out.last().unwrap().ps[1].vs;
    assert_eq!(last[1], 10_000);
    assert!(10_900 <= last[0]);
}

#[test]
fn segments_of_a_stack_are_taken_from_the_top() {
    let c = camera(20_000);
    let solids: Vec<Shape> = Vec::new();
    let info = create_occlusion_info(&c, &solids);
    let mut out = vec![LineSegment::new(gnarled::n2::point::p2(1, 2), gnarled::n2::point::p2(3, 4))];
    let a = seg3((-100, 0, 0), (0, 0, 0));
    let b = seg3((0, 0, 0), (100, 0, 0));
    render_segments(&c, &info, vec![a, b], &mut out);
    assert_eq!(
        flat(&out),
        vec![[1, 2, 3, 4], [10_000, 10_000, 11_000, 10_000], [9_000, 10_000, 10_000, 10_000]]
    );
}

#[test]
fn long_edges_are_split_before_they_are_tested() {
    let mut scene = Scene::new();
    scene.add_primitive(block((-100, -100, 0), (100, 100, 200)));
    let c = camera(8_000_000);
    let out = scene.render(&c);
    assert!(out.len() > 8);
    for s in out.iter() {
        let dx = (s.ps[1].vs[0] - s.ps[0].vs[0]) as i128;
        let dy = (s.ps[1].vs[1] - s.ps[0].vs[1]) as i128;
        assert!(dx * dx + dy * dy <= c.lmax as i128);
    }
    // The near face is drawn in full: its outline is 4 times 800000 long.
    let outline: i64 = out
        .iter()
        .filter(|s| {
            let on_x = |v: i64| v == 3_600_000 || v == 4_400_000;
            (s.ps[0].vs[0] == s.ps[1].vs[0] && on_x(s.ps[0].vs[0]))
                || (s.ps[0].vs[1] == s.ps[1].vs[1] && on_x(s.ps[0].vs[1]))
        })
        .map(|s| (s.ps[1].vs[0] - s.ps[0].vs[0]).abs() + (s.ps[1].vs[1] - s.ps[0].vs[1]).abs())
        .sum();
    assert_eq!(outline, 4 * 800_000);
}

#[test]
fn thresholds_decide_how_far_an_edge_is_split() {
    let mut scene = Scene::new();
    scene.add_primitive(block((-100, -100, 0), (100, 100, 200)));
    let mut c = camera(20_000);
    // The edges of the near face are 2000 long; with this threshold they are
    // halved once.
    c.lmax = 3_999_999;
    assert_eq!(scene.render(&c).len(), 12);
    c.lmax = 4_000_000;
    assert_eq!(scene.render(&c).len(), 8);
    // With this threshold every stub is split until it is shorter, or spans
    // less than two grid steps.
    c.lmin = 100;
    let out = scene.render(&c);
    assert!(out.len() >= 8);
    let stubs: Vec<&LineSegment<2>> =
        out.iter().filter(|s| s.ps[0].vs[0] != s.ps[1].vs[0] && s.ps[0].vs[1] != s.ps[1].vs[1]).collect();
    for s in stubs.iter() {
        let dx = s.ps[1].vs[0] - s.ps[0].vs[0];
        let dy = s.ps[1].vs[1] - s.ps[0].vs[1];
        assert!(dx * dx + dy * dy <= 100);
    }
}

#[test]
fn ball_is_drawn() {
    let mut scene = Scene::new();
    scene.add_primitive(Shape::Sphere(Sphere { center: p3(0, 0, 500), radius: 200 }));
    let c = camera(8_000_000);
    let out = scene.render(&c);
    assert!(!out.is_empty());
    // Everything lies within the outline of the ball on the canvas.
    for s in out.iter() {
        for p in s.ps.iter() {
            let dx = (p.vs[0] - 4_000_000) as i128;
            let dy = (p.vs[1] - 4_000_000) as i128;
            assert!(dx * dx + dy * dy <= 600_000i128 * 600_000);
        }
    }
}

#[test]
fn empty_scene_draws_nothing() {
    assert!(Scene::new().render(&camera(20_000)).is_empty());
}

#[test]
fn every_stroke_is_the_image_of_a_piece_got_by_halving_an_edge() {
    let solid = block((-100, -100, 0), (100, 100, 200));
    let solids = vec![solid];
    let c = camera(8_000_000);
    let info = create_occlusion_info(&c, &solids);
    let edges: Vec<LineSegment<3>> =
        solid.paths().iter().flat_map(|p| p.line_segments()).collect();
    // All pieces that halving can give, down to the grid.
    let mut parts: Vec<LineSegment<3>> = Vec::new();
    let mut stack = edges;
    while let Some(s) = stack.pop() {
        parts.push(s);
        if s.extent() >= 2 {
            let (a, b) = s.split();
            stack.push(a);
            stack.push(b);
        }
    }
    let images: std::collections::HashSet<[i64; 4]> = parts
        .iter()
        .filter(|s| matches!(c.classify(&info, s).0, Verdict::Emit))
        .filter_map(|s| c.project(s))
        .map(|s| [s.ps[0].vs[0], s.ps[0].vs[1], s.ps[1].vs[0], s.ps[1].vs[1]])
        .collect();
    for stroke in flat(&solid.render(&c, &info)) {
        assert!(images.contains(&stroke));
    }
}
