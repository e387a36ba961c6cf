//! The scene, the camera, and the rendering of the visible parts of the
//! wireframes.
pub mod shape;

use crate::arith::div_floor;
use crate::n3::shape::{shape_intersect, shape_paths, AABox, Ray, Shape, Sphere};
use crate::nbase::bounds::Bounds;
use crate::nbase::line_segment::{LineSegment, Seg2, Seg3};
use crate::nbase::point::{lemma_dot3_bound, lemma_mul_bound, Point, COORD_MAX, V2, V3};
use crate::nbase::polyline::{links3, segments2_view, segments3_view, PolyLine};
use vstd::prelude::*;

verus! {

/// Largest magnitude of a component of the three vectors that give a camera
/// its orientation.
pub const FRAME_MAX: i64 = 1024;

/// Squared length on the canvas, in squared grid steps, above which a
/// segment is split before it is tested for occlusion: two squared drawing
/// units.
pub const DEFAULT_LMAX: i64 = 200_000_000;

/// Squared length on the canvas, in squared grid steps, down to which a
/// segment that straddles the boundary of an occlusion is split: a fifth of
/// a squared drawing unit.
pub const DEFAULT_LMIN: i64 = 20_000_000;

/// The point with the given coordinates.
pub fn p3(x: i64, y: i64, z: i64) -> (p: Point<3>)
    ensures
        p@ == (V3 { x: x as int, y: y as int, z: z as int }),
{
    Point { vs: [x, y, z] }
}

/// A camera: where it stands, how it is turned, and the rectangle of the
/// plane that it draws on.
///
/// The three vectors need not be at right angles: `fwd` is taken as it is,
/// `up` is corrected to be at right angles to `fwd`, and `right` to be at
/// right angles to both. The length of `fwd` is the distance of the near
/// plane; the lengths of the corrected `right` and `up` are the half width
/// and half height of the view at that distance.
#[derive(Clone, Copy, Debug)]
pub struct Camera {
    pub canvas: Bounds<2>,
    pub eye: Point<3>,
    pub fwd: Point<3>,
    pub right: Point<3>,
    pub up: Point<3>,
    pub lmax: i64,
    pub lmin: i64,
}

/// The vector `up` with its part along `f` removed, scaled by the squared
/// length of `f` so that it stays whole.
pub open spec fn frame_up(f: V3, up: V3) -> V3 {
    up.scale(f.norm2()).sub(f.scale(up.dot(f)))
}

/// A vector at right angles to both `f` and the corrected `up`.
pub open spec fn frame_side(f: V3, up: V3) -> V3 {
    frame_up(f, up).cross(f)
}

/// A point as the camera sees it, as three fractions: across `xn / xd` and
/// up `yn / yd`, each from -1 to 1 within the view, and the depth `zn / zd`
/// in units of the distance of the near plane.
pub struct CameraCoordinates {
    pub xn: int,
    pub xd: int,
    pub yn: int,
    pub yd: int,
    pub zn: int,
    pub zd: int,
}

/// The same, in machine integers.
#[derive(Clone, Copy, Debug)]
pub struct CameraPoint {
    pub xn: i128,
    pub xd: i128,
    pub yn: i128,
    pub yd: i128,
    pub zn: i128,
    pub zd: i128,
}

impl View for CameraPoint {
    type V = CameraCoordinates;

    open spec fn view(&self) -> CameraCoordinates {
        CameraCoordinates {
            xn: self.xn as int,
            xd: self.xd as int,
            yn: self.yn as int,
            yd: self.yd as int,
            zn: self.zn as int,
            zd: self.zd as int,
        }
    }
}

/// The point `p` as a camera at `eye` with the given orientation sees it.
///
/// With `d` the point relative to the eye, `U` the corrected `up` and `W` the
/// vector at right angles to `fwd` and `U`, the coordinates of `d` in the
/// corrected frame are `d.W / right.W`, `d.U / up.U` and `d.f / f.f`; the
/// first two are divided by the third. The denominator of the first is made
/// positive for points in front of the eye, whichever way `right` points.
pub open spec fn camera_coordinates(eye: V3, f: V3, right: V3, up: V3, p: V3) -> CameraCoordinates {
    let d = p.sub(eye);
    let u = frame_up(f, up);
    let w = frame_side(f, up);
    let rw = right.dot(w);
    CameraCoordinates {
        xn: if rw < 0 {
            -(d.dot(w) * f.norm2())
        } else {
            d.dot(w) * f.norm2()
        },
        xd: if rw < 0 {
            -rw * d.dot(f)
        } else {
            rw * d.dot(f)
        },
        yn: d.dot(u) * f.norm2(),
        yd: u.dot(up) * d.dot(f),
        zn: d.dot(f),
        zd: f.norm2(),
    }
}

impl CameraCoordinates {
    /// The depth is less than one: the point is nearer than the near plane.
    pub open spec fn too_near(self) -> bool {
        self.zn < self.zd
    }

    /// The point lies within the view: both fractions are between -1 and 1.
    /// A point at depth zero lies nowhere.
    pub open spec fn in_view(self) -> bool {
        &&& self.zn != 0
        &&& -crate::arith::abs(self.xd) <= self.xn <= crate::arith::abs(self.xd)
        &&& -crate::arith::abs(self.yd) <= self.yn <= crate::arith::abs(self.yd)
    }

    /// The point lies left of the view: across is less than -1.
    pub open spec fn left_of_view(self) -> bool {
        (self.xd > 0 && self.xn < -self.xd) || (self.xd < 0 && self.xn > -self.xd)
    }

    /// The point lies right of the view: across is more than 1.
    pub open spec fn right_of_view(self) -> bool {
        (self.xd > 0 && self.xn > self.xd) || (self.xd < 0 && self.xn < self.xd)
    }

    /// The point lies below the view: up is less than -1.
    pub open spec fn below_view(self) -> bool {
        (self.yd > 0 && self.yn < -self.yd) || (self.yd < 0 && self.yn > -self.yd)
    }

    /// The point lies above the view: up is more than 1.
    pub open spec fn above_view(self) -> bool {
        (self.yd > 0 && self.yn > self.yd) || (self.yd < 0 && self.yn < self.yd)
    }
}

/// Whether a segment between two points, as the camera sees them, may be in
/// the view.
///
/// It is not if both ends are nearer than the near plane. It is if either
/// end is within the view. It is not if both ends lie beyond the same side
/// of the view. Everything else is taken to be in the view: the test may
/// let through what is out of view, never drop what is in it.
pub open spec fn segment_visible(c1: CameraCoordinates, c2: CameraCoordinates) -> bool {
    if c1.too_near() && c2.too_near() {
        false
    } else if c1.in_view() || c2.in_view() {
        true
    } else if c1.left_of_view() && c2.left_of_view() {
        false
    } else if c1.right_of_view() && c2.right_of_view() {
        false
    } else if c1.below_view() && c2.below_view() {
        false
    } else if c1.above_view() && c2.above_view() {
        false
    } else {
        true
    }
}

/// Where a point that the camera sees lands on the canvas, rounded down to
/// the grid; nothing for a point at or behind the eye, and nothing for a
/// point that lands outside the coordinate range of the plane.
///
/// Across runs from the left edge of the canvas at -1 to the right edge at
/// 1; up runs from the bottom edge, which has the largest `y`, at -1 to the
/// top edge at 1.
pub open spec fn canvas_point(canvas: Bounds<2>, c: CameraCoordinates) -> Option<V2> {
    let lo = canvas.min@;
    let hi = canvas.max@;
    let x = ((lo.x + hi.x) * c.xd + c.xn * (hi.x - lo.x)) / (2 * c.xd);
    let y = ((lo.y + hi.y) * c.yd - c.yn * (hi.y - lo.y)) / (2 * c.yd);
    if c.zn <= 0 || c.xd <= 0 || c.yd <= 0 {
        None
    } else if (V2 { x, y }).within(COORD_MAX as int) {
        Some(V2 { x, y })
    } else {
        None
    }
}

impl Camera {
    /// The point as this camera sees it.
    pub open spec fn sees(self, p: V3) -> CameraCoordinates {
        camera_coordinates(self.eye@, self.fwd@, self.right@, self.up@, p)
    }

    /// The three vectors are short enough, the eye and the canvas are
    /// well-formed, the thresholds are not negative, and the three vectors
    /// span space: `fwd` is not zero, `up` does not lie along `fwd`, and
    /// `right` does not lie in the plane of the two.
    pub open spec fn wf(self) -> bool {
        &&& self.fwd@.within(FRAME_MAX as int)
        &&& self.right@.within(FRAME_MAX as int)
        &&& self.up@.within(FRAME_MAX as int)
        &&& self.eye.wf()
        &&& self.canvas.wf()
        &&& 0 <= self.lmax
        &&& 0 <= self.lmin
        &&& self.fwd@.norm2() > 0
        &&& frame_up(self.fwd@, self.up@).dot(self.up@) > 0
        &&& self.right@.dot(frame_side(self.fwd@, self.up@)) != 0
    }

    /// Whether the segment may be in the view.
    pub open spec fn visible(self, s: Seg3) -> bool {
        segment_visible(self.sees(s.a), self.sees(s.b))
    }

    /// Where the point lands on the canvas.
    pub open spec fn projected_point(self, p: V3) -> Option<V2> {
        canvas_point(self.canvas, self.sees(p))
    }

    /// Where the segment lands on the canvas: where its two ends land, if
    /// both land.
    pub open spec fn projected(self, s: Seg3) -> Option<Seg2> {
        match (self.projected_point(s.a), self.projected_point(s.b)) {
            (Some(a), Some(b)) => Some(Seg2 { a, b }),
            _ => None,
        }
    }
}

/// The frame of three short vectors is made of numbers of moderate size.
pub proof fn lemma_frame_bounds(f: V3, right: V3, up: V3)
    requires
        f.within(FRAME_MAX as int),
        right.within(FRAME_MAX as int),
        up.within(FRAME_MAX as int),
    ensures
        -0x30_0000 <= f.norm2() <= 0x30_0000,
        -0x30_0000 <= up.dot(f) <= 0x30_0000,
        frame_up(f, up).within(0x1_8000_0000),
        frame_side(f, up).within(0xc00_0000_0000),
        -0x48_0000_0000_0000 <= frame_up(f, up).dot(up) <= 0x48_0000_0000_0000,
        -0x90_0000_0000_0000 <= right.dot(frame_side(f, up)) <= 0x90_0000_0000_0000,
{
    lemma_dot3_bound(f, f, 1024, 1024);
    lemma_dot3_bound(up, f, 1024, 1024);
    let ff = f.norm2();
    let uf = up.dot(f);
    lemma_mul_bound(up.x, ff, 1024, 0x30_0000);
    lemma_mul_bound(up.y, ff, 1024, 0x30_0000);
    lemma_mul_bound(up.z, ff, 1024, 0x30_0000);
    lemma_mul_bound(f.x, uf, 1024, 0x30_0000);
    lemma_mul_bound(f.y, uf, 1024, 0x30_0000);
    lemma_mul_bound(f.z, uf, 1024, 0x30_0000);
    let u = frame_up(f, up);
    assert(u.within(0x1_8000_0000));
    lemma_mul_bound(u.y, f.z, 0x1_8000_0000, 1024);
    lemma_mul_bound(u.z, f.y, 0x1_8000_0000, 1024);
    lemma_mul_bound(u.z, f.x, 0x1_8000_0000, 1024);
    lemma_mul_bound(u.x, f.z, 0x1_8000_0000, 1024);
    lemma_mul_bound(u.x, f.y, 0x1_8000_0000, 1024);
    lemma_mul_bound(u.y, f.x, 0x1_8000_0000, 1024);
    let w = frame_side(f, up);
    assert(w.within(0xc00_0000_0000));
    lemma_dot3_bound(u, up, 0x1_8000_0000, 1024);
    lemma_dot3_bound(right, w, 1024, 0xc00_0000_0000);
}


impl Camera {
    /// The point as this camera sees it.
    pub fn to_camera_coordinates(&self, p: &Point<3>) -> (c: CameraPoint)
        requires
            self.wf(),
            p.wf(),
        ensures
            c@ == self.sees(p@),
            -0xd8000000000000000000000 <= c.xn <= 0xd8000000000000000000000,
            -0xd8000000000000000000000 <= c.xd <= 0xd8000000000000000000000,
            -0x1b0000000000000000000 <= c.yn <= 0x1b0000000000000000000,
            -0x1b0000000000000000000 <= c.yd <= 0x1b0000000000000000000,
            c.zn > 0 ==> c.xd > 0 && c.yd > 0,
    {
        let fx: i128 = self.fwd.vs[0] as i128;
        let fy: i128 = self.fwd.vs[1] as i128;
        let fz: i128 = self.fwd.vs[2] as i128;
        let ux: i128 = self.up.vs[0] as i128;
        let uy: i128 = self.up.vs[1] as i128;
        let uz: i128 = self.up.vs[2] as i128;
        let rx: i128 = self.right.vs[0] as i128;
        let ry: i128 = self.right.vs[1] as i128;
        let rz: i128 = self.right.vs[2] as i128;
        let dx: i128 = p.vs[0] as i128 - self.eye.vs[0] as i128;
        let dy: i128 = p.vs[1] as i128 - self.eye.vs[1] as i128;
        let dz: i128 = p.vs[2] as i128 - self.eye.vs[2] as i128;
        let ghost f = self.fwd@;
        let ghost up = self.up@;
        let ghost right = self.right@;
        let ghost d = p@.sub(self.eye@);
        let ghost u = frame_up(f, up);
        let ghost w = frame_side(f, up);
        proof {
            lemma_frame_bounds(f, right, up);
            lemma_mul_bound(fx as int, fx as int, 1024, 1024);
            lemma_mul_bound(fy as int, fy as int, 1024, 1024);
            lemma_mul_bound(fz as int, fz as int, 1024, 1024);
            lemma_mul_bound(ux as int, fx as int, 1024, 1024);
            lemma_mul_bound(uy as int, fy as int, 1024, 1024);
            lemma_mul_bound(uz as int, fz as int, 1024, 1024);
        }
        let ff: i128 = fx * fx + fy * fy + fz * fz;
        let uf: i128 = ux * fx + uy * fy + uz * fz;
        proof {
            lemma_mul_bound(ux as int, ff as int, 1024, 0x300000);
            lemma_mul_bound(uy as int, ff as int, 1024, 0x300000);
            lemma_mul_bound(uz as int, ff as int, 1024, 0x300000);
            lemma_mul_bound(fx as int, uf as int, 1024, 0x300000);
            lemma_mul_bound(fy as int, uf as int, 1024, 0x300000);
            lemma_mul_bound(fz as int, uf as int, 1024, 0x300000);
        }
        let cx: i128 = ux * ff - fx * uf;
        let cy: i128 = uy * ff - fy * uf;
        let cz: i128 = uz * ff - fz * uf;
        proof {
            assert(u == (V3 { x: cx as int, y: cy as int, z: cz as int }));
            lemma_mul_bound(cy as int, fz as int, 0x180000000, 1024);
            lemma_mul_bound(cz as int, fy as int, 0x180000000, 1024);
            lemma_mul_bound(cz as int, fx as int, 0x180000000, 1024);
            lemma_mul_bound(cx as int, fz as int, 0x180000000, 1024);
            lemma_mul_bound(cx as int, fy as int, 0x180000000, 1024);
            lemma_mul_bound(cy as int, fx as int, 0x180000000, 1024);
        }
        let wx: i128 = cy * fz - cz * fy;
        let wy: i128 = cz * fx - cx * fz;
        let wz: i128 = cx * fy - cy * fx;
        proof {
            assert(w == (V3 { x: wx as int, y: wy as int, z: wz as int }));
            lemma_mul_bound(rx as int, wx as int, 1024, 0xc0000000000);
            lemma_mul_bound(ry as int, wy as int, 1024, 0xc0000000000);
            lemma_mul_bound(rz as int, wz as int, 1024, 0xc0000000000);
            lemma_mul_bound(cx as int, ux as int, 0x180000000, 1024);
            lemma_mul_bound(cy as int, uy as int, 0x180000000, 1024);
            lemma_mul_bound(cz as int, uz as int, 0x180000000, 1024);
            lemma_mul_bound(dx as int, fx as int, 0x2000000, 1024);
            lemma_mul_bound(dy as int, fy as int, 0x2000000, 1024);
            lemma_mul_bound(dz as int, fz as int, 0x2000000, 1024);
            lemma_mul_bound(dx as int, cx as int, 0x2000000, 0x180000000);
            lemma_mul_bound(dy as int, cy as int, 0x2000000, 0x180000000);
            lemma_mul_bound(dz as int, cz as int, 0x2000000, 0x180000000);
            lemma_mul_bound(dx as int, wx as int, 0x2000000, 0xc0000000000);
            lemma_mul_bound(dy as int, wy as int, 0x2000000, 0xc0000000000);
            lemma_mul_bound(dz as int, wz as int, 0x2000000, 0xc0000000000);
        }
        let rw: i128 = rx * wx + ry * wy + rz * wz;
        let uu: i128 = cx * ux + cy * uy + cz * uz;
        let df: i128 = dx * fx + dy * fy + dz * fz;
        let du: i128 = dx * cx + dy * cy + dz * cz;
        let dw: i128 = dx * wx + dy * wy + dz * wz;
        proof {
            lemma_mul_bound(dw as int, ff as int, 0x480000000000000000, 0x300000);
            lemma_mul_bound(rw as int, df as int, 0x90000000000000, 0x1800000000);
            lemma_mul_bound(-rw, df as int, 0x90000000000000, 0x1800000000);
            lemma_mul_bound(du as int, ff as int, 0x900000000000000, 0x300000);
            lemma_mul_bound(uu as int, df as int, 0x120000000000, 0x1800000000);
            if df > 0 {
                assert(uu * df > 0) by (nonlinear_arith)
                    requires
                        uu > 0,
                        df > 0,
                ;
                if rw < 0 {
                    assert((-rw) * df > 0) by (nonlinear_arith)
                        requires
                            rw < 0,
                            df > 0,
                    ;
                } else {
                    assert(rw * df > 0) by (nonlinear_arith)
                        requires
                            rw > 0,
                            df > 0,
                    ;
                }
            }
        }
        let c = CameraPoint {
            xn: if rw < 0 {
                -(dw * ff)
            } else {
                dw * ff
            },
            xd: if rw < 0 {
                -rw * df
            } else {
                rw * df
            },
            yn: du * ff,
            yd: uu * df,
            zn: df,
            zd: ff,
        };
        c
    }

    /// Where the point lands on the canvas.
    pub fn project_pt(&self, p: &Point<3>) -> (r: Option<Point<2>>)
        requires
            self.wf(),
            p.wf(),
        ensures
            match r {
                Some(q) => self.projected_point(p@) == Some(q@) && q.wf(),
                None => self.projected_point(p@) is None,
            },
    {
        let c = self.to_camera_coordinates(p);
        if c.zn <= 0 {
            return None;
        }
        let lox: i128 = self.canvas.min.vs[0] as i128;
        let loy: i128 = self.canvas.min.vs[1] as i128;
        let hix: i128 = self.canvas.max.vs[0] as i128;
        let hiy: i128 = self.canvas.max.vs[1] as i128;
        proof {
            lemma_mul_bound(lox + hix, c.xd as int, 0x20000000, 0xd8000000000000000000000);
            lemma_mul_bound(c.xn as int, hix - lox, 0xd8000000000000000000000, 0x20000000);
            lemma_mul_bound(loy + hiy, c.yd as int, 0x20000000, 0x1b0000000000000000000);
            lemma_mul_bound(c.yn as int, hiy - loy, 0x1b0000000000000000000, 0x20000000);
        }
        let x = div_floor((lox + hix) * c.xd + c.xn * (hix - lox), 2 * c.xd);
        let y = div_floor((loy + hiy) * c.yd - c.yn * (hiy - loy), 2 * c.yd);
        let lim: i128 = COORD_MAX as i128;
        if -lim <= x && x <= lim && -lim <= y && y <= lim {
            Some(Point { vs: [x as i64, y as i64] })
        } else {
            None
        }
    }

    /// Whether the segment may be in the view.
    pub fn is_segment_visible(&self, ls: &LineSegment<3>) -> (r: bool)
        requires
            self.wf(),
            ls.wf(),
        ensures
            r == self.visible(ls@),
    {
        let a = self.to_camera_coordinates(&ls.ps[0]);
        let b = self.to_camera_coordinates(&ls.ps[1]);
        if a.zn < a.zd && b.zn < b.zd {
            return false;
        }
        if in_view(&a) {
            return true;
        }
        if in_view(&b) {
            return true;
        }
        if left_of_view(&a) && left_of_view(&b) {
            return false;
        }
        if right_of_view(&a) && right_of_view(&b) {
            return false;
        }
        if below_view(&a) && below_view(&b) {
            return false;
        }
        if above_view(&a) && above_view(&b) {
            return false;
        }
        true
    }

    /// Where the segment lands on the canvas.
    pub fn project(&self, ls: &LineSegment<3>) -> (r: Option<LineSegment<2>>)
        requires
            self.wf(),
            ls.wf(),
        ensures
            match r {
                Some(s) => self.projected(ls@) == Some(s@) && s.wf(),
                None => self.projected(ls@) is None,
            },
    {
        match self.project_pt(&ls.ps[0]) {
            Some(a) => match self.project_pt(&ls.ps[1]) {
                Some(b) => Some(LineSegment { ps: [a, b] }),
                None => None,
            },
            None => None,
        }
    }
}

/// The magnitude of a number that is not the smallest of its type.
fn magnitude(x: i128) -> (r: i128)
    requires
        x > i128::MIN,
    ensures
        r == crate::arith::abs(x as int),
{
    if x < 0 {
        -x
    } else {
        x
    }
}

/// Whether the point lies within the view.
fn in_view(c: &CameraPoint) -> (r: bool)
    requires
        c.xd > i128::MIN,
        c.yd > i128::MIN,
    ensures
        r == c@.in_view(),
{
    let ax = magnitude(c.xd);
    let ay = magnitude(c.yd);
    c.zn != 0 && -ax <= c.xn && c.xn <= ax && -ay <= c.yn && c.yn <= ay
}

/// Whether the point lies left of the view.
fn left_of_view(c: &CameraPoint) -> (r: bool)
    requires
        c.xd > i128::MIN,
    ensures
        r == c@.left_of_view(),
{
    (c.xd > 0 && c.xn < -c.xd) || (c.xd < 0 && c.xn > -c.xd)
}

/// Whether the point lies right of the view.
fn right_of_view(c: &CameraPoint) -> (r: bool)
    ensures
        r == c@.right_of_view(),
{
    (c.xd > 0 && c.xn > c.xd) || (c.xd < 0 && c.xn < c.xd)
}

/// Whether the point lies below the view.
fn below_view(c: &CameraPoint) -> (r: bool)
    requires
        c.yd > i128::MIN,
    ensures
        r == c@.below_view(),
{
    (c.yd > 0 && c.yn < -c.yd) || (c.yd < 0 && c.yn > -c.yd)
}

/// Whether the point lies above the view.
fn above_view(c: &CameraPoint) -> (r: bool)
    ensures
        r == c@.above_view(),
{
    (c.yd > 0 && c.yn > c.yd) || (c.yd < 0 && c.yn < c.yd)
}


/// Why a camera could not be built.
#[derive(Debug)]
pub enum CameraBuilderError {
    /// The names of the parameters that were not given, in the order canvas,
    /// eye, fwd, right, up.
    MissingFields(Vec<String>),
}

/// Collects the five parameters of a camera.
#[derive(Clone, Copy, Debug)]
pub struct CameraBuilder {
    pub canvas: Option<Bounds<2>>,
    pub eye: Option<Point<3>>,
    pub fwd: Option<Point<3>>,
    pub right: Option<Point<3>>,
    pub up: Option<Point<3>>,
}

/// The name, if the parameter is missing.
pub open spec fn name_if(missing: bool, name: Seq<char>) -> Seq<Seq<char>> {
    if missing {
        seq![name]
    } else {
        Seq::empty()
    }
}

/// The texts of a vector of strings.
pub open spec fn names_view(v: Seq<String>) -> Seq<Seq<char>> {
    Seq::new(v.len(), |i: int| v[i]@)
}

impl CameraBuilder {
    /// All five parameters are given.
    pub open spec fn complete(self) -> bool {
        self.canvas is Some && self.eye is Some && self.fwd is Some && self.right is Some
            && self.up is Some
    }

    /// The names of the parameters that are not given.
    pub open spec fn missing(self) -> Seq<Seq<char>> {
        name_if(self.canvas is None, "canvas"@) + name_if(self.eye is None, "eye"@) + name_if(
            self.fwd is None,
            "fwd"@,
        ) + name_if(self.right is None, "right"@) + name_if(self.up is None, "up"@)
    }

    /// A builder to which nothing has been given.
    pub fn builder() -> (r: CameraBuilder)
        ensures
            r.canvas is None,
            r.eye is None,
            r.fwd is None,
            r.right is None,
            r.up is None,
    {
        CameraBuilder { canvas: None, eye: None, fwd: None, right: None, up: None }
    }

    /// The builder with the rectangle of the canvas given.
    pub fn canvas(&self, xmin: i64, ymin: i64, xmax: i64, ymax: i64) -> (r: CameraBuilder)
        ensures
            r.canvas matches Some(c) && c.min@ == (V2 { x: xmin as int, y: ymin as int }) && c.max@
                == (V2 { x: xmax as int, y: ymax as int }),
            r.eye == self.eye,
            r.fwd == self.fwd,
            r.right == self.right,
            r.up == self.up,
    {
        let mut result = *self;
        result.canvas = Some(
            Bounds { min: Point { vs: [xmin, ymin] }, max: Point { vs: [xmax, ymax] } },
        );
        result
    }

    /// The builder with the position of the eye given.
    pub fn eye(&self, x: i64, y: i64, z: i64) -> (r: CameraBuilder)
        ensures
            r.eye matches Some(e) && e@ == (V3 { x: x as int, y: y as int, z: z as int }),
            r.canvas == self.canvas,
            r.fwd == self.fwd,
            r.right == self.right,
            r.up == self.up,
    {
        let mut result = *self;
        result.eye = Some(p3(x, y, z));
        result
    }

    /// The builder with the forward vector given.
    pub fn fwd(&self, x: i64, y: i64, z: i64) -> (r: CameraBuilder)
        ensures
            r.fwd matches Some(e) && e@ == (V3 { x: x as int, y: y as int, z: z as int }),
            r.canvas == self.canvas,
            r.eye == self.eye,
            r.right == self.right,
            r.up == self.up,
    {
        let mut result = *self;
        result.fwd = Some(p3(x, y, z));
        result
    }

    /// The builder with the vector to the right given.
    pub fn right(&self, x: i64, y: i64, z: i64) -> (r: CameraBuilder)
        ensures
            r.right matches Some(e) && e@ == (V3 { x: x as int, y: y as int, z: z as int }),
            r.canvas == self.canvas,
            r.eye == self.eye,
            r.fwd == self.fwd,
            r.up == self.up,
    {
        let mut result = *self;
        result.right = Some(p3(x, y, z));
        result
    }

    /// The builder with the upward vector given.
    pub fn up(&self, x: i64, y: i64, z: i64) -> (r: CameraBuilder)
        ensures
            r.up matches Some(e) && e@ == (V3 { x: x as int, y: y as int, z: z as int }),
            r.canvas == self.canvas,
            r.eye == self.eye,
            r.fwd == self.fwd,
            r.right == self.right,
    {
        let mut result = *self;
        result.up = Some(p3(x, y, z));
        result
    }

    /// The camera, if all five parameters are given; otherwise the names of
    /// all those that are not. Nothing is filled in for a missing parameter.
    pub fn create(&self) -> (r: Result<Camera, CameraBuilderError>)
        ensures
            match r {
                Ok(camera) => self.complete() && camera == (Camera {
                    canvas: self.canvas.unwrap(),
                    eye: self.eye.unwrap(),
                    fwd: self.fwd.unwrap(),
                    right: self.right.unwrap(),
                    up: self.up.unwrap(),
                    lmax: DEFAULT_LMAX,
                    lmin: DEFAULT_LMIN,
                }),
                Err(CameraBuilderError::MissingFields(names)) => !self.complete() && names_view(
                    names@,
                ) == self.missing(),
            },
    {
        let mut missing_fields: Vec<String> = Vec::new();
        if self.canvas.is_none() {
            missing_fields.push("canvas".to_string());
        }
        assert(names_view(missing_fields@) =~= name_if(self.canvas is None, "canvas"@));
        let ghost m1 = names_view(missing_fields@);
        if self.eye.is_none() {
            missing_fields.push("eye".to_string());
        }
        assert(names_view(missing_fields@) =~= m1 + name_if(self.eye is None, "eye"@));
        let ghost m2 = names_view(missing_fields@);
        if self.fwd.is_none() {
            missing_fields.push("fwd".to_string());
        }
        assert(names_view(missing_fields@) =~= m2 + name_if(self.fwd is None, "fwd"@));
        let ghost m3 = names_view(missing_fields@);
        if self.right.is_none() {
            missing_fields.push("right".to_string());
        }
        assert(names_view(missing_fields@) =~= m3 + name_if(self.right is None, "right"@));
        let ghost m4 = names_view(missing_fields@);
        if self.up.is_none() {
            missing_fields.push("up".to_string());
        }
        assert(names_view(missing_fields@) =~= m4 + name_if(self.up is None, "up"@));
        if missing_fields.len() != 0 {
            return Err(CameraBuilderError::MissingFields(missing_fields));
        }
        Ok(
            Camera {
                canvas: self.canvas.unwrap(),
                eye: self.eye.unwrap(),
                fwd: self.fwd.unwrap(),
                right: self.right.unwrap(),
                up: self.up.unwrap(),
                lmax: DEFAULT_LMAX,
                lmin: DEFAULT_LMIN,
            },
        )
    }
}

/// What is known before rendering of what can be left out; at present
/// nothing is.
#[derive(Clone, Copy, Debug)]
pub struct CullingInfo {}

/// The culling information of a camera.
pub fn create_culling_info(camera: &Camera) -> (r: CullingInfo) {
    CullingInfo {  }
}


/// The ray from `origin` along `direction`.
pub open spec fn ray_of(origin: V3, direction: V3) -> Ray {
    Ray {
        origin: Point { vs: [origin.x as i64, origin.y as i64, origin.z as i64] },
        direction: Point { vs: [direction.x as i64, direction.y as i64, direction.z as i64] },
    }
}

/// The point `p` is hidden from the eye: the ray from `p` towards the eye
/// meets one of the solids.
pub open spec fn occluded(shapes: Seq<Shape>, eye: V3, p: V3) -> bool {
    exists|i: int| 0 <= i < shapes.len() && #[trigger] shape_intersect(
        shapes[i],
        ray_of(p, eye.sub(p)),
    ) is Some
}

/// Every solid lies within the coordinate range.
pub open spec fn shapes_wf(shapes: Seq<Shape>) -> bool {
    forall|i: int| 0 <= i < shapes.len() ==> (#[trigger] shapes[i]).wf()
}

/// What hides points from the eye: the solids of the scene.
pub struct OcclusionInfo<'a> {
    pub eye: Point<3>,
    pub shapes: &'a [Shape],
}

impl<'a> OcclusionInfo<'a> {
    /// The eye and every solid lie within the coordinate range.
    pub open spec fn wf(self) -> bool {
        self.eye.wf() && shapes_wf(self.shapes@)
    }

    /// Whether the point is hidden from the eye.
    pub fn is_occluded(&self, p: &Point<3>) -> (r: bool)
        requires
            self.wf(),
            p.wf(),
        ensures
            r == occluded(self.shapes@, self.eye@, p@),
    {
        let ray = Ray {
            origin: *p,
            direction: Point {
                vs: [
                    self.eye.vs[0] - p.vs[0],
                    self.eye.vs[1] - p.vs[1],
                    self.eye.vs[2] - p.vs[2],
                ],
            },
        };
        proof {
            let model = ray_of(p@, self.eye@.sub(p@));
            crate::nbase::point::lemma_point3_ext(ray.origin, model.origin);
            crate::nbase::point::lemma_point3_ext(ray.direction, model.direction);
        }
        let mut i: usize = 0;
        while i < self.shapes.len()
            invariant
                i <= self.shapes@.len(),
                self.wf(),
                ray.wf(),
                ray == ray_of(p@, self.eye@.sub(p@)),
                forall|j: int| 0 <= j < i ==> #[trigger] shape_intersect(self.shapes@[j], ray) is None,
            decreases self.shapes@.len() - i,
        {
            if self.shapes[i].intersect(&ray).is_some() {
                return true;
            }
            i += 1;
        }
        false
    }
}

/// The occlusion information of a camera among the given solids.
pub fn create_occlusion_info<'a>(camera: &Camera, shapes: &'a [Shape]) -> (r: OcclusionInfo<'a>)
    ensures
        r.eye == camera.eye,
        r.shapes@ == shapes@,
{
    OcclusionInfo { eye: camera.eye, shapes }
}

/// What becomes of a piece of an edge.
#[derive(Clone, Copy, Debug)]
pub enum Verdict {
    /// It is not drawn.
    Discard,
    /// It is drawn as it is.
    Emit,
    /// It is cut in half and both halves are looked at again.
    Split,
}

/// What becomes of the piece `s` of an edge.
///
/// A piece that is out of view is not drawn. A piece whose image is longer
/// than `lmax`, or that has no image because it reaches behind the eye or
/// lands outside the coordinate range of the plane, is split.
/// Of any other piece both ends are tested: if both are hidden it is not
/// drawn, if neither is it is drawn, and if one is it is split while its
/// image is longer than `lmin` and drawn once it is not.
///
/// A piece that spans less than two grid steps cannot be split: in place of
/// a split it is tested and drawn as if it were short enough, or not drawn
/// if it has no image.
pub open spec fn verdict(cam: Camera, shapes: Seq<Shape>, s: Seg3) -> Verdict {
    if !cam.visible(s) {
        Verdict::Discard
    } else {
        match cam.projected(s) {
            None => if s.extent() >= 2 {
                Verdict::Split
            } else {
                Verdict::Discard
            },
            Some(flat) => if flat.len2() > cam.lmax && s.extent() >= 2 {
                Verdict::Split
            } else if occluded(shapes, cam.eye@, s.a) && occluded(shapes, cam.eye@, s.b) {
                Verdict::Discard
            } else if !occluded(shapes, cam.eye@, s.a) && !occluded(shapes, cam.eye@, s.b) {
                Verdict::Emit
            } else if flat.len2() > cam.lmin && s.extent() >= 2 {
                Verdict::Split
            } else {
                Verdict::Emit
            },
        }
    }
}

/// The first half of a segment.
pub open spec fn first_half(s: Seg3) -> Seg3 {
    Seg3 { a: s.a, b: s.midpoint() }
}

/// The second half of a segment.
pub open spec fn second_half(s: Seg3) -> Seg3 {
    Seg3 { a: s.midpoint(), b: s.b }
}

/// The pieces of the segment `s` that are drawn, in the order in which they
/// are drawn: the pieces of the first half before those of the second.
pub open spec fn pieces(cam: Camera, shapes: Seq<Shape>, s: Seg3) -> Seq<Seg3>
    decreases s.extent(),
{
    match verdict(cam, shapes, s) {
        Verdict::Discard => Seq::empty(),
        Verdict::Emit => seq![s],
        Verdict::Split => if s.extent() >= 2 {
            pieces(cam, shapes, first_half(s)) + pieces(cam, shapes, second_half(s))
        } else {
            Seq::empty()
        },
    }
}

/// The pieces that are drawn of a stack of segments, taken from the top.
pub open spec fn drain(cam: Camera, shapes: Seq<Shape>, stack: Seq<Seg3>) -> Seq<Seg3>
    decreases stack.len(),
{
    if stack.len() == 0 {
        Seq::empty()
    } else {
        pieces(cam, shapes, stack.last()) + drain(cam, shapes, stack.drop_last())
    }
}

/// The images of the pieces on the canvas.
pub open spec fn flats(cam: Camera, ps: Seq<Seg3>) -> Seq<Seg2> {
    Seq::new(ps.len(), |i: int| cam.projected(ps[i]).unwrap())
}

/// The images of two runs of pieces are the images of the one followed by
/// the images of the other.
pub proof fn lemma_flats_concat(cam: Camera, a: Seq<Seg3>, b: Seq<Seg3>)
    ensures
        flats(cam, a + b) == flats(cam, a) + flats(cam, b),
{
    assert(flats(cam, a + b) =~= flats(cam, a) + flats(cam, b));
}

/// The work that a segment may still cause.
pub open spec fn weight(s: Seg3) -> int {
    2 * s.extent() * s.extent() + 1
}

/// The work that a stack of segments may still cause.
pub open spec fn work(stack: Seq<Seg3>) -> int
    decreases stack.len(),
{
    if stack.len() == 0 {
        0
    } else {
        weight(stack.last()) + work(stack.drop_last())
    }
}

/// Work is never negative.
pub proof fn lemma_work_nonneg(stack: Seq<Seg3>)
    ensures
        work(stack) >= 0,
    decreases stack.len(),
{
    if stack.len() > 0 {
        lemma_work_nonneg(stack.drop_last());
        crate::nbase::line_merger::lemma_square_nonneg(stack.last().extent());
        assert(2 * stack.last().extent() * stack.last().extent() == 2 * (stack.last().extent()
            * stack.last().extent())) by (nonlinear_arith);
    }
}

/// Each half of a segment that spans two grid steps or more spans at most
/// half as much, rounded up; the two halves together cause less work than
/// the whole.
pub proof fn lemma_halves(s: Seg3)
    requires
        s.extent() >= 2,
    ensures
        first_half(s).extent() < s.extent(),
        second_half(s).extent() < s.extent(),
        first_half(s).extent() >= 0,
        second_half(s).extent() >= 0,
        weight(first_half(s)) + weight(second_half(s)) < weight(s),
{
    let e = s.extent();
    let e1 = first_half(s).extent();
    let e2 = second_half(s).extent();
    assert(2 * e1 <= e + 1);
    assert(2 * e2 <= e + 1);
    assert(e1 >= 0 && e2 >= 0);
    assert(4 * (e1 * e1) <= (e + 1) * (e + 1)) by (nonlinear_arith)
        requires
            0 <= 2 * e1 <= e + 1,
    ;
    assert(4 * (e2 * e2) <= (e + 1) * (e + 1)) by (nonlinear_arith)
        requires
            0 <= 2 * e2 <= e + 1,
    ;
    assert(2 * e1 * e1 == 2 * (e1 * e1)) by (nonlinear_arith);
    assert(2 * e2 * e2 == 2 * (e2 * e2)) by (nonlinear_arith);
    assert(2 * e * e == 2 * (e * e)) by (nonlinear_arith);
    if e == 2 {
        assert(e1 <= 1 && e2 <= 1);
        assert(e1 * e1 <= 1) by (nonlinear_arith)
            requires
                0 <= e1 <= 1,
        ;
        assert(e2 * e2 <= 1) by (nonlinear_arith)
            requires
                0 <= e2 <= 1,
        ;
        assert(e * e == 4) by (nonlinear_arith)
            requires
                e == 2,
        ;
    } else {
        assert((e + 1) * (e + 1) + 2 < 2 * (e * e) + 1) by (nonlinear_arith)
            requires
                e >= 3,
        ;
    }
}


impl Camera {
    /// Whether the camera is well-formed.
    pub fn is_wf(&self) -> (r: bool)
        ensures
            r == self.wf(),
    {
        let lim = FRAME_MAX;
        let short = -lim <= self.fwd.vs[0] && self.fwd.vs[0] <= lim && -lim <= self.fwd.vs[1]
            && self.fwd.vs[1] <= lim && -lim <= self.fwd.vs[2] && self.fwd.vs[2] <= lim && -lim
            <= self.right.vs[0] && self.right.vs[0] <= lim && -lim <= self.right.vs[1]
            && self.right.vs[1] <= lim && -lim <= self.right.vs[2] && self.right.vs[2] <= lim
            && -lim <= self.up.vs[0] && self.up.vs[0] <= lim && -lim <= self.up.vs[1]
            && self.up.vs[1] <= lim && -lim <= self.up.vs[2] && self.up.vs[2] <= lim;
        if !short || !self.eye.is_wf() || !self.canvas.min.is_wf() || !self.canvas.max.is_wf()
            || self.lmax < 0 || self.lmin < 0 {
            return false;
        }
        let fx: i128 = self.fwd.vs[0] as i128;
        let fy: i128 = self.fwd.vs[1] as i128;
        let fz: i128 = self.fwd.vs[2] as i128;
        let ux: i128 = self.up.vs[0] as i128;
        let uy: i128 = self.up.vs[1] as i128;
        let uz: i128 = self.up.vs[2] as i128;
        let rx: i128 = self.right.vs[0] as i128;
        let ry: i128 = self.right.vs[1] as i128;
        let rz: i128 = self.right.vs[2] as i128;
        let ghost f = self.fwd@;
        let ghost up = self.up@;
        let ghost u = frame_up(f, up);
        let ghost w = frame_side(f, up);
        proof {
            lemma_frame_bounds(f, self.right@, up);
            lemma_mul_bound(fx as int, fx as int, 1024, 1024);
            lemma_mul_bound(fy as int, fy as int, 1024, 1024);
            lemma_mul_bound(fz as int, fz as int, 1024, 1024);
            lemma_mul_bound(ux as int, fx as int, 1024, 1024);
            lemma_mul_bound(uy as int, fy as int, 1024, 1024);
            lemma_mul_bound(uz as int, fz as int, 1024, 1024);
        }
        let ff: i128 = fx * fx + fy * fy + fz * fz;
        let uf: i128 = ux * fx + uy * fy + uz * fz;
        proof {
            lemma_mul_bound(ux as int, ff as int, 1024, 0x30_0000);
            lemma_mul_bound(uy as int, ff as int, 1024, 0x30_0000);
            lemma_mul_bound(uz as int, ff as int, 1024, 0x30_0000);
            lemma_mul_bound(fx as int, uf as int, 1024, 0x30_0000);
            lemma_mul_bound(fy as int, uf as int, 1024, 0x30_0000);
            lemma_mul_bound(fz as int, uf as int, 1024, 0x30_0000);
        }
        let cx: i128 = ux * ff - fx * uf;
        let cy: i128 = uy * ff - fy * uf;
        let cz: i128 = uz * ff - fz * uf;
        proof {
            assert(u == (V3 { x: cx as int, y: cy as int, z: cz as int }));
            lemma_mul_bound(cy as int, fz as int, 0x1_8000_0000, 1024);
            lemma_mul_bound(cz as int, fy as int, 0x1_8000_0000, 1024);
            lemma_mul_bound(cz as int, fx as int, 0x1_8000_0000, 1024);
            lemma_mul_bound(cx as int, fz as int, 0x1_8000_0000, 1024);
            lemma_mul_bound(cx as int, fy as int, 0x1_8000_0000, 1024);
            lemma_mul_bound(cy as int, fx as int, 0x1_8000_0000, 1024);
        }
        let wx: i128 = cy * fz - cz * fy;
        let wy: i128 = cz * fx - cx * fz;
        let wz: i128 = cx * fy - cy * fx;
        proof {
            assert(w == (V3 { x: wx as int, y: wy as int, z: wz as int }));
            lemma_mul_bound(rx as int, wx as int, 1024, 0xc00_0000_0000);
            lemma_mul_bound(ry as int, wy as int, 1024, 0xc00_0000_0000);
            lemma_mul_bound(rz as int, wz as int, 1024, 0xc00_0000_0000);
            lemma_mul_bound(cx as int, ux as int, 0x1_8000_0000, 1024);
            lemma_mul_bound(cy as int, uy as int, 0x1_8000_0000, 1024);
            lemma_mul_bound(cz as int, uz as int, 0x1_8000_0000, 1024);
        }
        let rw: i128 = rx * wx + ry * wy + rz * wz;
        let uu: i128 = cx * ux + cy * uy + cz * uz;
        ff > 0 && uu > 0 && rw != 0
    }

    /// What becomes of a piece of an edge, and its image if it is drawn.
    pub fn classify(&self, occlusion_info: &OcclusionInfo, ls: &LineSegment<3>) -> (r: (
        Verdict,
        Option<LineSegment<2>>,
    ))
        requires
            self.wf(),
            occlusion_info.wf(),
            occlusion_info.eye == self.eye,
            ls.wf(),
        ensures
            r.0 == verdict(*self, occlusion_info.shapes@, ls@),
            r.0 is Emit ==> (r.1 matches Some(flat) && self.projected(ls@) == Some(flat@)
                && flat.wf()),
            !(r.0 is Emit) ==> r.1 is None,
    {
        if !self.is_segment_visible(ls) {
            return (Verdict::Discard, None);
        }
        let can_split = ls.extent() >= 2;
        match self.project(ls) {
            None => {
                if can_split {
                    (Verdict::Split, None)
                } else {
                    (Verdict::Discard, None)
                }
            },
            Some(ls_screen) => {
                if ls_screen.len2() > self.lmax as i128 && can_split {
                    return (Verdict::Split, None);
                }
                let o1 = occlusion_info.is_occluded(&ls.ps[0]);
                let o2 = occlusion_info.is_occluded(&ls.ps[1]);
                if o1 && o2 {
                    return (Verdict::Discard, None);
                }
                if !o1 && !o2 {
                    return (Verdict::Emit, Some(ls_screen));
                }
                if ls_screen.len2() > self.lmin as i128 && can_split {
                    (Verdict::Split, None)
                } else {
                    (Verdict::Emit, Some(ls_screen))
                }
            },
        }
    }
}

/// Every segment of the sequence is well-formed.
pub open spec fn segments3_wf(v: Seq<LineSegment<3>>) -> bool {
    forall|i: int| 0 <= i < v.len() ==> (#[trigger] v[i]).wf()
}

/// Every segment of the sequence is well-formed.
pub open spec fn segments2_wf(v: Seq<LineSegment<2>>) -> bool {
    forall|i: int| 0 <= i < v.len() ==> (#[trigger] v[i]).wf()
}

/// Works off a stack of segments of edges: takes the top segment, draws it,
/// drops it, or puts its two halves in its place, the first half on top,
/// until the stack is empty. What is drawn is appended to `out`.
pub fn render_segments(
    camera: &Camera,
    occlusion_info: &OcclusionInfo,
    line_segments: Vec<LineSegment<3>>,
    out: &mut Vec<LineSegment<2>>,
)
    requires
        camera.wf(),
        occlusion_info.wf(),
        occlusion_info.eye == camera.eye,
        segments3_wf(line_segments@),
        segments2_wf(old(out)@),
    ensures
        segments2_view(final(out)@) == segments2_view(old(out)@) + flats(
            *camera,
            drain(*camera, occlusion_info.shapes@, segments3_view(line_segments@)),
        ),
        segments2_wf(final(out)@),
{
    let ghost shapes = occlusion_info.shapes@;
    let ghost start = segments2_view(out@);
    let ghost whole = drain(*camera, shapes, segments3_view(line_segments@));
    let ghost done: Seq<Seg3> = Seq::empty();
    let mut stack = line_segments;
    proof {
        assert(done + whole =~= whole);
        assert(start + flats(*camera, done) =~= start);
        lemma_work_nonneg(segments3_view(stack@));
    }
    while stack.len() > 0
        invariant
            camera.wf(),
            occlusion_info.wf(),
            occlusion_info.eye == camera.eye,
            shapes == occlusion_info.shapes@,
            segments3_wf(stack@),
            segments2_wf(out@),
            segments2_view(out@) == start + flats(*camera, done),
            done + drain(*camera, shapes, segments3_view(stack@)) == whole,
            work(segments3_view(stack@)) >= 0,
        decreases work(segments3_view(stack@)),
    {
        let ghost before = segments3_view(stack@);
        let ghost out_before = segments2_view(out@);
        let ls = stack.pop().unwrap();
        let ghost rest = segments3_view(stack@);
        proof {
            assert(rest =~= before.drop_last());
            assert(before.last() == ls@);
            lemma_work_nonneg(rest);
            crate::nbase::line_merger::lemma_square_nonneg(ls@.extent());
            assert(2 * ls@.extent() * ls@.extent() == 2 * (ls@.extent() * ls@.extent()))
                by (nonlinear_arith);
        }
        let (what, flat) = camera.classify(occlusion_info, &ls);
        match what {
            Verdict::Discard => {
                proof {
                    assert(done + drain(*camera, shapes, rest) =~= whole);
                }
            },
            Verdict::Emit => {
                let flat = flat.unwrap();
                out.push(flat);
                proof {
                    let grown = done.push(ls@);
                    assert(grown + drain(*camera, shapes, rest) =~= done + (seq![ls@] + drain(
                        *camera,
                        shapes,
                        rest,
                    )));
                    assert(segments2_view(out@) =~= out_before.push(flat@));
                    assert(flats(*camera, grown) =~= flats(*camera, done).push(flat@));
                    assert(segments2_view(out@) =~= start + flats(*camera, grown));
                    done = grown;
                }
            },
            Verdict::Split => {
                let (ls1, ls2) = ls.split();
                stack.push(ls2);
                stack.push(ls1);
                proof {
                    let now = segments3_view(stack@);
                    lemma_halves(ls@);
                    assert(ls1@ == first_half(ls@));
                    assert(ls2@ == second_half(ls@));
                    assert(now.drop_last() =~= rest.push(ls2@));
                    assert(now.last() == ls1@);
                    assert(now.drop_last().drop_last() =~= rest);
                    assert(now.drop_last().last() == ls2@);
                    let mid = now.drop_last();
                    assert(drain(*camera, shapes, mid) == pieces(*camera, shapes, mid.last())
                        + drain(*camera, shapes, mid.drop_last()));
                    assert(drain(*camera, shapes, now) == pieces(*camera, shapes, now.last())
                        + drain(*camera, shapes, mid));
                    assert(work(mid) == weight(mid.last()) + work(mid.drop_last()));
                    assert(work(now) == weight(now.last()) + work(mid));
                    assert(work(before) == weight(before.last()) + work(before.drop_last()));
                    assert(pieces(*camera, shapes, ls@) == pieces(*camera, shapes, ls1@) + pieces(
                        *camera,
                        shapes,
                        ls2@,
                    ));
                    assert(drain(*camera, shapes, now) =~= pieces(*camera, shapes, ls@) + drain(
                        *camera,
                        shapes,
                        rest,
                    ));
                    assert(work(now) == weight(ls1@) + (weight(ls2@) + work(rest)));
                }
            },
        }
    }
    proof {
        assert(drain(*camera, shapes, segments3_view(stack@)) =~= Seq::<Seg3>::empty());
        assert(done + Seq::<Seg3>::empty() =~= done);
    }
}


/// The pieces that are drawn of the paths from position `j` on: path after
/// path, and of each path the last segment first.
pub open spec fn paths_pieces(cam: Camera, shapes: Seq<Shape>, paths: Seq<Seq<V3>>, j: int) -> Seq<
    Seg3,
>
    decreases paths.len() - j,
{
    if j < 0 || j >= paths.len() {
        Seq::empty()
    } else {
        drain(cam, shapes, links3(paths[j])) + paths_pieces(cam, shapes, paths, j + 1)
    }
}

/// The pieces that are drawn of the wireframe of one solid among the solids
/// `shapes`.
pub open spec fn shape_pieces(cam: Camera, shapes: Seq<Shape>, s: Shape) -> Seq<Seg3> {
    paths_pieces(cam, shapes, shape_paths(s), 0)
}

/// The pieces that are drawn of the solids from position `i` on.
pub open spec fn scene_pieces(cam: Camera, shapes: Seq<Shape>, i: int) -> Seq<Seg3>
    decreases shapes.len() - i,
{
    if i < 0 || i >= shapes.len() {
        Seq::empty()
    } else {
        shape_pieces(cam, shapes, shapes[i]) + scene_pieces(cam, shapes, i + 1)
    }
}

/// Draws the visible parts of the given paths.
pub fn render_paths(
    camera: &Camera,
    occlusion_info: &OcclusionInfo,
    paths: &Vec<PolyLine<3>>,
    out: &mut Vec<LineSegment<2>>,
)
    requires
        camera.wf(),
        occlusion_info.wf(),
        occlusion_info.eye == camera.eye,
        crate::n3::shape::paths_wf(paths@),
        segments2_wf(old(out)@),
    ensures
        segments2_view(final(out)@) == segments2_view(old(out)@) + flats(
            *camera,
            paths_pieces(*camera, occlusion_info.shapes@, crate::n3::shape::paths_view(paths@), 0),
        ),
        segments2_wf(final(out)@),
{
    let ghost shapes = occlusion_info.shapes@;
    let ghost model = crate::n3::shape::paths_view(paths@);
    let ghost start = segments2_view(out@);
    let ghost done: Seq<Seg3> = Seq::empty();
    proof {
        assert(start + flats(*camera, done) =~= start);
        assert(done + paths_pieces(*camera, shapes, model, 0) =~= paths_pieces(
            *camera,
            shapes,
            model,
            0,
        ));
    }
    let mut j: usize = 0;
    while j < paths.len()
        invariant
            j <= paths@.len(),
            camera.wf(),
            occlusion_info.wf(),
            occlusion_info.eye == camera.eye,
            shapes == occlusion_info.shapes@,
            model == crate::n3::shape::paths_view(paths@),
            crate::n3::shape::paths_wf(paths@),
            segments2_wf(out@),
            segments2_view(out@) == start + flats(*camera, done),
            done + paths_pieces(*camera, shapes, model, j as int) == paths_pieces(
                *camera,
                shapes,
                model,
                0,
            ),
        decreases paths@.len() - j,
    {
        let line_segments = paths[j].line_segments();
        let ghost drawn = drain(*camera, shapes, segments3_view(line_segments@));
        render_segments(camera, occlusion_info, line_segments, out);
        proof {
            assert(model[j as int] == paths@[j as int]@);
            lemma_flats_concat(*camera, done, drawn);
            assert((done + drawn) + paths_pieces(*camera, shapes, model, j + 1) =~= done + (drawn
                + paths_pieces(*camera, shapes, model, j + 1)));
            assert(segments2_view(out@) =~= start + flats(*camera, done + drawn));
            done = done + drawn;
        }
        j += 1;
    }
    proof {
        assert(done + Seq::<Seg3>::empty() =~= done);
    }
}

impl Shape {
    /// The visible parts of the wireframe of this solid, as the camera sees
    /// them among the solids that may hide them.
    pub fn render(&self, camera: &Camera, occlusion_info: &OcclusionInfo) -> (out: Vec<
        LineSegment<2>,
    >)
        requires
            self.wf(),
            camera.wf(),
            occlusion_info.wf(),
            occlusion_info.eye == camera.eye,
        ensures
            segments2_view(out@) == flats(
                *camera,
                shape_pieces(*camera, occlusion_info.shapes@, *self),
            ),
            segments2_wf(out@),
    {
        let paths = self.paths();
        let mut out: Vec<LineSegment<2>> = Vec::new();
        render_paths(camera, occlusion_info, &paths, &mut out);
        assert(segments2_view(Seq::<LineSegment<2>>::empty()) + flats(
            *camera,
            shape_pieces(*camera, occlusion_info.shapes@, *self),
        ) =~= flats(*camera, shape_pieces(*camera, occlusion_info.shapes@, *self)));
        out
    }
}

impl AABox {
    /// The visible parts of the edges of this box.
    pub fn render(&self, camera: &Camera, occlusion_info: &OcclusionInfo) -> (out: Vec<
        LineSegment<2>,
    >)
        requires
            self.wf(),
            camera.wf(),
            occlusion_info.wf(),
            occlusion_info.eye == camera.eye,
        ensures
            segments2_view(out@) == flats(
                *camera,
                shape_pieces(*camera, occlusion_info.shapes@, Shape::AABox(*self)),
            ),
            segments2_wf(out@),
    {
        Shape::AABox(*self).render(camera, occlusion_info)
    }
}

impl Sphere {
    /// The visible parts of the rings of this ball.
    pub fn render(&self, camera: &Camera, occlusion_info: &OcclusionInfo) -> (out: Vec<
        LineSegment<2>,
    >)
        requires
            self.wf(),
            self.fits(),
            camera.wf(),
            occlusion_info.wf(),
            occlusion_info.eye == camera.eye,
        ensures
            segments2_view(out@) == flats(
                *camera,
                shape_pieces(*camera, occlusion_info.shapes@, Shape::Sphere(*self)),
            ),
            segments2_wf(out@),
    {
        Shape::Sphere(*self).render(camera, occlusion_info)
    }
}

/// The solids to be drawn.
pub struct Scene {
    pub shapes: Vec<Shape>,
}

impl Scene {
    /// Every solid lies within the coordinate range.
    pub open spec fn wf(self) -> bool {
        shapes_wf(self.shapes@)
    }

    /// A scene without solids.
    pub fn new() -> (r: Scene)
        ensures
            r.shapes@ == Seq::<Shape>::empty(),
            r.wf(),
    {
        Scene { shapes: Vec::new() }
    }

    /// Adds a solid to the scene.
    pub fn add_primitive(&mut self, shape: Shape)
        ensures
            final(self).shapes@ == old(self).shapes@.push(shape),
            old(self).wf() && shape.wf() ==> final(self).wf(),
    {
        self.shapes.push(shape);
    }

    /// The visible parts of the wireframes of all solids, solid after solid,
    /// as segments of the canvas.
    pub fn render(&self, camera: &Camera) -> (out: Vec<LineSegment<2>>)
        requires
            self.wf(),
            camera.wf(),
        ensures
            segments2_view(out@) == flats(*camera, scene_pieces(*camera, self.shapes@, 0)),
            segments2_wf(out@),
    {
        let culling_info = create_culling_info(camera);
        let occlusion_info = create_occlusion_info(camera, self.shapes.as_slice());
        let ghost shapes = self.shapes@;
        let mut out: Vec<LineSegment<2>> = Vec::new();
        let ghost done: Seq<Seg3> = Seq::empty();
        proof {
            assert(segments2_view(out@) =~= flats(*camera, done));
            assert(done + scene_pieces(*camera, shapes, 0) =~= scene_pieces(*camera, shapes, 0));
        }
        let mut i: usize = 0;
        while i < self.shapes.len()
            invariant
                i <= self.shapes@.len(),
                self.wf(),
                camera.wf(),
                occlusion_info.wf(),
                occlusion_info.eye == camera.eye,
                occlusion_info.shapes@ == shapes,
                shapes == self.shapes@,
                segments2_wf(out@),
                segments2_view(out@) == flats(*camera, done),
                done + scene_pieces(*camera, shapes, i as int) == scene_pieces(*camera, shapes, 0),
            decreases self.shapes@.len() - i,
        {
            let paths = self.shapes[i].paths();
            let ghost drawn = shape_pieces(*camera, shapes, shapes[i as int]);
            render_paths(camera, &occlusion_info, &paths, &mut out);
            proof {
                lemma_flats_concat(*camera, done, drawn);
                assert((done + drawn) + scene_pieces(*camera, shapes, i + 1) =~= done + (drawn
                    + scene_pieces(*camera, shapes, i + 1)));
                done = done + drawn;
            }
            i += 1;
        }
        proof {
            assert(done + Seq::<Seg3>::empty() =~= done);
        }
        out
    }
}

/// Every piece that is drawn of a segment is a piece that is drawn as it is.
pub proof fn lemma_pieces_emitted(cam: Camera, shapes: Seq<Shape>, s: Seg3, k: int)
    requires
        0 <= k < pieces(cam, shapes, s).len(),
    ensures
        verdict(cam, shapes, pieces(cam, shapes, s)[k]) is Emit,
    decreases s.extent(),
{
    match verdict(cam, shapes, s) {
        Verdict::Discard => {},
        Verdict::Emit => {},
        Verdict::Split => {
            let first = pieces(cam, shapes, first_half(s));
            if k < first.len() {
                lemma_pieces_emitted(cam, shapes, first_half(s), k);
            } else {
                lemma_pieces_emitted(cam, shapes, second_half(s), k - first.len());
            }
        },
    }
}

/// Every piece that is drawn of a stack of segments is a piece that is drawn
/// as it is.
pub proof fn lemma_drain_emitted(cam: Camera, shapes: Seq<Shape>, stack: Seq<Seg3>, k: int)
    requires
        0 <= k < drain(cam, shapes, stack).len(),
    ensures
        verdict(cam, shapes, drain(cam, shapes, stack)[k]) is Emit,
    decreases stack.len(),
{
    let first = pieces(cam, shapes, stack.last());
    if k < first.len() {
        lemma_pieces_emitted(cam, shapes, stack.last(), k);
    } else {
        lemma_drain_emitted(cam, shapes, stack.drop_last(), k - first.len());
    }
}

/// Every piece that is drawn of a list of paths is a piece that is drawn as
/// it is.
pub proof fn lemma_paths_emitted(
    cam: Camera,
    shapes: Seq<Shape>,
    paths: Seq<Seq<V3>>,
    j: int,
    k: int,
)
    requires
        0 <= j,
        0 <= k < paths_pieces(cam, shapes, paths, j).len(),
    ensures
        verdict(cam, shapes, paths_pieces(cam, shapes, paths, j)[k]) is Emit,
    decreases paths.len() - j,
{
    let first = drain(cam, shapes, links3(paths[j]));
    if k < first.len() {
        lemma_drain_emitted(cam, shapes, links3(paths[j]), k);
    } else {
        lemma_paths_emitted(cam, shapes, paths, j + 1, k - first.len());
    }
}

/// Every piece that is drawn of a scene is a piece that is drawn as it is:
/// it is in view and has an image; its image is no longer than `lmax`,
/// unless the piece is too short to be split; and either both its ends are
/// in the open, or one is and its image is no longer than `lmin`, unless
/// again the piece is too short to be split.
pub proof fn lemma_scene_emitted(cam: Camera, shapes: Seq<Shape>, i: int, k: int)
    requires
        0 <= i,
        0 <= k < scene_pieces(cam, shapes, i).len(),
    ensures
        verdict(cam, shapes, scene_pieces(cam, shapes, i)[k]) is Emit,
        ({
            let q = scene_pieces(cam, shapes, i)[k];
            &&& cam.visible(q)
            &&& cam.projected(q) is Some
            &&& cam.projected(q).unwrap().len2() <= cam.lmax || q.extent() < 2
            &&& !(occluded(shapes, cam.eye@, q.a) && occluded(shapes, cam.eye@, q.b))
            &&& (occluded(shapes, cam.eye@, q.a) || occluded(shapes, cam.eye@, q.b)) ==> (
            cam.projected(q).unwrap().len2() <= cam.lmin || q.extent() < 2)
        }),
    decreases shapes.len() - i,
{
    let first = shape_pieces(cam, shapes, shapes[i]);
    if k < first.len() {
        lemma_paths_emitted(cam, shapes, shape_paths(shapes[i]), 0, k);
    } else {
        lemma_scene_emitted(cam, shapes, i + 1, k - first.len());
    }
}

/// Nothing is drawn of a segment whose two ends are both nearer than the
/// near plane.
pub proof fn lemma_too_near_not_drawn(cam: Camera, shapes: Seq<Shape>, s: Seg3)
    requires
        cam.sees(s.a).too_near(),
        cam.sees(s.b).too_near(),
    ensures
        pieces(cam, shapes, s) == Seq::<Seg3>::empty(),
{
}

/// No piece that is drawn of a scene has both its ends nearer than the near
/// plane.
pub proof fn lemma_scene_never_too_near(cam: Camera, shapes: Seq<Shape>, k: int)
    requires
        0 <= k < scene_pieces(cam, shapes, 0).len(),
    ensures
        !(cam.sees(scene_pieces(cam, shapes, 0)[k].a).too_near() && cam.sees(
            scene_pieces(cam, shapes, 0)[k].b,
        ).too_near()),
{
    lemma_scene_emitted(cam, shapes, 0, k);
}

/// The corrected frame of a camera is at right angles: the corrected `up` to
/// `fwd`, and the side vector to both.
pub proof fn lemma_frame_orthogonal(f: V3, up: V3)
    ensures
        frame_up(f, up).dot(f) == 0,
        frame_side(f, up).dot(f) == 0,
        frame_side(f, up).dot(frame_up(f, up)) == 0,
{
    let u = frame_up(f, up);
    let ff = f.norm2();
    let uf = up.dot(f);
    assert(u.x * f.x == (up.x * f.x) * ff - (f.x * f.x) * uf) by (nonlinear_arith)
        requires
            u.x == up.x * ff - f.x * uf,
    ;
    assert(u.y * f.y == (up.y * f.y) * ff - (f.y * f.y) * uf) by (nonlinear_arith)
        requires
            u.y == up.y * ff - f.y * uf,
    ;
    assert(u.z * f.z == (up.z * f.z) * ff - (f.z * f.z) * uf) by (nonlinear_arith)
        requires
            u.z == up.z * ff - f.z * uf,
    ;
    let (a, b, c) = (up.x * f.x, up.y * f.y, up.z * f.z);
    let (p, q, r) = (f.x * f.x, f.y * f.y, f.z * f.z);
    assert((a + b + c) * ff == a * ff + b * ff + c * ff) by (nonlinear_arith);
    assert((p + q + r) * uf == p * uf + q * uf + r * uf) by (nonlinear_arith);
    assert(uf * ff == ff * uf) by (nonlinear_arith);
    assert(u.dot(f) == 0);
    lemma_cross_orthogonal(u, f);
}

/// The cross product of two vectors is at right angles to both.
pub proof fn lemma_cross_orthogonal(a: V3, b: V3)
    ensures
        a.cross(b).dot(a) == 0,
        a.cross(b).dot(b) == 0,
{
    lemma_difference_times(a.y * b.z, a.z * b.y, a.x);
    lemma_difference_times(a.z * b.x, a.x * b.z, a.y);
    lemma_difference_times(a.x * b.y, a.y * b.x, a.z);
    lemma_product_swap(a.y, b.z, a.x);
    lemma_product_swap(a.z, b.y, a.x);
    lemma_product_swap(a.z, b.x, a.y);
    lemma_difference_times(a.y * b.z, a.z * b.y, b.x);
    lemma_difference_times(a.z * b.x, a.x * b.z, b.y);
    lemma_difference_times(a.x * b.y, a.y * b.x, b.z);
    lemma_product_turn(a.y, b.z, b.x);
    lemma_product_turn(a.z, b.y, b.x);
    lemma_product_turn(a.z, b.x, b.y);
    lemma_product_turn(a.x, b.z, b.y);
    lemma_product_turn(a.x, b.y, b.z);
    lemma_product_turn(a.y, b.x, b.z);
}

/// `(p - q) * r` is `p * r - q * r`.
pub proof fn lemma_difference_times(p: int, q: int, r: int)
    ensures
        (p - q) * r == p * r - q * r,
{
    assert((p - q) * r == p * r - q * r) by (nonlinear_arith);
}

/// `(a * b) * c` is `(c * b) * a`.
pub proof fn lemma_product_swap(a: int, b: int, c: int)
    ensures
        (a * b) * c == (c * b) * a,
{
    assert((a * b) * c == (c * b) * a) by (nonlinear_arith);
}

/// `(a * b) * c` is `(a * c) * b`.
pub proof fn lemma_product_turn(a: int, b: int, c: int)
    ensures
        (a * b) * c == (a * c) * b,
{
    assert((a * b) * c == (a * c) * b) by (nonlinear_arith);
}


/// The vector `right` with its parts along `f` and along the corrected `up`
/// removed, scaled so that it stays whole: by the squared lengths of `f` and
/// of `frame_up(f, up)`.
pub open spec fn frame_right(f: V3, right: V3, up: V3) -> V3 {
    let u = frame_up(f, up);
    right.scale(f.norm2() * u.norm2()).sub(f.scale(right.dot(f) * u.norm2())).sub(
        u.scale(right.dot(u) * f.norm2()),
    )
}

/// The coordinates of the vector `d` in the corrected frame of a camera,
/// before the first two are divided by the third: the three fractions
/// `d.W / right.W`, `d.U / up.U` and `d.f / f.f`, as their numerators and
/// denominators.
pub open spec fn frame_coordinates(f: V3, right: V3, up: V3, d: V3) -> ((int, int), (int, int), (
    int,
    int,
)) {
    let u = frame_up(f, up);
    let w = frame_side(f, up);
    ((d.dot(w), right.dot(w)), (d.dot(u), up.dot(u)), (d.dot(f), f.norm2()))
}

/// The dot product with a scaled vector is the scaled dot product.
pub proof fn lemma_dot_scale(x: V3, k: int, v: V3)
    ensures
        x.scale(k).dot(v) == k * x.dot(v),
{
    lemma_product_turn(x.x, k, v.x);
    lemma_product_turn(x.y, k, v.y);
    lemma_product_turn(x.z, k, v.z);
    lemma_times_sum(k, x.x * v.x, x.y * v.y, x.z * v.z);
    assert((x.x * v.x) * k == k * (x.x * v.x)) by (nonlinear_arith);
    assert((x.y * v.y) * k == k * (x.y * v.y)) by (nonlinear_arith);
    assert((x.z * v.z) * k == k * (x.z * v.z)) by (nonlinear_arith);
}

/// `k * (a + b + c)` is `k * a + k * b + k * c`.
pub proof fn lemma_times_sum(k: int, a: int, b: int, c: int)
    ensures
        k * (a + b + c) == k * a + k * b + k * c,
{
    assert(k * (a + b + c) == k * a + k * b + k * c) by (nonlinear_arith);
}

/// The dot product with a difference is the difference of the dot products.
pub proof fn lemma_dot_sub(a: V3, b: V3, v: V3)
    ensures
        a.sub(b).dot(v) == a.dot(v) - b.dot(v),
{
    lemma_difference_times(a.x, b.x, v.x);
    lemma_difference_times(a.y, b.y, v.y);
    lemma_difference_times(a.z, b.z, v.z);
}

/// The dot product does not depend on the order of the two vectors.
pub proof fn lemma_dot_commutes(a: V3, b: V3)
    ensures
        a.dot(b) == b.dot(a),
{
    assert(a.x * b.x == b.x * a.x) by (nonlinear_arith);
    assert(a.y * b.y == b.y * a.y) by (nonlinear_arith);
    assert(a.z * b.z == b.z * a.z) by (nonlinear_arith);
}

/// The coordinates of a camera invert its corrected frame: each of the three
/// corrected vectors has one coordinate that is not zero, its own.
///
/// In the corrected frame `fwd` has the coordinates 0, 0 and 1. The
/// corrected `up`, which is `frame_up(f, up)` divided by `f.f`, has 0, 1 and
/// 0. The corrected `right`, which is `frame_right(f, right, up)` divided by
/// `f.f` times `U.U`, has 1, 0 and 0. Since the coordinates of a sum are the
/// sums of the coordinates, this is what it takes to be the coordinates in
/// that frame.
pub proof fn lemma_frame_inverted(f: V3, right: V3, up: V3)
    ensures
        frame_coordinates(f, right, up, f).0.0 == 0,
        frame_coordinates(f, right, up, f).1.0 == 0,
        frame_coordinates(f, right, up, f).2.0 == frame_coordinates(f, right, up, f).2.1,
        frame_coordinates(f, right, up, frame_up(f, up)).0.0 == 0,
        frame_coordinates(f, right, up, frame_up(f, up)).1.0 == f.norm2() * frame_coordinates(
            f,
            right,
            up,
            frame_up(f, up),
        ).1.1,
        frame_coordinates(f, right, up, frame_up(f, up)).2.0 == 0,
        frame_coordinates(f, right, up, frame_right(f, right, up)).0.0 == f.norm2() * frame_up(
            f,
            up,
        ).norm2() * frame_coordinates(f, right, up, frame_right(f, right, up)).0.1,
        frame_coordinates(f, right, up, frame_right(f, right, up)).1.0 == 0,
        frame_coordinates(f, right, up, frame_right(f, right, up)).2.0 == 0,
{
    let u = frame_up(f, up);
    let w = frame_side(f, up);
    let r = frame_right(f, right, up);
    let b = f.norm2();
    let a = u.norm2();
    lemma_frame_orthogonal(f, up);
    lemma_dot_commutes(f, w);
    lemma_dot_commutes(f, u);
    lemma_dot_commutes(u, w);
    lemma_dot_commutes(up, u);
    lemma_dot_commutes(up, f);
    lemma_dot_commutes(right, w);
    // The corrected up against itself: U.U = f.f * (up.U).
    lemma_dot_sub(up.scale(b), f.scale(up.dot(f)), u);
    lemma_dot_scale(up, b, u);
    lemma_dot_scale(f, up.dot(f), u);
    assert(up.dot(f) * 0 == 0);
    assert(u.dot(u) == b * up.dot(u));
    // The corrected right against the three vectors.
    let r1 = right.scale(b * a);
    let r2 = f.scale(right.dot(f) * a);
    let r3 = u.scale(right.dot(u) * b);
    assert(r == r1.sub(r2).sub(r3));
    lemma_dot_sub(r1.sub(r2), r3, f);
    lemma_dot_sub(r1, r2, f);
    lemma_dot_scale(right, b * a, f);
    lemma_dot_scale(f, right.dot(f) * a, f);
    lemma_dot_scale(u, right.dot(u) * b, f);
    assert((b * a) * right.dot(f) == (right.dot(f) * a) * b) by (nonlinear_arith);
    assert((right.dot(u) * b) * 0 == 0);
    assert(r.dot(f) == 0);
    lemma_dot_sub(r1.sub(r2), r3, u);
    lemma_dot_sub(r1, r2, u);
    lemma_dot_scale(right, b * a, u);
    lemma_dot_scale(f, right.dot(f) * a, u);
    lemma_dot_scale(u, right.dot(u) * b, u);
    assert((b * a) * right.dot(u) == (right.dot(u) * b) * a) by (nonlinear_arith);
    assert((right.dot(f) * a) * 0 == 0);
    assert(r.dot(u) == 0);
    lemma_dot_sub(r1.sub(r2), r3, w);
    lemma_dot_sub(r1, r2, w);
    lemma_dot_scale(right, b * a, w);
    lemma_dot_scale(f, right.dot(f) * a, w);
    lemma_dot_scale(u, right.dot(u) * b, w);
    assert(r.dot(w) == (b * a) * right.dot(w));
}


/// What a camera sees of a point are the coordinates of the point, relative
/// to the eye, in the corrected frame, the first two divided by the third
/// and given a positive denominator wherever the third is positive.
pub proof fn lemma_camera_divides(eye: V3, f: V3, right: V3, up: V3, p: V3)
    ensures
        ({
            let c = camera_coordinates(eye, f, right, up, p);
            let ((xn, xd), (yn, yd), (zn, zd)) = frame_coordinates(f, right, up, p.sub(eye));
            &&& c.zn == zn
            &&& c.zd == zd
            &&& c.yn == yn * zd
            &&& c.yd == yd * zn
            &&& (c.xn == xn * zd && c.xd == xd * zn) || (c.xn == -(xn * zd) && c.xd == -(xd * zn))
        }),
{
    let d = p.sub(eye);
    let u = frame_up(f, up);
    let w = frame_side(f, up);
    lemma_dot_commutes(u, up);
    assert((-right.dot(w)) * d.dot(f) == -(right.dot(w) * d.dot(f))) by (nonlinear_arith);
}


/// The segment `q` is `s`, or a half of `s`, or a half of a half, and so
/// on: it is got from `s` by halving at the midpoint any number of times.
pub open spec fn halved_from(q: Seg3, s: Seg3) -> bool
    decreases s.extent(),
{
    q == s || (s.extent() >= 2 && (halved_from(q, first_half(s)) || halved_from(
        q,
        second_half(s),
    )))
}

/// The segment `q` is got by halving from a segment of the stack.
pub open spec fn halved_from_stack(q: Seg3, stack: Seq<Seg3>) -> bool {
    exists|m: int| 0 <= m < stack.len() && halved_from(q, #[trigger] stack[m])
}

/// The segment `q` is got by halving from a segment of one of the paths.
pub open spec fn halved_from_paths(q: Seg3, paths: Seq<Seq<V3>>) -> bool {
    exists|j: int| 0 <= j < paths.len() && halved_from_stack(q, links3(#[trigger] paths[j]))
}

/// The segment `q` is got by halving from an edge of one of the solids.
pub open spec fn halved_from_scene(q: Seg3, shapes: Seq<Shape>) -> bool {
    exists|i: int|
        0 <= i < shapes.len() && halved_from_paths(q, shape_paths(#[trigger] shapes[i]))
}

/// Every piece that is drawn of a segment is got from it by halving.
pub proof fn lemma_pieces_halved(cam: Camera, shapes: Seq<Shape>, s: Seg3, k: int)
    requires
        0 <= k < pieces(cam, shapes, s).len(),
    ensures
        halved_from(pieces(cam, shapes, s)[k], s),
    decreases s.extent(),
{
    match verdict(cam, shapes, s) {
        Verdict::Discard => {},
        Verdict::Emit => {},
        Verdict::Split => {
            let first = pieces(cam, shapes, first_half(s));
            if k < first.len() {
                lemma_pieces_halved(cam, shapes, first_half(s), k);
            } else {
                lemma_pieces_halved(cam, shapes, second_half(s), k - first.len());
            }
        },
    }
}

/// Every piece that is drawn of a stack of segments is got by halving from
/// a segment of the stack.
pub proof fn lemma_drain_halved(cam: Camera, shapes: Seq<Shape>, stack: Seq<Seg3>, k: int)
    requires
        0 <= k < drain(cam, shapes, stack).len(),
    ensures
        halved_from_stack(drain(cam, shapes, stack)[k], stack),
    decreases stack.len(),
{
    let first = pieces(cam, shapes, stack.last());
    let q = drain(cam, shapes, stack)[k];
    if k < first.len() {
        lemma_pieces_halved(cam, shapes, stack.last(), k);
        assert(halved_from(q, stack[stack.len() - 1]));
    } else {
        let rest = stack.drop_last();
        lemma_drain_halved(cam, shapes, rest, k - first.len());
        let m = choose|m: int| 0 <= m < rest.len() && halved_from(q, #[trigger] rest[m]);
        assert(rest[m] == stack[m]);
    }
}

/// Every piece that is drawn of a list of paths is got by halving from a
/// segment of one of the paths.
pub proof fn lemma_paths_halved(
    cam: Camera,
    shapes: Seq<Shape>,
    paths: Seq<Seq<V3>>,
    j: int,
    k: int,
)
    requires
        0 <= j,
        0 <= k < paths_pieces(cam, shapes, paths, j).len(),
    ensures
        halved_from_paths(paths_pieces(cam, shapes, paths, j)[k], paths),
    decreases paths.len() - j,
{
    let first = drain(cam, shapes, links3(paths[j]));
    if k < first.len() {
        lemma_drain_halved(cam, shapes, links3(paths[j]), k);
    } else {
        lemma_paths_halved(cam, shapes, paths, j + 1, k - first.len());
    }
}

/// Every stroke that one solid is rendered to is the image of a piece got
/// by halving from an edge of that solid, and that piece is one that is
/// drawn as it is: in view, with one end at least no nearer than the near
/// plane, and with an image no longer than `lmax` unless the piece is too
/// short to be split.
pub proof fn lemma_shape_pieces(cam: Camera, shapes: Seq<Shape>, solid: Shape, k: int)
    requires
        0 <= k < shape_pieces(cam, shapes, solid).len(),
    ensures
        ({
            let q = shape_pieces(cam, shapes, solid)[k];
            &&& halved_from_paths(q, shape_paths(solid))
            &&& verdict(cam, shapes, q) is Emit
            &&& flats(cam, shape_pieces(cam, shapes, solid))[k] == cam.projected(q).unwrap()
            &&& !(cam.sees(q.a).too_near() && cam.sees(q.b).too_near())
            &&& cam.projected(q).unwrap().len2() <= cam.lmax || q.extent() < 2
        }),
{
    lemma_paths_halved(cam, shapes, shape_paths(solid), 0, k);
    lemma_paths_emitted(cam, shapes, shape_paths(solid), 0, k);
}

/// Every piece that is drawn of a scene is got by halving from an edge of
/// one of its solids.
pub proof fn lemma_scene_halved(cam: Camera, shapes: Seq<Shape>, i: int, k: int)
    requires
        0 <= i,
        0 <= k < scene_pieces(cam, shapes, i).len(),
    ensures
        halved_from_scene(scene_pieces(cam, shapes, i)[k], shapes),
    decreases shapes.len() - i,
{
    let first = shape_pieces(cam, shapes, shapes[i]);
    if k < first.len() {
        lemma_paths_halved(cam, shapes, shape_paths(shapes[i]), 0, k);
    } else {
        lemma_scene_halved(cam, shapes, i + 1, k - first.len());
    }
}

} // verus!
