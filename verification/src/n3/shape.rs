//! The solids of a scene: their wireframes, and where a ray meets them.
//!
//! A ray is the set of points `origin + t * direction`. Its parameter `t` is
//! handled as an exact fraction, so that every decision is the decision that
//! the geometry dictates.
use crate::arith::{isqrt, sqrt_floor};
use crate::nbase::bounds::Bounds;
use crate::nbase::point::{lemma_mul_bound, Point, SPACE_MAX, V3};
use crate::nbase::polyline::PolyLine;
use vstd::prelude::*;

verus! {

/// A half-line from `origin` along `direction`.
#[derive(Clone, Copy, Debug)]
pub struct Ray {
    pub origin: Point<3>,
    pub direction: Point<3>,
}

/// A fraction `num / den` with a positive denominator.
#[derive(Clone, Copy, Debug)]
pub struct Frac {
    pub num: i128,
    pub den: i128,
}

/// Where a ray meets a solid: the parameter `num / den` of the ray. A hit
/// with denominator zero stands for a ray without direction that starts
/// inside the solid and never leaves it.
#[derive(Clone, Copy, Debug, PartialEq, Eq)]
pub struct Hit {
    pub num: i128,
    pub den: i128,
}

/// The smallest ray parameter, in thousandths, at which a ray can meet a
/// solid: what is nearer counts as the ray's own origin.
pub const RAY_EPSILON_DEN: i128 = 1000;

/// The first fraction is smaller than the second.
pub open spec fn frac_lt(a: Frac, b: Frac) -> bool {
    a.num * b.den < b.num * a.den
}

/// The first fraction is at most the second.
pub open spec fn frac_le(a: Frac, b: Frac) -> bool {
    a.num * b.den <= b.num * a.den
}

/// The larger of two fractions; the second where they are equal.
pub open spec fn frac_max(a: Frac, b: Frac) -> Frac {
    if frac_le(a, b) {
        b
    } else {
        a
    }
}

/// The smaller of two fractions; the first where they are equal.
pub open spec fn frac_min(a: Frac, b: Frac) -> Frac {
    if frac_le(a, b) {
        a
    } else {
        b
    }
}

/// The smallest parameter that counts: a thousandth.
pub open spec fn epsilon() -> Frac {
    Frac { num: 1, den: RAY_EPSILON_DEN }
}

/// The ray parameters at which a ray is between two parallel planes, or
/// between several such pairs.
#[derive(Clone, Copy, Debug)]
pub enum Slab {
    /// At no parameter.
    Blocked,
    /// At every parameter.
    Free,
    /// From the first parameter to the second; at none if the first is the
    /// larger.
    Between(Frac, Frac),
}

/// The parameters at which a ray, which on one axis starts at `o` and moves
/// by `dir`, is between the planes `lo` and `hi` of that axis.
///
/// A ray that does not move along the axis is between the planes always or
/// never: always if it starts strictly between them, or on both at once.
pub open spec fn slab(lo: int, hi: int, o: int, dir: int) -> Slab {
    if dir == 0 {
        if (lo < o && o < hi) || (lo == o && o == hi) {
            Slab::Free
        } else {
            Slab::Blocked
        }
    } else {
        let tn = if dir > 0 {
            Frac { num: (lo - o) as i128, den: dir as i128 }
        } else {
            Frac { num: (o - lo) as i128, den: (-dir) as i128 }
        };
        let tf = if dir > 0 {
            Frac { num: (hi - o) as i128, den: dir as i128 }
        } else {
            Frac { num: (o - hi) as i128, den: (-dir) as i128 }
        };
        Slab::Between(frac_min(tf, tn), frac_max(tf, tn))
    }
}

/// The parameters that lie in both ranges.
pub open spec fn meet(a: Slab, b: Slab) -> Slab {
    match (a, b) {
        (Slab::Blocked, _) => Slab::Blocked,
        (_, Slab::Blocked) => Slab::Blocked,
        (Slab::Free, _) => b,
        (_, Slab::Free) => a,
        (Slab::Between(e1, x1), Slab::Between(e2, x2)) => Slab::Between(
            frac_max(e1, e2),
            frac_min(x1, x2),
        ),
    }
}

/// An axis-aligned box.
#[derive(Clone, Copy, Debug)]
pub struct AABox {
    pub bounds: Bounds<3>,
}

/// The parameters at which the ray is inside the box: on every axis between
/// the two faces of that axis.
pub open spec fn box_range(b: AABox, r: Ray) -> Slab {
    meet(
        meet(
            slab(b.bounds.min@.x, b.bounds.max@.x, r.origin@.x, r.direction@.x),
            slab(b.bounds.min@.y, b.bounds.max@.y, r.origin@.y, r.direction@.y),
        ),
        slab(b.bounds.min@.z, b.bounds.max@.z, r.origin@.z, r.direction@.z),
    )
}

/// Where the ray meets the box.
///
/// A ray that is inside the box at its origin, or enters it before the
/// smallest parameter that counts, meets it where it leaves, if that is
/// beyond the smallest parameter. A ray that enters the box later meets it
/// where it enters, if it is inside for more than an instant.
pub open spec fn box_intersect(b: AABox, r: Ray) -> Option<Hit> {
    match box_range(b, r) {
        Slab::Blocked => None,
        Slab::Free => Some(Hit { num: 1, den: 0 }),
        Slab::Between(t0, t1) => if frac_lt(t0, epsilon()) && frac_lt(epsilon(), t1) {
            Some(Hit { num: t1.num, den: t1.den })
        } else if frac_le(epsilon(), t0) && frac_lt(t0, t1) {
            Some(Hit { num: t0.num, den: t0.den })
        } else {
            None
        },
    }
}

/// A fraction whose numerator and denominator stay far from the limits of
/// the machine integers.
pub open spec fn frac_small(f: Frac) -> bool {
    -0x1_0000_0000 <= f.num <= 0x1_0000_0000 && 0 < f.den <= 0x1_0000_0000
}

/// A range whose fractions are small.
pub open spec fn slab_small(s: Slab) -> bool {
    s matches Slab::Between(e, x) ==> frac_small(e) && frac_small(x)
}

/// Whether the first fraction is at most the second.
fn le(a: Frac, b: Frac) -> (r: bool)
    requires
        frac_small(a),
        frac_small(b),
    ensures
        r == frac_le(a, b),
{
    proof {
        lemma_mul_bound(a.num as int, b.den as int, 0x1_0000_0000, 0x1_0000_0000);
        lemma_mul_bound(b.num as int, a.den as int, 0x1_0000_0000, 0x1_0000_0000);
    }
    a.num * b.den <= b.num * a.den
}

/// Whether the first fraction is smaller than the second.
fn lt(a: Frac, b: Frac) -> (r: bool)
    requires
        frac_small(a),
        frac_small(b),
    ensures
        r == frac_lt(a, b),
{
    proof {
        lemma_mul_bound(a.num as int, b.den as int, 0x1_0000_0000, 0x1_0000_0000);
        lemma_mul_bound(b.num as int, a.den as int, 0x1_0000_0000, 0x1_0000_0000);
    }
    a.num * b.den < b.num * a.den
}

/// The range of one axis.
fn slab_of(lo: i64, hi: i64, o: i64, dir: i64) -> (s: Slab)
    requires
        -SPACE_MAX <= lo <= SPACE_MAX,
        -SPACE_MAX <= hi <= SPACE_MAX,
        -SPACE_MAX <= o <= SPACE_MAX,
        -2 * SPACE_MAX <= dir <= 2 * SPACE_MAX,
    ensures
        s == slab(lo as int, hi as int, o as int, dir as int),
        slab_small(s),
{
    if dir == 0 {
        if (lo < o && o < hi) || (lo == o && o == hi) {
            Slab::Free
        } else {
            Slab::Blocked
        }
    } else {
        let tn = if dir > 0 {
            Frac { num: (lo - o) as i128, den: dir as i128 }
        } else {
            Frac { num: (o - lo) as i128, den: (-dir) as i128 }
        };
        let tf = if dir > 0 {
            Frac { num: (hi - o) as i128, den: dir as i128 }
        } else {
            Frac { num: (o - hi) as i128, den: (-dir) as i128 }
        };
        if le(tf, tn) {
            Slab::Between(tf, tn)
        } else {
            Slab::Between(tn, tf)
        }
    }
}

/// The parameters that lie in both ranges.
fn meet_of(a: Slab, b: Slab) -> (s: Slab)
    requires
        slab_small(a),
        slab_small(b),
    ensures
        s == meet(a, b),
        slab_small(s),
{
    match a {
        Slab::Blocked => Slab::Blocked,
        Slab::Free => b,
        Slab::Between(e1, x1) => match b {
            Slab::Blocked => Slab::Blocked,
            Slab::Free => a,
            Slab::Between(e2, x2) => {
                let e = if le(e1, e2) {
                    e2
                } else {
                    e1
                };
                let x = if le(x1, x2) {
                    x1
                } else {
                    x2
                };
                Slab::Between(e, x)
            },
        },
    }
}

impl Ray {
    /// The origin is a well-formed point, and the direction is the
    /// difference of two well-formed points.
    pub open spec fn wf(self) -> bool {
        self.origin.wf() && self.direction@.within(2 * SPACE_MAX)
    }
}

impl AABox {
    /// Both corners are well-formed points.
    pub open spec fn wf(self) -> bool {
        self.bounds.wf()
    }

    /// Where the ray meets the box.
    pub fn intersect(&self, ray: &Ray) -> (r: Option<Hit>)
        requires
            self.wf(),
            ray.wf(),
        ensures
            r == box_intersect(*self, *ray),
    {
        let sx = slab_of(
            self.bounds.min.vs[0],
            self.bounds.max.vs[0],
            ray.origin.vs[0],
            ray.direction.vs[0],
        );
        let sy = slab_of(
            self.bounds.min.vs[1],
            self.bounds.max.vs[1],
            ray.origin.vs[1],
            ray.direction.vs[1],
        );
        let sz = slab_of(
            self.bounds.min.vs[2],
            self.bounds.max.vs[2],
            ray.origin.vs[2],
            ray.direction.vs[2],
        );
        match meet_of(meet_of(sx, sy), sz) {
            Slab::Blocked => None,
            Slab::Free => Some(Hit { num: 1, den: 0 }),
            Slab::Between(t0, t1) => {
                let eps = Frac { num: 1, den: RAY_EPSILON_DEN };
                if lt(t0, eps) && lt(eps, t1) {
                    Some(Hit { num: t1.num, den: t1.den })
                } else if le(eps, t0) && lt(t0, t1) {
                    Some(Hit { num: t0.num, den: t0.den })
                } else {
                    None
                }
            },
        }
    }

    /// Whether the box, grown by `tol` on every side, holds the point.
    pub fn contains(&self, x: Point<3>, tol: i64) -> (r: bool)
        requires
            self.wf(),
            -0x4000_0000_0000_0000 <= tol <= 0x4000_0000_0000_0000,
        ensures
            r == (self.bounds.min@.x - tol <= x@.x <= self.bounds.max@.x + tol
                && self.bounds.min@.y - tol <= x@.y <= self.bounds.max@.y + tol
                && self.bounds.min@.z - tol <= x@.z <= self.bounds.max@.z + tol),
    {
        self.bounds.expand_by(tol).contains(x)
    }

    /// The box itself.
    pub fn bounds(&self) -> (r: Bounds<3>)
        ensures
            r == self.bounds,
    {
        self.bounds
    }

    /// Prepares the box for rendering; a box needs no preparation.
    pub fn compile(&self) {
    }
}


/// The point with the given coordinates.
fn corner(x: i64, y: i64, z: i64) -> (p: Point<3>)
    ensures
        p@ == (V3 { x: x as int, y: y as int, z: z as int }),
{
    Point { vs: [x, y, z] }
}

/// The chain of the two points.
fn edge(a: Point<3>, b: Point<3>) -> (pl: PolyLine<3>)
    ensures
        pl@ == seq![a@, b@],
        pl.ps@ == seq![a, b],
{
    let mut ps: Vec<Point<3>> = Vec::new();
    ps.push(a);
    ps.push(b);
    let pl = PolyLine { ps };
    assert(pl@ =~= seq![a@, b@]);
    assert(pl.ps@ =~= seq![a, b]);
    pl
}

/// The twelve edges of the box between two corners, each as its two end
/// points: first the three edges from the lowest corner, last the three
/// edges into the highest.
pub open spec fn box_edges(lo: V3, hi: V3) -> Seq<Seq<V3>> {
    seq![
        seq![V3 { x: lo.x, y: lo.y, z: lo.z }, V3 { x: lo.x, y: lo.y, z: hi.z }],
        seq![V3 { x: lo.x, y: lo.y, z: lo.z }, V3 { x: lo.x, y: hi.y, z: lo.z }],
        seq![V3 { x: lo.x, y: lo.y, z: lo.z }, V3 { x: hi.x, y: lo.y, z: lo.z }],
        seq![V3 { x: lo.x, y: lo.y, z: hi.z }, V3 { x: lo.x, y: hi.y, z: hi.z }],
        seq![V3 { x: lo.x, y: lo.y, z: hi.z }, V3 { x: hi.x, y: lo.y, z: hi.z }],
        seq![V3 { x: lo.x, y: hi.y, z: lo.z }, V3 { x: lo.x, y: hi.y, z: hi.z }],
        seq![V3 { x: lo.x, y: hi.y, z: lo.z }, V3 { x: hi.x, y: hi.y, z: lo.z }],
        seq![V3 { x: lo.x, y: hi.y, z: hi.z }, V3 { x: hi.x, y: hi.y, z: hi.z }],
        seq![V3 { x: hi.x, y: lo.y, z: lo.z }, V3 { x: hi.x, y: lo.y, z: hi.z }],
        seq![V3 { x: hi.x, y: lo.y, z: lo.z }, V3 { x: hi.x, y: hi.y, z: lo.z }],
        seq![V3 { x: hi.x, y: lo.y, z: hi.z }, V3 { x: hi.x, y: hi.y, z: hi.z }],
        seq![V3 { x: hi.x, y: hi.y, z: lo.z }, V3 { x: hi.x, y: hi.y, z: hi.z }],
    ]
}

/// The views of the polylines of a vector.
pub open spec fn paths_view(v: Seq<PolyLine<3>>) -> Seq<Seq<V3>> {
    Seq::new(v.len(), |i: int| v[i]@)
}

/// Every polyline of the vector is made of well-formed points.
pub open spec fn paths_wf(v: Seq<PolyLine<3>>) -> bool {
    forall|i: int| 0 <= i < v.len() ==> (#[trigger] v[i]).wf()
}

impl AABox {
    /// The wireframe: the twelve edges.
    pub fn paths(&self) -> (r: Vec<PolyLine<3>>)
        ensures
            paths_view(r@) == box_edges(self.bounds.min@, self.bounds.max@),
            self.wf() ==> paths_wf(r@),
    {
        let x1 = self.bounds.min.vs[0];
        let y1 = self.bounds.min.vs[1];
        let z1 = self.bounds.min.vs[2];
        let x2 = self.bounds.max.vs[0];
        let y2 = self.bounds.max.vs[1];
        let z2 = self.bounds.max.vs[2];
        let mut r: Vec<PolyLine<3>> = Vec::new();
        r.push(edge(corner(x1, y1, z1), corner(x1, y1, z2)));
        r.push(edge(corner(x1, y1, z1), corner(x1, y2, z1)));
        r.push(edge(corner(x1, y1, z1), corner(x2, y1, z1)));
        r.push(edge(corner(x1, y1, z2), corner(x1, y2, z2)));
        r.push(edge(corner(x1, y1, z2), corner(x2, y1, z2)));
        r.push(edge(corner(x1, y2, z1), corner(x1, y2, z2)));
        r.push(edge(corner(x1, y2, z1), corner(x2, y2, z1)));
        r.push(edge(corner(x1, y2, z2), corner(x2, y2, z2)));
        r.push(edge(corner(x2, y1, z1), corner(x2, y1, z2)));
        r.push(edge(corner(x2, y1, z1), corner(x2, y2, z1)));
        r.push(edge(corner(x2, y1, z2), corner(x2, y2, z2)));
        r.push(edge(corner(x2, y2, z1), corner(x2, y2, z2)));
        assert(paths_view(r@) =~= box_edges(self.bounds.min@, self.bounds.max@));
        proof {
            if self.wf() {
                assert forall|i: int| 0 <= i < r@.len() implies (#[trigger] r@[i]).wf() by {
                    let pl = r@[i];
                    assert(pl.ps@.len() == 2);
                    assert forall|j: int| 0 <= j < pl.ps@.len() implies (#[trigger] pl.ps@[j]).wf() by {
                        assert(pl.ps@[0].wf());
                        assert(pl.ps@[1].wf());
                    }
                }
            }
        }
        r
    }
}

/// A ball.
#[derive(Clone, Copy, Debug)]
pub struct Sphere {
    pub center: Point<3>,
    pub radius: i64,
}

/// The radius that rays are tested against: the radius shrunk by half a
/// hundredth, so that a ray that grazes the ball does not hit it.
pub open spec fn shrunk_radius(radius: int) -> int {
    (radius * 995) / 1000
}

/// The discriminant of the ray against the shrunk ball.
pub open spec fn sphere_discriminant(s: Sphere, r: Ray) -> int {
    let u = r.direction@;
    let d = r.origin@.sub(s.center@);
    let r2 = shrunk_radius(s.radius as int) * shrunk_radius(s.radius as int);
    d.dot(u) * d.dot(u) - (d.norm2() - r2) * u.norm2()
}

/// Where the ray meets the ball.
///
/// With `u` the direction, `d` the origin relative to the centre and `D` the
/// discriminant, the ray meets the surface at `(-d.u - sqrt D) / u.u` and at
/// `(-d.u + sqrt D) / u.u`. The hit is the nearer of the two that is not
/// below the smallest parameter that counts; that decision is exact. The
/// parameter reported has the square root of `D`, in thousandths, rounded
/// down.
pub open spec fn sphere_intersect(s: Sphere, r: Ray) -> Option<Hit> {
    let u = r.direction@;
    let d = r.origin@.sub(s.center@);
    let du = d.dot(u);
    let u2 = u.norm2();
    let discr = sphere_discriminant(s, r);
    let root = sqrt_floor(1_000_000 * discr);
    let near = -1000 * du - u2;
    let far = 1000 * du + u2;
    if discr < 0 || u2 == 0 {
        None
    } else if near >= 0 && 1_000_000 * discr <= near * near {
        Some(Hit { num: (-1000 * du - root) as i128, den: (1000 * u2) as i128 })
    } else if far <= 0 || 1_000_000 * discr >= far * far {
        Some(Hit { num: (-1000 * du + root) as i128, den: (1000 * u2) as i128 })
    } else {
        None
    }
}

impl Sphere {
    /// The centre is a well-formed point and the radius is not negative and
    /// within the coordinate range.
    pub open spec fn wf(self) -> bool {
        self.center.wf() && 0 <= self.radius <= SPACE_MAX
    }

    /// Where the ray meets the ball.
    pub fn intersect(&self, ray: &Ray) -> (r: Option<Hit>)
        requires
            self.wf(),
            ray.wf(),
        ensures
            r == sphere_intersect(*self, *ray),
    {
        let ux: i128 = ray.direction.vs[0] as i128;
        let uy: i128 = ray.direction.vs[1] as i128;
        let uz: i128 = ray.direction.vs[2] as i128;
        let dx: i128 = ray.origin.vs[0] as i128 - self.center.vs[0] as i128;
        let dy: i128 = ray.origin.vs[1] as i128 - self.center.vs[1] as i128;
        let dz: i128 = ray.origin.vs[2] as i128 - self.center.vs[2] as i128;
        proof {
            lemma_mul_bound(dx as int, ux as int, 0x200_0000, 0x200_0000);
            lemma_mul_bound(dy as int, uy as int, 0x200_0000, 0x200_0000);
            lemma_mul_bound(dz as int, uz as int, 0x200_0000, 0x200_0000);
            lemma_mul_bound(dx as int, dx as int, 0x200_0000, 0x200_0000);
            lemma_mul_bound(dy as int, dy as int, 0x200_0000, 0x200_0000);
            lemma_mul_bound(dz as int, dz as int, 0x200_0000, 0x200_0000);
            lemma_mul_bound(ux as int, ux as int, 0x200_0000, 0x200_0000);
            lemma_mul_bound(uy as int, uy as int, 0x200_0000, 0x200_0000);
            lemma_mul_bound(uz as int, uz as int, 0x200_0000, 0x200_0000);
            crate::nbase::line_merger::lemma_square_nonneg(ux as int);
            crate::nbase::line_merger::lemma_square_nonneg(uy as int);
            crate::nbase::line_merger::lemma_square_nonneg(uz as int);
            crate::nbase::line_merger::lemma_square_nonneg(dx as int);
            crate::nbase::line_merger::lemma_square_nonneg(dy as int);
            crate::nbase::line_merger::lemma_square_nonneg(dz as int);
        }
        let du: i128 = dx * ux + dy * uy + dz * uz;
        let d2: i128 = dx * dx + dy * dy + dz * dz;
        let u2: i128 = ux * ux + uy * uy + uz * uz;
        let rs: i128 = ((self.radius as i128) * 995) / 1000;
        proof {
            lemma_mul_bound(rs as int, rs as int, 0x100_0000, 0x100_0000);
            lemma_mul_bound(du as int, du as int, 0xc_0000_0000_0000, 0xc_0000_0000_0000);
            crate::nbase::line_merger::lemma_square_nonneg(rs as int);
            crate::nbase::line_merger::lemma_square_nonneg(du as int);
        }
        let r2: i128 = rs * rs;
        proof {
            lemma_mul_bound(d2 - r2, u2 as int, 0xc_0000_0000_0000, 0xc_0000_0000_0000);
        }
        let discr: i128 = du * du - (d2 - r2) * u2;
        if discr < 0 || u2 == 0 {
            return None;
        }
        let scaled: i128 = 1_000_000 * discr;
        let root = isqrt(scaled as u128);
        let near: i128 = -1000 * du - u2;
        let far: i128 = 1000 * du + u2;
        proof {
            lemma_mul_bound(near as int, near as int, 0x2ef0_0000_0000_0000, 0x2ef0_0000_0000_0000);
            lemma_mul_bound(far as int, far as int, 0x2ef0_0000_0000_0000, 0x2ef0_0000_0000_0000);
        }
        if near >= 0 && scaled <= near * near {
            Some(Hit { num: -1000 * du - root as i128, den: 1000 * u2 })
        } else if far <= 0 || scaled >= far * far {
            Some(Hit { num: -1000 * du + root as i128, den: 1000 * u2 })
        } else {
            None
        }
    }

    /// Whether the point lies within the ball whose radius is `tol` shorter.
    pub fn contains(&self, x: Point<3>, tol: i64) -> (r: bool)
        requires
            self.wf(),
            x.wf(),
            -0x4000_0000 <= tol <= 0x4000_0000,
        ensures
            r == (x@.sub(self.center@).norm2() < (self.radius - tol) * (self.radius - tol)),
    {
        let dx: i128 = x.vs[0] as i128 - self.center.vs[0] as i128;
        let dy: i128 = x.vs[1] as i128 - self.center.vs[1] as i128;
        let dz: i128 = x.vs[2] as i128 - self.center.vs[2] as i128;
        let rt: i128 = self.radius as i128 - tol as i128;
        proof {
            lemma_mul_bound(dx as int, dx as int, 0x200_0000, 0x200_0000);
            lemma_mul_bound(dy as int, dy as int, 0x200_0000, 0x200_0000);
            lemma_mul_bound(dz as int, dz as int, 0x200_0000, 0x200_0000);
            lemma_mul_bound(rt as int, rt as int, 0x8000_0000, 0x8000_0000);
        }
        dx * dx + dy * dy + dz * dz < rt * rt
    }

    /// The smallest box around the ball.
    pub fn bounds(&self) -> (r: Bounds<3>)
        requires
            self.wf(),
        ensures
            r.min@ == self.center@.sub(
                V3 { x: self.radius as int, y: self.radius as int, z: self.radius as int },
            ),
            r.max@ == self.center@.add(
                V3 { x: self.radius as int, y: self.radius as int, z: self.radius as int },
            ),
    {
        let r = self.radius;
        Bounds {
            min: Point { vs: [self.center.vs[0] - r, self.center.vs[1] - r, self.center.vs[2] - r] },
            max: Point { vs: [self.center.vs[0] + r, self.center.vs[1] + r, self.center.vs[2] + r] },
        }
    }

    /// Prepares the ball for rendering; a ball needs no preparation.
    pub fn compile(&self) {
    }
}


/// The fraction `an / ad` is at most `bn / bd`; both denominators positive.
pub open spec fn q_le(an: int, ad: int, bn: int, bd: int) -> bool {
    an * bd <= bn * ad
}

/// The fraction `an / ad` is smaller than `bn / bd`; both denominators
/// positive.
pub open spec fn q_lt(an: int, ad: int, bn: int, bd: int) -> bool {
    an * bd < bn * ad
}

/// The parameter `n / d` lies in the range, ends included.
pub open spec fn in_range(s: Slab, n: int, d: int) -> bool {
    match s {
        Slab::Blocked => false,
        Slab::Free => true,
        Slab::Between(e, x) => q_le(e.num as int, e.den as int, n, d) && q_le(
            n,
            d,
            x.num as int,
            x.den as int,
        ),
    }
}

/// The parameter `n / d` lies in the range, ends excluded.
pub open spec fn in_open_range(s: Slab, n: int, d: int) -> bool {
    match s {
        Slab::Blocked => false,
        Slab::Free => true,
        Slab::Between(e, x) => q_lt(e.num as int, e.den as int, n, d) && q_lt(
            n,
            d,
            x.num as int,
            x.den as int,
        ),
    }
}

/// The denominators of the range are positive.
pub open spec fn slab_proper(s: Slab) -> bool {
    s matches Slab::Between(e, x) ==> e.den > 0 && x.den > 0
}

/// On one axis, the point of the ray at the parameter `n / d` is between the
/// planes `lo` and `hi`, planes included. The point is taken `d` times over,
/// so that no division is needed.
pub open spec fn axis_within(lo: int, hi: int, o: int, dir: int, n: int, d: int) -> bool {
    lo * d <= o * d + n * dir <= hi * d
}

/// On one axis, the point of the ray at the parameter `n / d` is strictly
/// between the planes `lo` and `hi`.
pub open spec fn axis_inside(lo: int, hi: int, o: int, dir: int, n: int, d: int) -> bool {
    lo * d < o * d + n * dir < hi * d
}

/// The point of the ray at the parameter `n / d` is in the box, faces
/// included.
pub open spec fn within_at(b: AABox, r: Ray, n: int, d: int) -> bool {
    &&& axis_within(b.bounds.min@.x, b.bounds.max@.x, r.origin@.x, r.direction@.x, n, d)
    &&& axis_within(b.bounds.min@.y, b.bounds.max@.y, r.origin@.y, r.direction@.y, n, d)
    &&& axis_within(b.bounds.min@.z, b.bounds.max@.z, r.origin@.z, r.direction@.z, n, d)
}

/// The point of the ray at the parameter `n / d` is in the interior of the
/// box.
pub open spec fn inside_at(b: AABox, r: Ray, n: int, d: int) -> bool {
    &&& axis_inside(b.bounds.min@.x, b.bounds.max@.x, r.origin@.x, r.direction@.x, n, d)
    &&& axis_inside(b.bounds.min@.y, b.bounds.max@.y, r.origin@.y, r.direction@.y, n, d)
    &&& axis_inside(b.bounds.min@.z, b.bounds.max@.z, r.origin@.z, r.direction@.z, n, d)
}

/// The lowest corner of the box is nowhere above the highest.
pub open spec fn box_ordered(b: AABox) -> bool {
    b.bounds.min@.x <= b.bounds.max@.x && b.bounds.min@.y <= b.bounds.max@.y && b.bounds.min@.z
        <= b.bounds.max@.z
}

/// `a <= b` and `b <= c` give `a <= c`, for fractions.
pub proof fn lemma_q_le_trans(an: int, ad: int, bn: int, bd: int, cn: int, cd: int)
    requires
        ad > 0,
        bd > 0,
        cd > 0,
        q_le(an, ad, bn, bd),
        q_le(bn, bd, cn, cd),
    ensures
        q_le(an, ad, cn, cd),
{
    assert((an * bd) * cd <= (bn * ad) * cd) by (nonlinear_arith)
        requires
            an * bd <= bn * ad,
            cd > 0,
    ;
    assert((bn * cd) * ad <= (cn * bd) * ad) by (nonlinear_arith)
        requires
            bn * cd <= cn * bd,
            ad > 0,
    ;
    assert((bn * ad) * cd == (bn * cd) * ad) by (nonlinear_arith);
    assert((an * bd) * cd == (an * cd) * bd) by (nonlinear_arith);
    assert((cn * bd) * ad == (cn * ad) * bd) by (nonlinear_arith);
    assert(an * cd <= cn * ad) by (nonlinear_arith)
        requires
            (an * cd) * bd <= (cn * ad) * bd,
            bd > 0,
    ;
}

/// `a < b` and `b <= c` give `a < c`, for fractions.
pub proof fn lemma_q_lt_le_trans(an: int, ad: int, bn: int, bd: int, cn: int, cd: int)
    requires
        ad > 0,
        bd > 0,
        cd > 0,
        q_lt(an, ad, bn, bd),
        q_le(bn, bd, cn, cd),
    ensures
        q_lt(an, ad, cn, cd),
{
    assert((an * bd) * cd < (bn * ad) * cd) by (nonlinear_arith)
        requires
            an * bd < bn * ad,
            cd > 0,
    ;
    assert((bn * cd) * ad <= (cn * bd) * ad) by (nonlinear_arith)
        requires
            bn * cd <= cn * bd,
            ad > 0,
    ;
    assert((bn * ad) * cd == (bn * cd) * ad) by (nonlinear_arith);
    assert((an * bd) * cd == (an * cd) * bd) by (nonlinear_arith);
    assert((cn * bd) * ad == (cn * ad) * bd) by (nonlinear_arith);
    assert(an * cd < cn * ad) by (nonlinear_arith)
        requires
            (an * cd) * bd < (cn * ad) * bd,
            bd > 0,
    ;
}

/// `a <= b` and `b < c` give `a < c`, for fractions.
pub proof fn lemma_q_le_lt_trans(an: int, ad: int, bn: int, bd: int, cn: int, cd: int)
    requires
        ad > 0,
        bd > 0,
        cd > 0,
        q_le(an, ad, bn, bd),
        q_lt(bn, bd, cn, cd),
    ensures
        q_lt(an, ad, cn, cd),
{
    assert((an * bd) * cd <= (bn * ad) * cd) by (nonlinear_arith)
        requires
            an * bd <= bn * ad,
            cd > 0,
    ;
    assert((bn * cd) * ad < (cn * bd) * ad) by (nonlinear_arith)
        requires
            bn * cd < cn * bd,
            ad > 0,
    ;
    assert((bn * ad) * cd == (bn * cd) * ad) by (nonlinear_arith);
    assert((an * bd) * cd == (an * cd) * bd) by (nonlinear_arith);
    assert((cn * bd) * ad == (cn * ad) * bd) by (nonlinear_arith);
    assert(an * cd < cn * ad) by (nonlinear_arith)
        requires
            (an * cd) * bd < (cn * ad) * bd,
            bd > 0,
    ;
}

/// On an axis along which the ray moves, the parameters of the range are
/// exactly those at which the ray is between the two planes.
pub proof fn lemma_axis_range(lo: int, hi: int, o: int, dir: int, n: int, d: int)
    requires
        -SPACE_MAX <= lo <= hi <= SPACE_MAX,
        -SPACE_MAX <= o <= SPACE_MAX,
        -2 * SPACE_MAX <= dir <= 2 * SPACE_MAX,
        dir != 0,
        d > 0,
    ensures
        slab(lo, hi, o, dir) is Between,
        slab_proper(slab(lo, hi, o, dir)),
        in_range(slab(lo, hi, o, dir), n, d) == axis_within(lo, hi, o, dir, n, d),
        in_open_range(slab(lo, hi, o, dir), n, d) == axis_inside(lo, hi, o, dir, n, d),
{
    assert((lo - o) * d == lo * d - o * d) by (nonlinear_arith);
    assert((hi - o) * d == hi * d - o * d) by (nonlinear_arith);
    assert((o - lo) * d == o * d - lo * d) by (nonlinear_arith);
    assert((o - hi) * d == o * d - hi * d) by (nonlinear_arith);
    assert(n * (-dir) == -(n * dir)) by (nonlinear_arith);
    if dir > 0 {
        let tn = Frac { num: (lo - o) as i128, den: dir as i128 };
        let tf = Frac { num: (hi - o) as i128, den: dir as i128 };
        assert(frac_le(tn, tf)) by (nonlinear_arith)
            requires
                tn.num <= tf.num,
                tn.den == tf.den,
                tn.den > 0,
        ;
        if frac_le(tf, tn) {
            assert(tf.num == tn.num) by (nonlinear_arith)
                requires
                    tf.num * tn.den <= tn.num * tf.den,
                    tn.num <= tf.num,
                    tn.den == tf.den,
                    tn.den > 0,
            ;
        }
    } else {
        let tn = Frac { num: (o - lo) as i128, den: (-dir) as i128 };
        let tf = Frac { num: (o - hi) as i128, den: (-dir) as i128 };
        assert(frac_le(tf, tn)) by (nonlinear_arith)
            requires
                tf.num <= tn.num,
                tn.den == tf.den,
                tn.den > 0,
        ;
    }
}

/// A parameter lies in the meet of two ranges exactly if it lies in both.
pub proof fn lemma_meet_range(a: Slab, b: Slab, n: int, d: int)
    requires
        slab_proper(a),
        slab_proper(b),
        d > 0,
    ensures
        slab_proper(meet(a, b)),
        in_range(meet(a, b), n, d) == (in_range(a, n, d) && in_range(b, n, d)),
        in_open_range(meet(a, b), n, d) == (in_open_range(a, n, d) && in_open_range(b, n, d)),
{
    match (a, b) {
        (Slab::Between(e1, x1), Slab::Between(e2, x2)) => {
            let (e1n, e1d, e2n, e2d) = (e1.num as int, e1.den as int, e2.num as int, e2.den as int);
            let (x1n, x1d, x2n, x2d) = (x1.num as int, x1.den as int, x2.num as int, x2.den as int);
            if frac_le(e1, e2) {
                if q_le(e2n, e2d, n, d) {
                    lemma_q_le_trans(e1n, e1d, e2n, e2d, n, d);
                }
                if q_lt(e2n, e2d, n, d) {
                    lemma_q_le_lt_trans(e1n, e1d, e2n, e2d, n, d);
                }
            } else {
                assert(q_le(e2n, e2d, e1n, e1d));
                if q_le(e1n, e1d, n, d) {
                    lemma_q_le_trans(e2n, e2d, e1n, e1d, n, d);
                }
                if q_lt(e1n, e1d, n, d) {
                    lemma_q_le_lt_trans(e2n, e2d, e1n, e1d, n, d);
                }
            }
            if frac_le(x1, x2) {
                if q_le(n, d, x1n, x1d) {
                    lemma_q_le_trans(n, d, x1n, x1d, x2n, x2d);
                }
                if q_lt(n, d, x1n, x1d) {
                    lemma_q_lt_le_trans(n, d, x1n, x1d, x2n, x2d);
                }
            } else {
                assert(q_le(x2n, x2d, x1n, x1d));
                if q_le(n, d, x2n, x2d) {
                    lemma_q_le_trans(n, d, x2n, x2d, x1n, x1d);
                }
                if q_lt(n, d, x2n, x2d) {
                    lemma_q_lt_le_trans(n, d, x2n, x2d, x1n, x1d);
                }
            }
        },
        _ => {},
    }
}

/// The three ranges of the axes of a box.
pub open spec fn axis_slabs(b: AABox, r: Ray) -> (Slab, Slab, Slab) {
    (
        slab(b.bounds.min@.x, b.bounds.max@.x, r.origin@.x, r.direction@.x),
        slab(b.bounds.min@.y, b.bounds.max@.y, r.origin@.y, r.direction@.y),
        slab(b.bounds.min@.z, b.bounds.max@.z, r.origin@.z, r.direction@.z),
    )
}

/// On one axis: a parameter in the range is a parameter at which the ray is
/// between the planes; a parameter at which the ray is strictly between the
/// planes is strictly in the range; and where the range is not empty, a
/// parameter at which the ray is between the planes is in the range.
pub proof fn lemma_axis(lo: int, hi: int, o: int, dir: int, n: int, d: int)
    requires
        -SPACE_MAX <= lo <= hi <= SPACE_MAX,
        -SPACE_MAX <= o <= SPACE_MAX,
        -2 * SPACE_MAX <= dir <= 2 * SPACE_MAX,
        d > 0,
    ensures
        slab_proper(slab(lo, hi, o, dir)),
        in_range(slab(lo, hi, o, dir), n, d) ==> axis_within(lo, hi, o, dir, n, d),
        axis_inside(lo, hi, o, dir, n, d) ==> in_open_range(slab(lo, hi, o, dir), n, d),
        !(slab(lo, hi, o, dir) is Blocked) && axis_within(lo, hi, o, dir, n, d) ==> in_range(
            slab(lo, hi, o, dir),
            n,
            d,
        ),
{
    if dir != 0 {
        lemma_axis_range(lo, hi, o, dir, n, d);
    } else {
        assert(n * dir == 0) by (nonlinear_arith)
            requires
                dir == 0,
        ;
        assert(lo < o ==> lo * d < o * d) by (nonlinear_arith)
            requires
                d > 0,
        ;
        assert(o < hi ==> o * d < hi * d) by (nonlinear_arith)
            requires
                d > 0,
        ;
        assert(lo * d < o * d ==> lo < o) by (nonlinear_arith)
            requires
                d > 0,
        ;
        assert(o * d < hi * d ==> o < hi) by (nonlinear_arith)
            requires
                d > 0,
        ;
    }
}

/// For the whole box: a parameter in the range of the box is a parameter at
/// which the ray is in the box; a parameter at which the ray is in the
/// interior is strictly in the range; and where the range is not empty, a
/// parameter at which the ray is in the box is in the range.
pub proof fn lemma_box_range(b: AABox, r: Ray, n: int, d: int)
    requires
        b.wf(),
        r.wf(),
        box_ordered(b),
        d > 0,
    ensures
        slab_proper(box_range(b, r)),
        in_range(box_range(b, r), n, d) ==> within_at(b, r, n, d),
        inside_at(b, r, n, d) ==> in_open_range(box_range(b, r), n, d),
        !(box_range(b, r) is Blocked) && within_at(b, r, n, d) ==> in_range(box_range(b, r), n, d),
{
    let (sx, sy, sz) = axis_slabs(b, r);
    lemma_axis(b.bounds.min@.x, b.bounds.max@.x, r.origin@.x, r.direction@.x, n, d);
    lemma_axis(b.bounds.min@.y, b.bounds.max@.y, r.origin@.y, r.direction@.y, n, d);
    lemma_axis(b.bounds.min@.z, b.bounds.max@.z, r.origin@.z, r.direction@.z, n, d);
    lemma_meet_range(sx, sy, n, d);
    lemma_meet_range(meet(sx, sy), sz, n, d);
}

/// Where the ray meets the box, it meets it at a point of the box: a ray
/// that is at no parameter in the box meets nothing.
pub proof fn lemma_box_miss(b: AABox, r: Ray)
    requires
        b.wf(),
        r.wf(),
        box_ordered(b),
        forall|n: int, d: int| d > 0 ==> !within_at(b, r, n, d),
    ensures
        box_intersect(b, r) is None,
{
    match box_range(b, r) {
        Slab::Blocked => {},
        Slab::Free => {
            lemma_box_range(b, r, 0, 1);
            assert(within_at(b, r, 0, 1));
        },
        Slab::Between(t0, t1) => {
            lemma_box_range(b, r, t0.num as int, t0.den as int);
            lemma_box_range(b, r, 0, 1);
            if frac_lt(t0, t1) {
                assert(in_range(box_range(b, r), t0.num as int, t0.den as int));
                assert(within_at(b, r, t0.num as int, t0.den as int));
            }
            if frac_lt(t0, epsilon()) && frac_lt(epsilon(), t1) {
                lemma_q_lt_le_trans(
                    t0.num as int,
                    t0.den as int,
                    1,
                    1000,
                    t1.num as int,
                    t1.den as int,
                );
            }
        },
    }
}

/// A ray that passes through the interior of the box, and is outside the box
/// at every parameter below the smallest that counts, meets the box where it
/// enters it: at the hit the ray is in the box, and at every smaller
/// parameter it is not.
pub proof fn lemma_box_hit_at_entry(b: AABox, r: Ray, n: int, d: int)
    requires
        b.wf(),
        r.wf(),
        box_ordered(b),
        d > 0,
        inside_at(b, r, n, d),
        forall|m: int, e: int| e > 0 && m * 1000 < e ==> !within_at(b, r, m, e),
    ensures
        box_intersect(b, r) matches Some(h) && h.den > 0 && within_at(
            b,
            r,
            h.num as int,
            h.den as int,
        ) && forall|m: int, e: int|
            e > 0 && q_lt(m, e, h.num as int, h.den as int) ==> !within_at(b, r, m, e),
{
    lemma_box_range(b, r, n, d);
    match box_range(b, r) {
        Slab::Blocked => {},
        Slab::Free => {
            lemma_box_range(b, r, 0, 1);
            assert(in_range(box_range(b, r), 0, 1));
            assert(within_at(b, r, 0, 1));
            assert(false);
        },
        Slab::Between(t0, t1) => {
            let (t0n, t0d, t1n, t1d) = (t0.num as int, t0.den as int, t1.num as int, t1.den as int);
            lemma_q_lt_le_trans(t0n, t0d, n, d, n, d);
            assert(q_le(n, d, t1n, t1d));
            lemma_q_lt_le_trans(t0n, t0d, n, d, t1n, t1d);
            assert(frac_lt(t0, t1));
            lemma_box_range(b, r, t0n, t0d);
            assert(in_range(box_range(b, r), t0n, t0d));
            assert(within_at(b, r, t0n, t0d));
            let eps = epsilon();
            if frac_lt(t0, eps) {
                assert(t0n * 1000 < t0d) by (nonlinear_arith)
                    requires
                        t0n * eps.den < eps.num * t0d,
                        eps.den == 1000,
                        eps.num == 1,
                ;
                assert(false);
            }
            assert(frac_le(eps, t0)) by (nonlinear_arith)
                requires
                    !(t0n * eps.den < eps.num * t0d),
                    frac_le(eps, t0) == (eps.num * t0d <= t0n * eps.den),
            ;
            assert forall|m: int, e: int| e > 0 && q_lt(m, e, t0n, t0d) implies !within_at(
                b,
                r,
                m,
                e,
            ) by {
                lemma_box_range(b, r, m, e);
            }
        },
    }
}


/// The scale of the table of cosines.
pub const TRIG_SCALE: i64 = 1_000_000;

/// The cosine of `j` eightieths of a turn, for the first quarter turn, in
/// millionths.
pub open spec fn quarter_cos(j: int) -> int {
    if j == 0 {
        1000000
    } else if j == 1 {
        996917
    } else if j == 2 {
        987688
    } else if j == 3 {
        972370
    } else if j == 4 {
        951057
    } else if j == 5 {
        923880
    } else if j == 6 {
        891007
    } else if j == 7 {
        852640
    } else if j == 8 {
        809017
    } else if j == 9 {
        760406
    } else if j == 10 {
        707107
    } else if j == 11 {
        649448
    } else if j == 12 {
        587785
    } else if j == 13 {
        522499
    } else if j == 14 {
        453990
    } else if j == 15 {
        382683
    } else if j == 16 {
        309017
    } else if j == 17 {
        233445
    } else if j == 18 {
        156434
    } else if j == 19 {
        78459
    } else {
        0
    }
}

/// The cosine of `k` eightieths of a turn, in millionths.
pub open spec fn unit_cos(k: int) -> int {
    if k <= 20 {
        quarter_cos(k)
    } else if k <= 40 {
        -quarter_cos(40 - k)
    } else if k <= 60 {
        -quarter_cos(k - 40)
    } else {
        quarter_cos(80 - k)
    }
}

/// The sine of `k` eightieths of a turn, in millionths.
pub open spec fn unit_sin(k: int) -> int {
    unit_cos((k + 60) % 80)
}

/// The height of ring `iz` above the centre of a ball of the given radius:
/// the rings are spaced evenly from pole to pole, half a spacing in from
/// either pole.
pub open spec fn ring_height(radius: int, iz: int) -> int {
    (radius * (2 * iz + 1 - 20)) / 20
}

/// The radius of ring `iz` of a ball of the given radius.
pub open spec fn ring_radius(radius: int, iz: int) -> int {
    sqrt_floor((radius * radius * (400 - (2 * iz + 1 - 20) * (2 * iz + 1 - 20))) / 400)
}

/// Point `k` of ring `iz` of the ball.
pub open spec fn ring_point(s: Sphere, iz: int, k: int) -> V3 {
    V3 {
        x: s.center@.x + crate::arith::round_div(
            ring_radius(s.radius as int, iz) * unit_cos(k),
            TRIG_SCALE as int,
        ),
        y: s.center@.y + crate::arith::round_div(
            ring_radius(s.radius as int, iz) * unit_sin(k),
            TRIG_SCALE as int,
        ),
        z: s.center@.z + ring_height(s.radius as int, iz),
    }
}

/// The rings of the ball: twenty closed chains of eighty segments each.
pub open spec fn sphere_rings(s: Sphere) -> Seq<Seq<V3>> {
    Seq::new(20, |iz: int| Seq::new(81, |k: int| ring_point(s, iz, k)))
}

/// The cosine of `j` eightieths of a turn, for the first quarter turn.
fn quarter_cos_of(j: usize) -> (c: i64)
    requires
        j <= 20,
    ensures
        c == quarter_cos(j as int),
        0 <= c <= TRIG_SCALE,
{
    match j {
        0 => 1000000,
        1 => 996917,
        2 => 987688,
        3 => 972370,
        4 => 951057,
        5 => 923880,
        6 => 891007,
        7 => 852640,
        8 => 809017,
        9 => 760406,
        10 => 707107,
        11 => 649448,
        12 => 587785,
        13 => 522499,
        14 => 453990,
        15 => 382683,
        16 => 309017,
        17 => 233445,
        18 => 156434,
        19 => 78459,
        _ => 0,
    }
}

/// The cosine of `k` eightieths of a turn.
fn unit_cos_of(k: usize) -> (c: i64)
    requires
        k <= 80,
    ensures
        c == unit_cos(k as int),
        -TRIG_SCALE <= c <= TRIG_SCALE,
{
    if k <= 20 {
        quarter_cos_of(k)
    } else if k <= 40 {
        -quarter_cos_of(40 - k)
    } else if k <= 60 {
        -quarter_cos_of(k - 40)
    } else {
        quarter_cos_of(80 - k)
    }
}

impl Sphere {
    /// The ball lies within the coordinate range.
    pub open spec fn fits(self) -> bool {
        &&& 0 <= self.radius
        &&& self.center@.within(SPACE_MAX - self.radius)
    }

    /// One ring of the wireframe.
    fn ring(&self, iz: usize) -> (pl: PolyLine<3>)
        requires
            self.fits(),
            iz < 20,
        ensures
            pl@ == Seq::new(81, |k: int| ring_point(*self, iz as int, k)),
            pl.wf(),
    {
        let r: i128 = self.radius as i128;
        let m: i128 = 2 * (iz as i128) + 1 - 20;
        proof {
            lemma_mul_bound(r as int, r as int, 0x100_0000, 0x100_0000);
            crate::nbase::line_merger::lemma_square_nonneg(r as int);
            lemma_mul_bound(m as int, m as int, 19, 19);
            crate::nbase::line_merger::lemma_square_nonneg(m as int);
            lemma_mul_bound(r * r, 400 - m * m, 0x1_0000_0000_0000, 400);
            lemma_mul_bound(r as int, m as int, 0x100_0000, 19);
            assert(0 <= r * r * (400 - m * m) <= 400 * (r * r)) by (nonlinear_arith)
                requires
                    0 <= r * r,
                    0 <= 400 - m * m <= 400,
            ;
        }
        let q: i128 = (r * r * (400 - m * m)) / 400;
        let rr: i128 = isqrt(q as u128) as i128;
        let zoff: i128 = crate::arith::div_floor(r * m, 20);
        proof {
            assert(q <= r * r);
            assert((r + 1) * (r + 1) > r * r) by (nonlinear_arith)
                requires
                    r >= 0,
            ;
            crate::arith::lemma_sqrt_floor_monotone(q as int, rr as int, r * r, r as int);
            assert(-r <= zoff <= r) by (nonlinear_arith)
                requires
                    zoff == (r * m) / 20,
                    -19 <= m <= 19,
                    r >= 0,
            ;
        }
        let z: i64 = (self.center.vs[2] as i128 + zoff) as i64;
        let mut ps: Vec<Point<3>> = Vec::new();
        let mut k: usize = 0;
        while k <= 80
            invariant
                k <= 81,
                self.fits(),
                iz < 20,
                0 <= rr <= self.radius,
                rr == ring_radius(self.radius as int, iz as int),
                z == self.center@.z + ring_height(self.radius as int, iz as int),
                -SPACE_MAX <= z <= SPACE_MAX,
                ps@.len() == k,
                forall|j: int| 0 <= j < k ==> (#[trigger] ps@[j])@ == ring_point(*self, iz as int, j),
                forall|j: int| 0 <= j < k ==> (#[trigger] ps@[j]).wf(),
            decreases 81 - k,
        {
            let c = unit_cos_of(k) as i128;
            let s = unit_cos_of((k + 60) % 80) as i128;
            proof {
                lemma_mul_bound(rr as int, c as int, 0x100_0000, 1_000_000);
                lemma_mul_bound(rr as int, s as int, 0x100_0000, 1_000_000);
                assert(-(rr * 1_000_000) <= rr * c <= rr * 1_000_000) by (nonlinear_arith)
                    requires
                        rr >= 0,
                        -1_000_000 <= c <= 1_000_000,
                ;
                assert(-(rr * 1_000_000) <= rr * s <= rr * 1_000_000) by (nonlinear_arith)
                    requires
                        rr >= 0,
                        -1_000_000 <= s <= 1_000_000,
                ;
                crate::nbase::line_merger::merge_and_deduplicate::lemma_round_div_within(
                    rr * c,
                    1_000_000,
                    rr as int,
                );
                crate::nbase::line_merger::merge_and_deduplicate::lemma_round_div_within(
                    rr * s,
                    1_000_000,
                    rr as int,
                );
            }
            let x = self.center.vs[0] as i128 + crate::arith::div_round(rr * c, TRIG_SCALE as i128);
            let y = self.center.vs[1] as i128 + crate::arith::div_round(rr * s, TRIG_SCALE as i128);
            ps.push(Point { vs: [x as i64, y as i64, z] });
            k += 1;
        }
        let pl = PolyLine { ps };
        assert(pl@ =~= Seq::new(81, |k: int| ring_point(*self, iz as int, k)));
        pl
    }

    /// The wireframe: the rings of latitude.
    pub fn paths(&self) -> (r: Vec<PolyLine<3>>)
        requires
            self.fits(),
        ensures
            paths_view(r@) == sphere_rings(*self),
            paths_wf(r@),
    {
        let mut result: Vec<PolyLine<3>> = Vec::new();
        let mut iz: usize = 0;
        while iz < 20
            invariant
                iz <= 20,
                self.fits(),
                result@.len() == iz,
                forall|j: int|
                    0 <= j < iz ==> (#[trigger] result@[j])@ == Seq::new(
                        81,
                        |k: int| ring_point(*self, j, k),
                    ),
                paths_wf(result@),
            decreases 20 - iz,
        {
            let pl = self.ring(iz);
            result.push(pl);
            iz += 1;
        }
        assert(paths_view(result@) =~= sphere_rings(*self));
        result
    }
}

/// A solid of the scene.
#[derive(Clone, Copy, Debug)]
pub enum Shape {
    AABox(AABox),
    Sphere(Sphere),
}

/// Where the ray meets the solid.
pub open spec fn shape_intersect(s: Shape, r: Ray) -> Option<Hit> {
    match s {
        Shape::AABox(b) => box_intersect(b, r),
        Shape::Sphere(b) => sphere_intersect(b, r),
    }
}

/// The wireframe of the solid.
pub open spec fn shape_paths(s: Shape) -> Seq<Seq<V3>> {
    match s {
        Shape::AABox(b) => box_edges(b.bounds.min@, b.bounds.max@),
        Shape::Sphere(b) => sphere_rings(b),
    }
}

impl Shape {
    /// The solid lies within the coordinate range.
    pub open spec fn wf(self) -> bool {
        match self {
            Shape::AABox(b) => b.wf(),
            Shape::Sphere(b) => b.wf() && b.fits(),
        }
    }

    /// The wireframe.
    pub fn paths(&self) -> (r: Vec<PolyLine<3>>)
        requires
            self.wf(),
        ensures
            paths_view(r@) == shape_paths(*self),
            paths_wf(r@),
    {
        match self {
            Shape::AABox(b) => b.paths(),
            Shape::Sphere(b) => b.paths(),
        }
    }

    /// Where the ray meets the solid.
    pub fn intersect(&self, ray: &Ray) -> (r: Option<Hit>)
        requires
            self.wf(),
            ray.wf(),
        ensures
            r == shape_intersect(*self, *ray),
    {
        match self {
            Shape::AABox(b) => b.intersect(ray),
            Shape::Sphere(b) => b.intersect(ray),
        }
    }

    /// Whether the solid, shrunk by `tol`, holds the point; a box is grown by
    /// `tol` instead.
    pub fn contains(&self, x: Point<3>, tol: i64) -> (r: bool)
        requires
            self.wf(),
            x.wf(),
            -0x4000_0000 <= tol <= 0x4000_0000,
        ensures
            r == match *self {
                Shape::AABox(b) => b.bounds.min@.x - tol <= x@.x <= b.bounds.max@.x + tol
                    && b.bounds.min@.y - tol <= x@.y <= b.bounds.max@.y + tol && b.bounds.min@.z
                    - tol <= x@.z <= b.bounds.max@.z + tol,
                Shape::Sphere(b) => x@.sub(b.center@).norm2() < (b.radius - tol) * (b.radius
                    - tol),
            },
    {
        match self {
            Shape::AABox(b) => b.contains(x, tol),
            Shape::Sphere(b) => b.contains(x, tol),
        }
    }

    /// The smallest box around the solid.
    pub fn bounds(&self) -> (r: Bounds<3>)
        requires
            self.wf(),
        ensures
            match *self {
                Shape::AABox(b) => r == b.bounds,
                Shape::Sphere(b) => r.min@ == b.center@.sub(
                    V3 { x: b.radius as int, y: b.radius as int, z: b.radius as int },
                ) && r.max@ == b.center@.add(
                    V3 { x: b.radius as int, y: b.radius as int, z: b.radius as int },
                ),
            },
    {
        match self {
            Shape::AABox(b) => b.bounds(),
            Shape::Sphere(b) => b.bounds(),
        }
    }

    /// Prepares the solid for rendering.
    pub fn compile(&self) {
    }
}

} // verus!
