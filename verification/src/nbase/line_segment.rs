//! Straight segments between two points.
use crate::arith::div_floor;
use crate::nbase::point::{lemma_mul_bound, Point, COORD_MAX, SPACE_MAX, V2, V3};
use vstd::prelude::*;

verus! {

/// A segment of the plane as a pair of mathematical vectors.
pub struct Seg2 {
    pub a: V2,
    pub b: V2,
}

/// A segment of space as a pair of mathematical vectors.
pub struct Seg3 {
    pub a: V3,
    pub b: V3,
}

impl Seg2 {
    /// The squared length.
    pub open spec fn len2(self) -> int {
        self.b.sub(self.a).norm2()
    }

    /// The same segment walked the other way.
    pub open spec fn reverse(self) -> Seg2 {
        Seg2 { a: self.b, b: self.a }
    }

    /// The point halfway along, rounded down to the grid.
    pub open spec fn midpoint(self) -> V2 {
        V2 { x: (self.a.x + self.b.x) / 2, y: (self.a.y + self.b.y) / 2 }
    }

    /// The point `i` `n`-ths of the way along, rounded down to the grid.
    pub open spec fn along(self, i: int, n: int) -> V2 {
        V2 {
            x: self.a.x + ((self.b.x - self.a.x) * i) / n,
            y: self.a.y + ((self.b.y - self.a.y) * i) / n,
        }
    }
}

impl Seg3 {
    /// The squared length.
    pub open spec fn len2(self) -> int {
        self.b.sub(self.a).norm2()
    }

    /// The same segment walked the other way.
    pub open spec fn reverse(self) -> Seg3 {
        Seg3 { a: self.b, b: self.a }
    }

    /// The point halfway along, rounded down to the grid.
    pub open spec fn midpoint(self) -> V3 {
        V3 {
            x: (self.a.x + self.b.x) / 2,
            y: (self.a.y + self.b.y) / 2,
            z: (self.a.z + self.b.z) / 2,
        }
    }

    /// The largest coordinate difference between the two ends.
    pub open spec fn extent(self) -> int {
        let dx = crate::arith::abs(self.b.x - self.a.x);
        let dy = crate::arith::abs(self.b.y - self.a.y);
        let dz = crate::arith::abs(self.b.z - self.a.z);
        if dx >= dy && dx >= dz {
            dx
        } else if dy >= dz {
            dy
        } else {
            dz
        }
    }
}

/// An ordered pair of end points.
#[derive(Clone, Copy, Debug, PartialEq, Eq)]
pub struct LineSegment<const N: usize> {
    pub ps: [Point<N>; 2],
}

impl View for LineSegment<2> {
    type V = Seg2;

    open spec fn view(&self) -> Seg2 {
        Seg2 { a: self.ps[0]@, b: self.ps[1]@ }
    }
}

impl View for LineSegment<3> {
    type V = Seg3;

    open spec fn view(&self) -> Seg3 {
        Seg3 { a: self.ps[0]@, b: self.ps[1]@ }
    }
}

/// Two segments of the plane with the same end points are the same segment.
pub proof fn lemma_segment2_ext(s: LineSegment<2>, t: LineSegment<2>)
    requires
        s@ == t@,
    ensures
        s == t,
{
    crate::nbase::point::lemma_point2_ext(s.ps[0], t.ps[0]);
    crate::nbase::point::lemma_point2_ext(s.ps[1], t.ps[1]);
    assert(s.ps =~= t.ps);
}

/// Half of `s`, rounded down.
fn half(s: i64) -> (h: i64)
    ensures
        h == s / 2,
{
    let q = div_floor(s as i128, 2);
    q as i64
}

impl<const N: usize> LineSegment<N> {
    /// The segment from `start` to `end`.
    pub fn new(start: Point<N>, end: Point<N>) -> (s: LineSegment<N>)
        ensures
            s.ps[0] == start,
            s.ps[1] == end,
    {
        LineSegment { ps: [start, end] }
    }

    /// The same segment walked the other way.
    pub fn reverse(&self) -> (s: LineSegment<N>)
        ensures
            s.ps[0] == self.ps[1],
            s.ps[1] == self.ps[0],
    {
        LineSegment { ps: [self.ps[1], self.ps[0]] }
    }
}

impl LineSegment<2> {
    /// Both end points are well-formed.
    pub open spec fn wf(self) -> bool {
        self.ps[0].wf() && self.ps[1].wf()
    }

    /// Whether both end points are well-formed.
    pub fn is_wf(&self) -> (r: bool)
        ensures
            r == self.wf(),
    {
        self.ps[0].is_wf() && self.ps[1].is_wf()
    }

    /// Whether the two segments have the same end points in the same order.
    pub fn same(&self, o: &LineSegment<2>) -> (r: bool)
        ensures
            r == (self@ == o@),
            r == (*self == *o),
    {
        let r = self.ps[0].same(&o.ps[0]) && self.ps[1].same(&o.ps[1]);
        proof {
            if r {
                lemma_segment2_ext(*self, *o);
            }
        }
        r
    }

    /// The squared length.
    pub fn len2(&self) -> (r: i128)
        requires
            self.wf(),
        ensures
            r == self@.len2(),
    {
        let dx: i128 = self.ps[1].vs[0] as i128 - self.ps[0].vs[0] as i128;
        let dy: i128 = self.ps[1].vs[1] as i128 - self.ps[0].vs[1] as i128;
        proof {
            lemma_mul_bound(dx as int, dx as int, 2 * COORD_MAX, 2 * COORD_MAX);
            lemma_mul_bound(dy as int, dy as int, 2 * COORD_MAX, 2 * COORD_MAX);
        }
        dx * dx + dy * dy
    }

    /// The point halfway along, rounded down to the grid.
    pub fn midpoint(&self) -> (m: Point<2>)
        requires
            self.wf(),
        ensures
            m@ == self@.midpoint(),
            m.wf(),
    {
        Point {
            vs: [
                half(self.ps[0].vs[0] + self.ps[1].vs[0]),
                half(self.ps[0].vs[1] + self.ps[1].vs[1]),
            ],
        }
    }

    /// The two halves, which meet at the midpoint.
    pub fn split(&self) -> (r: (LineSegment<2>, LineSegment<2>))
        requires
            self.wf(),
        ensures
            r.0@ == (Seg2 { a: self@.a, b: self@.midpoint() }),
            r.1@ == (Seg2 { a: self@.midpoint(), b: self@.b }),
            r.0.wf(),
            r.1.wf(),
    {
        let mp = self.midpoint();
        (LineSegment { ps: [self.ps[0], mp] }, LineSegment { ps: [mp, self.ps[1]] })
    }

    /// The point `i` `n`-ths of the way along, rounded down to the grid.
    pub fn along(&self, i: usize, n: usize) -> (p: Point<2>)
        requires
            self.wf(),
            0 < n <= 0x1_0000_0000,
            i <= n,
        ensures
            p@ == self@.along(i as int, n as int),
            p.wf(),
    {
        let dx: i128 = self.ps[1].vs[0] as i128 - self.ps[0].vs[0] as i128;
        let dy: i128 = self.ps[1].vs[1] as i128 - self.ps[0].vs[1] as i128;
        proof {
            lemma_mul_bound(dx as int, i as int, 2 * COORD_MAX, 0x1_0000_0000);
            lemma_mul_bound(dy as int, i as int, 2 * COORD_MAX, 0x1_0000_0000);
            lemma_fraction_between(dx as int, i as int, n as int);
            lemma_fraction_between(dy as int, i as int, n as int);
        }
        let qx = div_floor(dx * (i as i128), n as i128);
        let qy = div_floor(dy * (i as i128), n as i128);
        Point { vs: [(self.ps[0].vs[0] as i128 + qx) as i64, (self.ps[0].vs[1] as i128 + qy) as i64] }
    }

    /// The segment cut into `n` consecutive pieces of equal length, up to
    /// rounding to the grid.
    pub fn nsplit(&self, n: usize) -> (r: Vec<LineSegment<2>>)
        requires
            self.wf(),
            n <= 0x1_0000_0000,
        ensures
            r.len() == n,
            forall|i: int|
                0 <= i < n ==> (#[trigger] r[i])@ == (Seg2 {
                    a: self@.along(i, n as int),
                    b: self@.along(i + 1, n as int),
                }),
            forall|i: int| 0 <= i < n ==> (#[trigger] r[i]).wf(),
    {
        let mut r: Vec<LineSegment<2>> = Vec::new();
        let mut i: usize = 0;
        while i < n
            invariant
                self.wf(),
                i <= n <= 0x1_0000_0000,
                r.len() == i,
                forall|j: int|
                    0 <= j < i ==> (#[trigger] r[j])@ == (Seg2 {
                        a: self@.along(j, n as int),
                        b: self@.along(j + 1, n as int),
                    }),
                forall|j: int| 0 <= j < i ==> (#[trigger] r[j]).wf(),
            decreases n - i,
        {
            let a = self.along(i, n);
            let b = self.along(i + 1, n);
            r.push(LineSegment { ps: [a, b] });
            i += 1;
        }
        r
    }
}

/// A fraction `i / n` of a difference lies between zero and the difference.
pub proof fn lemma_fraction_between(d: int, i: int, n: int)
    requires
        0 <= i <= n,
        0 < n,
    ensures
        d >= 0 ==> 0 <= (d * i) / n <= d,
        d <= 0 ==> d <= (d * i) / n <= 0,
{
    if d >= 0 {
        assert(0 <= (d * i) / n <= d) by (nonlinear_arith)
            requires
                0 <= i <= n,
                0 < n,
                d >= 0,
        ;
    }
    if d <= 0 {
        assert(d <= (d * i) / n <= 0) by (nonlinear_arith)
            requires
                0 <= i <= n,
                0 < n,
                d <= 0,
        ;
    }
}

impl LineSegment<3> {
    /// Both end points are well-formed.
    pub open spec fn wf(self) -> bool {
        self.ps[0].wf() && self.ps[1].wf()
    }

    /// Whether both end points are well-formed.
    pub fn is_wf(&self) -> (r: bool)
        ensures
            r == self.wf(),
    {
        self.ps[0].is_wf() && self.ps[1].is_wf()
    }

    /// The squared length.
    pub fn len2(&self) -> (r: i128)
        requires
            self.wf(),
        ensures
            r == self@.len2(),
    {
        let dx: i128 = self.ps[1].vs[0] as i128 - self.ps[0].vs[0] as i128;
        let dy: i128 = self.ps[1].vs[1] as i128 - self.ps[0].vs[1] as i128;
        let dz: i128 = self.ps[1].vs[2] as i128 - self.ps[0].vs[2] as i128;
        proof {
            lemma_mul_bound(dx as int, dx as int, 2 * SPACE_MAX, 2 * SPACE_MAX);
            lemma_mul_bound(dy as int, dy as int, 2 * SPACE_MAX, 2 * SPACE_MAX);
            lemma_mul_bound(dz as int, dz as int, 2 * SPACE_MAX, 2 * SPACE_MAX);
        }
        dx * dx + dy * dy + dz * dz
    }

    /// The largest coordinate difference between the two ends.
    pub fn extent(&self) -> (r: i64)
        requires
            self.wf(),
        ensures
            r == self@.extent(),
            0 <= r <= 2 * SPACE_MAX,
    {
        let dx = self.ps[1].vs[0] - self.ps[0].vs[0];
        let dy = self.ps[1].vs[1] - self.ps[0].vs[1];
        let dz = self.ps[1].vs[2] - self.ps[0].vs[2];
        let ax = if dx < 0 {
            -dx
        } else {
            dx
        };
        let ay = if dy < 0 {
            -dy
        } else {
            dy
        };
        let az = if dz < 0 {
            -dz
        } else {
            dz
        };
        if ax >= ay && ax >= az {
            ax
        } else if ay >= az {
            ay
        } else {
            az
        }
    }

    /// The point halfway along, rounded down to the grid.
    pub fn midpoint(&self) -> (m: Point<3>)
        requires
            self.wf(),
        ensures
            m@ == self@.midpoint(),
            m.wf(),
    {
        Point {
            vs: [
                half(self.ps[0].vs[0] + self.ps[1].vs[0]),
                half(self.ps[0].vs[1] + self.ps[1].vs[1]),
                half(self.ps[0].vs[2] + self.ps[1].vs[2]),
            ],
        }
    }

    /// The two halves, which meet at the midpoint.
    pub fn split(&self) -> (r: (LineSegment<3>, LineSegment<3>))
        requires
            self.wf(),
        ensures
            r.0@ == (Seg3 { a: self@.a, b: self@.midpoint() }),
            r.1@ == (Seg3 { a: self@.midpoint(), b: self@.b }),
            r.0.wf(),
            r.1.wf(),
    {
        let mp = self.midpoint();
        (LineSegment { ps: [self.ps[0], mp] }, LineSegment { ps: [mp, self.ps[1]] })
    }
}

} // verus!
