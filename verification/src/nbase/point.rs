//! Points with integer coordinates, and the mathematical vectors that model
//! them in contracts.
use vstd::prelude::*;

verus! {

/// Grid steps in one drawing unit of the plane.
pub const UNIT: i64 = 10_000;

/// Largest magnitude of a coordinate of a well-formed point of the plane.
pub const COORD_MAX: i64 = 268_435_456;

/// Largest magnitude of a coordinate of a well-formed point of space.
pub const SPACE_MAX: i64 = 16_777_216;

/// A vector of the plane with unbounded integer components.
pub struct V2 {
    pub x: int,
    pub y: int,
}

/// A vector of space with unbounded integer components.
pub struct V3 {
    pub x: int,
    pub y: int,
    pub z: int,
}

impl V2 {
    pub open spec fn add(self, o: V2) -> V2 {
        V2 { x: self.x + o.x, y: self.y + o.y }
    }

    pub open spec fn sub(self, o: V2) -> V2 {
        V2 { x: self.x - o.x, y: self.y - o.y }
    }

    pub open spec fn neg(self) -> V2 {
        V2 { x: -self.x, y: -self.y }
    }

    pub open spec fn scale(self, k: int) -> V2 {
        V2 { x: self.x * k, y: self.y * k }
    }

    pub open spec fn dot(self, o: V2) -> int {
        self.x * o.x + self.y * o.y
    }

    pub open spec fn norm2(self) -> int {
        self.dot(self)
    }

    /// Every component lies within `bound` of zero.
    pub open spec fn within(self, bound: int) -> bool {
        -bound <= self.x <= bound && -bound <= self.y <= bound
    }
}

impl V3 {
    pub open spec fn add(self, o: V3) -> V3 {
        V3 { x: self.x + o.x, y: self.y + o.y, z: self.z + o.z }
    }

    pub open spec fn sub(self, o: V3) -> V3 {
        V3 { x: self.x - o.x, y: self.y - o.y, z: self.z - o.z }
    }

    pub open spec fn neg(self) -> V3 {
        V3 { x: -self.x, y: -self.y, z: -self.z }
    }

    pub open spec fn scale(self, k: int) -> V3 {
        V3 { x: self.x * k, y: self.y * k, z: self.z * k }
    }

    pub open spec fn dot(self, o: V3) -> int {
        self.x * o.x + self.y * o.y + self.z * o.z
    }

    pub open spec fn norm2(self) -> int {
        self.dot(self)
    }

    pub open spec fn cross(self, o: V3) -> V3 {
        V3 {
            x: self.y * o.z - self.z * o.y,
            y: self.z * o.x - self.x * o.z,
            z: self.x * o.y - self.y * o.x,
        }
    }

    /// Every component lies within `bound` of zero.
    pub open spec fn within(self, bound: int) -> bool {
        -bound <= self.x <= bound && -bound <= self.y <= bound && -bound <= self.z <= bound
    }
}

/// The product of two bounded integers is bounded by the product of the bounds.
pub proof fn lemma_mul_bound(a: int, b: int, m: int, n: int)
    requires
        -m <= a <= m,
        -n <= b <= n,
    ensures
        -(m * n) <= a * b <= m * n,
{
    assert(-(m * n) <= a * b <= m * n) by (nonlinear_arith)
        requires
            -m <= a <= m,
            -n <= b <= n,
    ;
}

/// The dot product of two bounded space vectors is bounded.
pub proof fn lemma_dot3_bound(a: V3, b: V3, m: int, n: int)
    requires
        a.within(m),
        b.within(n),
    ensures
        -(3 * (m * n)) <= a.dot(b) <= 3 * (m * n),
{
    lemma_mul_bound(a.x, b.x, m, n);
    lemma_mul_bound(a.y, b.y, m, n);
    lemma_mul_bound(a.z, b.z, m, n);
}

/// A point with `N` integer coordinates, counted in grid steps.
#[derive(Clone, Copy, Debug, PartialEq, Eq)]
pub struct Point<const N: usize> {
    pub vs: [i64; N],
}

impl View for Point<2> {
    type V = V2;

    open spec fn view(&self) -> V2 {
        V2 { x: self.vs[0] as int, y: self.vs[1] as int }
    }
}

impl View for Point<3> {
    type V = V3;

    open spec fn view(&self) -> V3 {
        V3 { x: self.vs[0] as int, y: self.vs[1] as int, z: self.vs[2] as int }
    }
}

/// Two points of the plane with the same coordinates are the same point.
pub proof fn lemma_point2_ext(a: Point<2>, b: Point<2>)
    requires
        a@ == b@,
    ensures
        a == b,
{
    assert(a.vs =~= b.vs);
}

/// Two points of space with the same coordinates are the same point.
pub proof fn lemma_point3_ext(a: Point<3>, b: Point<3>)
    requires
        a@ == b@,
    ensures
        a == b,
{
    assert(a.vs =~= b.vs);
}

/// Combines two arrays position by position.
pub fn bimap<A, B, F, C, const N: usize>(a: &[A; N], b: &[B; N], f: F) -> (result: [C; N]) where
    F: Fn(A, B) -> C,
    A: Copy,
    B: Copy,
    C: Default + Copy,

    requires
        call_requires(C::default, ()),
        forall|i: int| 0 <= i < N ==> call_requires(f, (#[trigger] a[i], b[i])),
    ensures
        forall|i: int| 0 <= i < N ==> call_ensures(f, (a[i], b[i]), #[trigger] result[i]),
{
    let mut result: [C; N] = [C::default();N];
    let mut i: usize = 0;
    while i < N
        invariant
            i <= N,
            forall|j: int| 0 <= j < N ==> call_requires(f, (#[trigger] a[j], b[j])),
            forall|j: int| 0 <= j < i ==> call_ensures(f, (a[j], b[j]), #[trigger] result[j]),
        decreases N - i,
    {
        result[i] = f(a[i], b[i]);
        i += 1;
    }
    result
}

impl<const N: usize> Point<N> {
    /// The point with the given coordinates.
    pub fn from(vs: [i64; N]) -> (p: Point<N>)
        ensures
            p.vs == vs,
    {
        Point { vs }
    }

    /// The origin.
    pub fn zero() -> (p: Point<N>)
        ensures
            forall|i: int| 0 <= i < N ==> p.vs[i] == 0,
    {
        Point { vs: [0i64;N] }
    }

    /// Combines two points coordinate by coordinate.
    pub fn bimap<F>(a: Point<N>, b: Point<N>, f: F) -> (p: Point<N>) where F: Fn(i64, i64) -> i64
        requires
            forall|i: int| 0 <= i < N ==> call_requires(f, (#[trigger] a.vs[i], b.vs[i])),
        ensures
            forall|i: int| 0 <= i < N ==> call_ensures(f, (a.vs[i], b.vs[i]), #[trigger] p.vs[i]),
    {
        Point { vs: bimap(&a.vs, &b.vs, f) }
    }

    /// The smaller coordinate at each position.
    pub fn componentwise_min(a: Point<N>, b: Point<N>) -> (p: Point<N>)
        ensures
            forall|i: int|
                0 <= i < N ==> #[trigger] p.vs[i] == if a.vs[i] <= b.vs[i] {
                    a.vs[i]
                } else {
                    b.vs[i]
                },
    {
        let f = |x: i64, y: i64| -> (m: i64)
            ensures
                m == if x <= y {
                    x
                } else {
                    y
                },
            {
                if x <= y {
                    x
                } else {
                    y
                }
            };
        Point::bimap(a, b, f)
    }

    /// The larger coordinate at each position.
    pub fn componentwise_max(a: Point<N>, b: Point<N>) -> (p: Point<N>)
        ensures
            forall|i: int|
                0 <= i < N ==> #[trigger] p.vs[i] == if a.vs[i] >= b.vs[i] {
                    a.vs[i]
                } else {
                    b.vs[i]
                },
    {
        let f = |x: i64, y: i64| -> (m: i64)
            ensures
                m == if x >= y {
                    x
                } else {
                    y
                },
            {
                if x >= y {
                    x
                } else {
                    y
                }
            };
        Point::bimap(a, b, f)
    }
}

impl Point<2> {
    /// Every coordinate lies within `COORD_MAX` of zero.
    pub open spec fn wf(self) -> bool {
        self@.within(COORD_MAX as int)
    }

    /// Whether every coordinate lies within `COORD_MAX` of zero.
    pub fn is_wf(&self) -> (r: bool)
        ensures
            r == self.wf(),
    {
        -COORD_MAX <= self.vs[0] && self.vs[0] <= COORD_MAX && -COORD_MAX <= self.vs[1]
            && self.vs[1] <= COORD_MAX
    }

    /// Whether the two points have the same coordinates.
    pub fn same(&self, o: &Point<2>) -> (r: bool)
        ensures
            r == (self@ == o@),
            r == (*self == *o),
    {
        let r = self.vs[0] == o.vs[0] && self.vs[1] == o.vs[1];
        proof {
            if r {
                lemma_point2_ext(*self, *o);
            }
        }
        r
    }

    /// The point mirrored through the origin.
    pub fn neg(&self) -> (p: Point<2>)
        requires
            self.wf(),
        ensures
            p@ == self@.neg(),
            p.wf(),
    {
        Point { vs: [-self.vs[0], -self.vs[1]] }
    }

    /// The dot product.
    pub fn dot(&self, n: Point<2>) -> (r: i128)
        requires
            self.wf(),
            n.wf(),
        ensures
            r == self@.dot(n@),
    {
        proof {
            lemma_mul_bound(self@.x, n@.x, COORD_MAX as int, COORD_MAX as int);
            lemma_mul_bound(self@.y, n@.y, COORD_MAX as int, COORD_MAX as int);
        }
        (self.vs[0] as i128) * (n.vs[0] as i128) + (self.vs[1] as i128) * (n.vs[1] as i128)
    }

    /// The squared distance from the origin.
    pub fn norm_squared(&self) -> (r: i128)
        requires
            self.wf(),
        ensures
            r == self@.norm2(),
    {
        self.dot(*self)
    }

    /// The smallest coordinate.
    pub fn min(&self) -> (r: i64)
        ensures
            r == if self@.x <= self@.y {
                self@.x
            } else {
                self@.y
            },
    {
        if self.vs[0] <= self.vs[1] {
            self.vs[0]
        } else {
            self.vs[1]
        }
    }

    /// The largest coordinate.
    pub fn max(&self) -> (r: i64)
        ensures
            r == if self@.x >= self@.y {
                self@.x
            } else {
                self@.y
            },
    {
        if self.vs[0] >= self.vs[1] {
            self.vs[0]
        } else {
            self.vs[1]
        }
    }
}

impl Point<3> {
    /// Every coordinate lies within `SPACE_MAX` of zero.
    pub open spec fn wf(self) -> bool {
        self@.within(SPACE_MAX as int)
    }

    /// Whether every coordinate lies within `SPACE_MAX` of zero.
    pub fn is_wf(&self) -> (r: bool)
        ensures
            r == self.wf(),
    {
        -SPACE_MAX <= self.vs[0] && self.vs[0] <= SPACE_MAX && -SPACE_MAX <= self.vs[1]
            && self.vs[1] <= SPACE_MAX && -SPACE_MAX <= self.vs[2] && self.vs[2] <= SPACE_MAX
    }

    /// Whether the two points have the same coordinates.
    pub fn same(&self, o: &Point<3>) -> (r: bool)
        ensures
            r == (self@ == o@),
            r == (*self == *o),
    {
        let r = self.vs[0] == o.vs[0] && self.vs[1] == o.vs[1] && self.vs[2] == o.vs[2];
        proof {
            if r {
                lemma_point3_ext(*self, *o);
            }
        }
        r
    }

    /// The point mirrored through the origin.
    pub fn neg(&self) -> (p: Point<3>)
        requires
            self.wf(),
        ensures
            p@ == self@.neg(),
            p.wf(),
    {
        Point { vs: [-self.vs[0], -self.vs[1], -self.vs[2]] }
    }

    /// The dot product.
    pub fn dot(&self, n: Point<3>) -> (r: i128)
        requires
            self.wf(),
            n.wf(),
        ensures
            r == self@.dot(n@),
    {
        proof {
            lemma_mul_bound(self@.x, n@.x, SPACE_MAX as int, SPACE_MAX as int);
            lemma_mul_bound(self@.y, n@.y, SPACE_MAX as int, SPACE_MAX as int);
            lemma_mul_bound(self@.z, n@.z, SPACE_MAX as int, SPACE_MAX as int);
        }
        (self.vs[0] as i128) * (n.vs[0] as i128) + (self.vs[1] as i128) * (n.vs[1] as i128) + (
        self.vs[2] as i128) * (n.vs[2] as i128)
    }

    /// The squared distance from the origin.
    pub fn norm_squared(&self) -> (r: i128)
        requires
            self.wf(),
        ensures
            r == self@.norm2(),
    {
        self.dot(*self)
    }

    /// The cross product.
    pub fn cross(self, rhs: Point<3>) -> (p: Point<3>)
        requires
            self@.within(1_000_000_000),
            rhs@.within(1_000_000_000),
        ensures
            p@ == self@.cross(rhs@),
    {
        proof {
            lemma_mul_bound(self@.y, rhs@.z, 1_000_000_000, 1_000_000_000);
            lemma_mul_bound(self@.z, rhs@.y, 1_000_000_000, 1_000_000_000);
            lemma_mul_bound(self@.z, rhs@.x, 1_000_000_000, 1_000_000_000);
            lemma_mul_bound(self@.x, rhs@.z, 1_000_000_000, 1_000_000_000);
            lemma_mul_bound(self@.x, rhs@.y, 1_000_000_000, 1_000_000_000);
            lemma_mul_bound(self@.y, rhs@.x, 1_000_000_000, 1_000_000_000);
        }
        Point {
            vs: [
                self.vs[1] * rhs.vs[2] - self.vs[2] * rhs.vs[1],
                self.vs[2] * rhs.vs[0] - self.vs[0] * rhs.vs[2],
                self.vs[0] * rhs.vs[1] - self.vs[1] * rhs.vs[0],
            ],
        }
    }

    /// The smallest coordinate.
    pub fn min(&self) -> (r: i64)
        ensures
            r <= self@.x && r <= self@.y && r <= self@.z,
            r == self@.x || r == self@.y || r == self@.z,
    {
        let m = if self.vs[0] <= self.vs[1] {
            self.vs[0]
        } else {
            self.vs[1]
        };
        if m <= self.vs[2] {
            m
        } else {
            self.vs[2]
        }
    }

    /// The largest coordinate.
    pub fn max(&self) -> (r: i64)
        ensures
            r >= self@.x && r >= self@.y && r >= self@.z,
            r == self@.x || r == self@.y || r == self@.z,
    {
        let m = if self.vs[0] >= self.vs[1] {
            self.vs[0]
        } else {
            self.vs[1]
        };
        if m >= self.vs[2] {
            m
        } else {
            self.vs[2]
        }
    }
}

} // verus!
