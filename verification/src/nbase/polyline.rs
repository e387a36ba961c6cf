//! Chains of points joined by straight segments.
use crate::nbase::line_segment::{LineSegment, Seg2, Seg3};
use crate::nbase::point::{Point, V2, V3};
use vstd::prelude::*;

verus! {

/// An ordered sequence of points; consecutive points are joined.
#[derive(Debug, PartialEq, Eq)]
pub struct PolyLine<const N: usize> {
    pub ps: Vec<Point<N>>,
}

impl View for PolyLine<2> {
    type V = Seq<V2>;

    open spec fn view(&self) -> Seq<V2> {
        Seq::new(self.ps@.len(), |i: int| self.ps@[i]@)
    }
}

impl View for PolyLine<3> {
    type V = Seq<V3>;

    open spec fn view(&self) -> Seq<V3> {
        Seq::new(self.ps@.len(), |i: int| self.ps@[i]@)
    }
}

/// The segments that join consecutive points of a chain of the plane.
pub open spec fn links2(ps: Seq<V2>) -> Seq<Seg2> {
    if ps.len() < 2 {
        Seq::empty()
    } else {
        Seq::new((ps.len() - 1) as nat, |i: int| Seg2 { a: ps[i], b: ps[i + 1] })
    }
}

/// The segments that join consecutive points of a chain of space.
pub open spec fn links3(ps: Seq<V3>) -> Seq<Seg3> {
    if ps.len() < 2 {
        Seq::empty()
    } else {
        Seq::new((ps.len() - 1) as nat, |i: int| Seg3 { a: ps[i], b: ps[i + 1] })
    }
}

/// The views of the segments of a vector.
pub open spec fn segments2_view(v: Seq<LineSegment<2>>) -> Seq<Seg2> {
    Seq::new(v.len(), |i: int| v[i]@)
}

/// The views of the segments of a vector.
pub open spec fn segments3_view(v: Seq<LineSegment<3>>) -> Seq<Seg3> {
    Seq::new(v.len(), |i: int| v[i]@)
}

impl PolyLine<2> {
    /// Every point is well-formed.
    pub open spec fn wf(self) -> bool {
        forall|i: int| 0 <= i < self.ps@.len() ==> (#[trigger] self.ps@[i]).wf()
    }

    /// A copy of the chain.
    pub fn clone(&self) -> (r: PolyLine<2>)
        ensures
            r.ps@ == self.ps@,
    {
        let mut ps: Vec<Point<2>> = Vec::new();
        let mut i: usize = 0;
        while i < self.ps.len()
            invariant
                i <= self.ps.len(),
                ps@ == self.ps@.subrange(0, i as int),
            decreases self.ps.len() - i,
        {
            ps.push(self.ps[i]);
            assert(ps@ =~= self.ps@.subrange(0, i + 1));
            i += 1;
        }
        assert(self.ps@.subrange(0, i as int) =~= self.ps@);
        PolyLine { ps }
    }

    /// The chain walked the other way.
    pub fn reverse(&self) -> (r: PolyLine<2>)
        ensures
            r.ps@ == self.ps@.reverse(),
            r@ == self@.reverse(),
    {
        let n = self.ps.len();
        let mut ps: Vec<Point<2>> = Vec::new();
        let mut i: usize = 0;
        while i < n
            invariant
                n == self.ps.len(),
                i <= n,
                ps.len() == i,
                forall|j: int| 0 <= j < i ==> #[trigger] ps@[j] == self.ps@[n - 1 - j],
            decreases n - i,
        {
            ps.push(self.ps[n - 1 - i]);
            i += 1;
        }
        let r = PolyLine { ps };
        assert(r.ps@ =~= self.ps@.reverse());
        assert(r@ =~= self@.reverse());
        r
    }

    /// The segments that join consecutive points.
    pub fn line_segments(&self) -> (r: Vec<LineSegment<2>>)
        ensures
            segments2_view(r@) == links2(self@),
            self.wf() ==> forall|i: int| 0 <= i < r.len() ==> (#[trigger] r[i]).wf(),
    {
        let mut result: Vec<LineSegment<2>> = Vec::new();
        if self.ps.len() < 2 {
            assert(segments2_view(result@) =~= links2(self@));
            return result;
        }
        let n = self.ps.len() - 1;
        let mut i: usize = 0;
        while i < n
            invariant
                n + 1 == self.ps.len(),
                i <= n,
                result.len() == i,
                forall|j: int|
                    0 <= j < i ==> (#[trigger] result[j]).ps[0] == self.ps[j] && result[j].ps[1]
                        == self.ps[j + 1],
            decreases n - i,
        {
            result.push(LineSegment { ps: [self.ps[i], self.ps[i + 1]] });
            i += 1;
        }
        assert(segments2_view(result@) =~= links2(self@));
        result
    }
}

impl PolyLine<3> {
    /// Every point is well-formed.
    pub open spec fn wf(self) -> bool {
        forall|i: int| 0 <= i < self.ps@.len() ==> (#[trigger] self.ps@[i]).wf()
    }

    /// The segments that join consecutive points.
    pub fn line_segments(&self) -> (r: Vec<LineSegment<3>>)
        ensures
            segments3_view(r@) == links3(self@),
            self.wf() ==> forall|i: int| 0 <= i < r.len() ==> (#[trigger] r[i]).wf(),
    {
        let mut result: Vec<LineSegment<3>> = Vec::new();
        if self.ps.len() < 2 {
            assert(segments3_view(result@) =~= links3(self@));
            return result;
        }
        let n = self.ps.len() - 1;
        let mut i: usize = 0;
        while i < n
            invariant
                n + 1 == self.ps.len(),
                i <= n,
                result.len() == i,
                forall|j: int|
                    0 <= j < i ==> (#[trigger] result[j]).ps[0] == self.ps[j] && result[j].ps[1]
                        == self.ps[j + 1],
            decreases n - i,
        {
            result.push(LineSegment { ps: [self.ps[i], self.ps[i + 1]] });
            i += 1;
        }
        assert(segments3_view(result@) =~= links3(self@));
        result
    }
}

} // verus!
