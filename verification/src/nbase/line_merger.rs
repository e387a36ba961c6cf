//! The streaming clean-up of raw strokes: a greedy join of neighbours in
//! stream order, a deduplication by canonical line, and a reconstruction of
//! chains from shared end points.
pub mod coverage;
pub mod merge_and_deduplicate;
pub mod order;
pub mod polyline_merger;
pub mod segment_merger;
pub mod sources;

pub use crate::nbase::line_merger::merge_and_deduplicate::BinningLineMergerAndDeduplicator;
pub use crate::nbase::line_merger::polyline_merger::{
    merge_pl, BinningPolyLineMerger, StartOrEnd,
};
pub use crate::nbase::line_merger::segment_merger::BinningLineMerger;

use crate::arith::{div_round, lemma_round_div_between, round_div};
use crate::nbase::line_merger::merge_and_deduplicate::{add_all, flatten, stage_b};
use crate::nbase::line_merger::polyline_merger::{
    chain_run, polylines_view, stage_c, survivors_from,
};
use crate::nbase::line_segment::{LineSegment, Seg2};
use crate::nbase::point::{lemma_mul_bound, Point, COORD_MAX, V2};
use crate::nbase::polyline::PolyLine;
use vstd::prelude::*;

verus! {

/// Largest squared distance, in squared grid steps, at which two points count
/// as the same point, and largest squared distance from a line at which a
/// point counts as lying on it: a hundredth of a squared drawing unit.
pub const JOIN_TOLERANCE_SQ: i64 = 1_000_000;

/// Where the far end of `s1` lands when it is stretched along its own direction
/// up to the foot of the far end of `s2`.
pub open spec fn extension(s1: Seg2, s2: Seg2) -> V2 {
    let u = s1.b.sub(s1.a);
    let d = s2.b.sub(s1.a);
    V2 {
        x: s1.a.x + round_div(u.x * d.dot(u), u.norm2()),
        y: s1.a.y + round_div(u.y * d.dot(u), u.norm2()),
    }
}

/// The join of two segments, where there is one.
///
/// The second must start where the first ends, within the tolerance. A first
/// segment without length is replaced by the second. Otherwise the far end of
/// the second must lie on the line of the first, within the tolerance, and not
/// short of the first's own far end; the join then runs from the start of the
/// first to the foot of that far end on the line of the first.
pub open spec fn merge_spec(s1: Seg2, s2: Seg2) -> Option<Seg2> {
    let u = s1.b.sub(s1.a);
    let d = s2.b.sub(s1.a);
    if s1.b.sub(s2.a).norm2() > JOIN_TOLERANCE_SQ {
        None
    } else if u.norm2() == 0 {
        Some(s2)
    } else if d.dot(u) < u.norm2() {
        None
    } else if d.norm2() * u.norm2() - d.dot(u) * d.dot(u) <= JOIN_TOLERANCE_SQ * u.norm2()
        && extension(s1, s2).within(COORD_MAX as int) {
        Some(Seg2 { a: s1.a, b: extension(s1, s2) })
    } else {
        None
    }
}

/// Joins `ls2` onto the end of `ls1` where `merge_spec` allows it.
pub fn merge(ls1: &LineSegment<2>, ls2: &LineSegment<2>) -> (r: Option<LineSegment<2>>)
    requires
        ls1.wf(),
        ls2.wf(),
    ensures
        match r {
            Some(m) => merge_spec(ls1@, ls2@) == Some(m@) && m.wf(),
            None => merge_spec(ls1@, ls2@) is None,
        },
{
    let x0x: i128 = ls1.ps[0].vs[0] as i128;
    let x0y: i128 = ls1.ps[0].vs[1] as i128;
    let zx: i128 = ls1.ps[1].vs[0] as i128 - ls2.ps[0].vs[0] as i128;
    let zy: i128 = ls1.ps[1].vs[1] as i128 - ls2.ps[0].vs[1] as i128;
    let ux: i128 = ls1.ps[1].vs[0] as i128 - x0x;
    let uy: i128 = ls1.ps[1].vs[1] as i128 - x0y;
    let dx: i128 = ls2.ps[1].vs[0] as i128 - x0x;
    let dy: i128 = ls2.ps[1].vs[1] as i128 - x0y;
    proof {
        lemma_mul_bound(zx as int, zx as int, 0x2000_0000, 0x2000_0000);
        lemma_mul_bound(zy as int, zy as int, 0x2000_0000, 0x2000_0000);
        lemma_mul_bound(ux as int, ux as int, 0x2000_0000, 0x2000_0000);
        lemma_mul_bound(uy as int, uy as int, 0x2000_0000, 0x2000_0000);
        lemma_mul_bound(dx as int, dx as int, 0x2000_0000, 0x2000_0000);
        lemma_mul_bound(dy as int, dy as int, 0x2000_0000, 0x2000_0000);
        lemma_mul_bound(dx as int, ux as int, 0x2000_0000, 0x2000_0000);
        lemma_mul_bound(dy as int, uy as int, 0x2000_0000, 0x2000_0000);
        lemma_square_nonneg(ux as int);
        lemma_square_nonneg(uy as int);
    }
    let z2: i128 = zx * zx + zy * zy;
    if z2 > JOIN_TOLERANCE_SQ as i128 {
        return None;
    }
    let u2: i128 = ux * ux + uy * uy;
    let d2: i128 = dx * dx + dy * dy;
    if u2 == 0 {
        return Some(*ls2);
    }
    let du: i128 = dx * ux + dy * uy;
    if du < u2 {
        return None;
    }
    proof {
        lemma_mul_bound(d2 as int, u2 as int, 0x800_0000_0000_0000, 0x800_0000_0000_0000);
        lemma_mul_bound(du as int, du as int, 0x800_0000_0000_0000, 0x800_0000_0000_0000);
        lemma_mul_bound(JOIN_TOLERANCE_SQ as int, u2 as int, 1_000_000, 0x800_0000_0000_0000);
        lemma_mul_bound(ux as int, du as int, 0x2000_0000, 0x800_0000_0000_0000);
        lemma_mul_bound(uy as int, du as int, 0x2000_0000, 0x800_0000_0000_0000);
    }
    if d2 * u2 - du * du > (JOIN_TOLERANCE_SQ as i128) * u2 {
        return None;
    }
    proof {
        lemma_round_div_bound(ux * du, u2 as int, 0x1_0000_0000_0000_0000_0000_0000int);
        lemma_round_div_bound(uy * du, u2 as int, 0x1_0000_0000_0000_0000_0000_0000int);
    }
    let ex: i128 = x0x + div_round(ux * du, u2);
    let ey: i128 = x0y + div_round(uy * du, u2);
    let lim: i128 = COORD_MAX as i128;
    if -lim <= ex && ex <= lim && -lim <= ey && ey <= lim {
        Some(LineSegment { ps: [ls1.ps[0], Point { vs: [ex as i64, ey as i64] }] })
    } else {
        None
    }
}

/// A square is never negative.
pub proof fn lemma_square_nonneg(a: int)
    ensures
        a * a >= 0,
{
    assert(a * a >= 0) by (nonlinear_arith);
}

/// A quotient by a positive divisor is no larger in magnitude than the
/// dividend, give or take the rounding.
pub proof fn lemma_round_div_bound(a: int, b: int, m: int)
    requires
        b > 0,
        -m <= a <= m,
    ensures
        -m - 1 <= round_div(a, b) <= m + 1,
{
    assert(m * b >= m) by (nonlinear_arith)
        requires
            b >= 1,
            m >= 0,
    ;
    assert((-m) * b == -(m * b)) by (nonlinear_arith);
    lemma_round_div_between(a, b, -m, m);
}


/// The segment of the plane with the given end points, where they fit the
/// machine integers.
pub open spec fn segment_of(s: Seg2) -> LineSegment<2> {
    LineSegment {
        ps: [
            Point { vs: [s.a.x as i64, s.a.y as i64] },
            Point { vs: [s.b.x as i64, s.b.y as i64] },
        ],
    }
}

/// The join of two segments, as a segment.
pub open spec fn merged(l1: LineSegment<2>, l2: LineSegment<2>) -> Option<LineSegment<2>> {
    match merge_spec(l1@, l2@) {
        Some(m) => Some(segment_of(m)),
        None => None,
    }
}

/// What the greedy join sends on for the input from position `i`, when it
/// holds `current`.
///
/// An incoming segment that joins the held one replaces it by the join. One
/// that does not is held in its place, and the segment held so far is sent
/// on. At the end of the input the held segment is sent on.
pub open spec fn stage_a_from(
    current: Option<LineSegment<2>>,
    input: Seq<LineSegment<2>>,
    i: int,
) -> Seq<LineSegment<2>>
    decreases input.len() - i,
{
    if i < 0 || i >= input.len() {
        match current {
            Some(c) => seq![c],
            None => Seq::empty(),
        }
    } else {
        match current {
            None => stage_a_from(Some(input[i]), input, i + 1),
            Some(c) => match merged(c, input[i]) {
                Some(m) => stage_a_from(Some(m), input, i + 1),
                None => seq![c] + stage_a_from(Some(input[i]), input, i + 1),
            },
        }
    }
}

/// What the greedy join makes of a whole input.
pub open spec fn stage_a(input: Seq<LineSegment<2>>) -> Seq<LineSegment<2>> {
    stage_a_from(None, input, 0)
}

/// The first stage never sends on more segments than it has taken and
/// holds.
pub proof fn lemma_stage_a_len(current: Option<LineSegment<2>>, input: Seq<LineSegment<2>>, i: int)
    requires
        0 <= i <= input.len(),
    ensures
        stage_a_from(current, input, i).len() <= input.len() - i + if current is Some {
            1int
        } else {
            0int
        },
    decreases input.len() - i,
{
    if i < input.len() {
        match current {
            None => {
                lemma_stage_a_len(Some(input[i]), input, i + 1);
            },
            Some(c) => match merged(c, input[i]) {
                Some(m) => {
                    lemma_stage_a_len(Some(m), input, i + 1);
                },
                None => {
                    lemma_stage_a_len(Some(input[i]), input, i + 1);
                },
            },
        }
    }
}

/// Every segment of the sequence is well-formed.
pub open spec fn all_wf(v: Seq<LineSegment<2>>) -> bool {
    forall|i: int| 0 <= i < v.len() ==> (#[trigger] v[i]).wf()
}

/// The first stage: joins each segment to the one before it in the stream
/// where the two continue one another.
pub struct LineMerger<const N: usize> {
    pub current_line: Option<LineSegment<N>>,
}

impl LineMerger<2> {
    /// The held segment, if any, is well-formed.
    pub open spec fn wf(self) -> bool {
        self.current_line matches Some(c) ==> c.wf()
    }

    /// A merger that holds nothing.
    pub fn new() -> (r: LineMerger<2>)
        ensures
            r.current_line is None,
            r.wf(),
    {
        LineMerger { current_line: None }
    }

    /// Takes the next segment of the stream and hands back the segment that
    /// is thereby finished, if one is.
    pub fn push(&mut self, ls: LineSegment<2>) -> (out: Option<LineSegment<2>>)
        requires
            old(self).wf(),
            ls.wf(),
        ensures
            final(self).wf(),
            out matches Some(o) ==> o.wf(),
            match old(self).current_line {
                None => out is None && final(self).current_line == Some(ls),
                Some(c) => match merged(c, ls) {
                    Some(m) => out is None && final(self).current_line == Some(m),
                    None => out == Some(c) && final(self).current_line == Some(ls),
                },
            },
    {
        match self.current_line {
            Some(current) => {
                match merge(&current, &ls) {
                    Some(lm) => {
                        proof {
                            crate::nbase::line_segment::lemma_segment2_ext(
                                lm,
                                segment_of(merge_spec(current@, ls@).unwrap()),
                            );
                        }
                        self.current_line = Some(lm);
                        None
                    },
                    None => {
                        self.current_line = Some(ls);
                        Some(current)
                    },
                }
            },
            None => {
                self.current_line = Some(ls);
                None
            },
        }
    }

    /// Hands back the held segment at the end of the stream.
    pub fn finish(&mut self) -> (out: Option<LineSegment<2>>)
        requires
            old(self).wf(),
        ensures
            out == old(self).current_line,
            final(self).current_line is None,
            out matches Some(o) ==> o.wf(),
    {
        let out = self.current_line;
        self.current_line = None;
        out
    }

    /// Runs the stage over a whole input.
    pub fn run(self, input: &Vec<LineSegment<2>>) -> (out: Vec<LineSegment<2>>)
        requires
            self.wf(),
            all_wf(input@),
        ensures
            out@ == stage_a_from(self.current_line, input@, 0),
            all_wf(out@),
    {
        let mut merger = self;
        let mut out: Vec<LineSegment<2>> = Vec::new();
        let mut i: usize = 0;
        while i < input.len()
            invariant
                i <= input.len(),
                merger.wf(),
                all_wf(input@),
                all_wf(out@),
                out@ + stage_a_from(merger.current_line, input@, i as int) == stage_a_from(
                    self.current_line,
                    input@,
                    0,
                ),
            decreases input.len() - i,
        {
            let ghost before = out@;
            let ghost tail = stage_a_from(merger.current_line, input@, i as int);
            if let Some(done) = merger.push(input[i]) {
                out.push(done);
            }
            assert(out@ + stage_a_from(merger.current_line, input@, i + 1) =~= before + tail);
            i += 1;
        }
        let ghost before = out@;
        let ghost held = merger.current_line;
        if let Some(done) = merger.finish() {
            out.push(done);
        }
        assert(out@ =~= before + stage_a_from(held, input@, i as int));
        out
    }
}

/// A whole multiple of the divisor has that multiple as its rounded quotient.
pub proof fn lemma_round_div_exact(k: int, b: int)
    requires
        b > 0,
    ensures
        round_div(k * b, b) == k,
{
    lemma_round_div_between(k * b, b, k, k);
}

/// If `n * a == m * b` then `n * (a * c) == m * (b * c)`.
pub proof fn lemma_scaled_product(n: int, a: int, m: int, b: int, c: int)
    requires
        a * n == b * m,
    ensures
        n * (a * c) == m * (b * c),
{
    assert(n * (a * c) == (a * n) * c) by (nonlinear_arith);
    assert(m * (b * c) == (b * m) * c) by (nonlinear_arith);
}

/// If `n * p == m * q` and `n * a == m * b` with `n` positive, then
/// `b * p == a * q`.
pub proof fn lemma_cross_cancel(n: int, m: int, p: int, q: int, a: int, b: int)
    requires
        n * p == m * q,
        a * n == b * m,
        n > 0,
    ensures
        b * p == a * q,
{
    assert(n * (b * p) == b * (n * p)) by (nonlinear_arith);
    assert(b * (m * q) == (b * m) * q) by (nonlinear_arith);
    assert((a * n) * q == n * (a * q)) by (nonlinear_arith);
    assert(n * (b * p) == n * (a * q));
    assert(b * p == a * q) by (nonlinear_arith)
        requires
            n * (b * p) == n * (a * q),
            n > 0,
    ;
}

/// Two segments that share an end point within the tolerance, the second
/// running on in the direction of the first, join into the one segment from
/// the start of the first to the end of the second.
///
/// That the second runs on in the direction of the first is stated by whole
/// numbers `m >= n > 0`: `n` times the way to the far end of the second is
/// `m` times the first segment.
pub proof fn lemma_adjacent_merge(s1: Seg2, s2: Seg2, m: int, n: int)
    requires
        s2.b.within(COORD_MAX as int),
        s1.a != s1.b,
        s1.b.sub(s2.a).norm2() <= JOIN_TOLERANCE_SQ,
        0 < n <= m,
        s2.b.sub(s1.a).scale(n) == s1.b.sub(s1.a).scale(m),
    ensures
        merge_spec(s1, s2) == Some(Seg2 { a: s1.a, b: s2.b }),
{
    let u = s1.b.sub(s1.a);
    let d = s2.b.sub(s1.a);
    let u2 = u.norm2();
    let d2 = d.norm2();
    let du = d.dot(u);
    assert(u2 > 0) by (nonlinear_arith)
        requires
            u2 == u.x * u.x + u.y * u.y,
            u.x != 0 || u.y != 0,
    ;
    lemma_scaled_product(n, d.x, m, u.x, u.x);
    lemma_scaled_product(n, d.y, m, u.y, u.y);
    assert(n * du == n * (d.x * u.x) + n * (d.y * u.y)) by (nonlinear_arith)
        requires
            du == d.x * u.x + d.y * u.y,
    ;
    assert(m * u2 == m * (u.x * u.x) + m * (u.y * u.y)) by (nonlinear_arith)
        requires
            u2 == u.x * u.x + u.y * u.y,
    ;
    assert(n * du == m * u2);
    assert(du >= u2) by (nonlinear_arith)
        requires
            n * du == m * u2,
            0 < n <= m,
            u2 > 0,
    ;
    lemma_cross_cancel(n, m, du, u2, d.x, u.x);
    lemma_cross_cancel(n, m, du, u2, d.y, u.y);
    assert(d2 * u2 == d.x * (d.x * u2) + d.y * (d.y * u2)) by (nonlinear_arith)
        requires
            d2 == d.x * d.x + d.y * d.y,
    ;
    assert(du * du == d.x * (u.x * du) + d.y * (u.y * du)) by (nonlinear_arith)
        requires
            du == d.x * u.x + d.y * u.y,
    ;
    assert(d2 * u2 == du * du);
    assert(JOIN_TOLERANCE_SQ * u2 >= 0) by (nonlinear_arith)
        requires
            u2 > 0,
    ;
    lemma_round_div_exact(d.x, u2);
    lemma_round_div_exact(d.y, u2);
    assert(extension(s1, s2) == s2.b);
}

/// Two such segments pass the first stage as exactly one segment, which
/// spans both.
pub proof fn lemma_adjacent_merge_stream(l1: LineSegment<2>, l2: LineSegment<2>, m: int, n: int)
    requires
        l1.wf(),
        l2.wf(),
        l1@.a != l1@.b,
        l1@.b.sub(l2@.a).norm2() <= JOIN_TOLERANCE_SQ,
        0 < n <= m,
        l2@.b.sub(l1@.a).scale(n) == l1@.b.sub(l1@.a).scale(m),
    ensures
        stage_a(seq![l1, l2]).len() == 1,
        stage_a(seq![l1, l2])[0]@ == (Seg2 { a: l1@.a, b: l2@.b }),
{
    lemma_adjacent_merge(l1@, l2@, m, n);
    let input = seq![l1, l2];
    let joined = segment_of(Seg2 { a: l1@.a, b: l2@.b });
    assert(merged(l1, l2) == Some(joined));
    assert(stage_a_from(Some(joined), input, 2) == seq![joined]);
    assert(stage_a_from(Some(l1), input, 1) == stage_a_from(Some(joined), input, 2));
    assert(stage_a_from(None, input, 0) == stage_a_from(Some(l1), input, 1));
}


/// The scale by which the pipeline quantises directions.
pub const DEFAULT_DIRECTION_SCALE: i64 = 600;

/// The scale by which the pipeline quantises offsets.
pub const DEFAULT_OFFSET_SCALE: i64 = 20;

/// The three stages, one feeding the next.
pub struct MegaMerger<const N: usize> {
    pub line_merger: LineMerger<N>,
    pub binning_merger: BinningLineMergerAndDeduplicator<N>,
    pub polyline_merger: BinningPolyLineMerger<N>,
}

impl MegaMerger<2> {
    /// Every stage is well-formed.
    pub open spec fn wf(self) -> bool {
        &&& self.line_merger.wf()
        &&& self.binning_merger.core.wf()
        &&& self.polyline_merger.wf()
    }

    /// What the three stages, from the state they are in, make of an input:
    /// the first stage joins neighbours, the second collects what the first
    /// sends on and deduplicates it, the third builds chains of what the
    /// second hands out.
    pub open spec fn output(self, input: Seq<LineSegment<2>>) -> Seq<Seq<V2>> {
        survivors_from(
            chain_run(
                self.polyline_merger.state(),
                flatten(
                    add_all(
                        self.binning_merger.core.bins(),
                        stage_a_from(self.line_merger.current_line, input, 0),
                        0,
                        self.binning_merger.core.n_scale as int,
                        self.binning_merger.core.p_scale as int,
                    ),
                ),
                0,
            ).entries,
            0,
        )
    }

    /// Three fresh stages, the second with the default scales.
    pub fn new() -> (r: MegaMerger<2>)
        ensures
            r.wf(),
            r.line_merger.current_line is None,
            r.binning_merger.core.bins() == Seq::<merge_and_deduplicate::Bin>::empty(),
            r.binning_merger.core.n_scale == DEFAULT_DIRECTION_SCALE,
            r.binning_merger.core.p_scale == DEFAULT_OFFSET_SCALE,
            r.polyline_merger.state() == polyline_merger::empty_chain_state(),
    {
        MegaMerger {
            line_merger: LineMerger::new(),
            binning_merger: BinningLineMergerAndDeduplicator::new(
                DEFAULT_DIRECTION_SCALE,
                DEFAULT_OFFSET_SCALE,
            ),
            polyline_merger: BinningPolyLineMerger::new(),
        }
    }

    /// Runs the three stages over a whole input.
    pub fn run(self, input: &Vec<LineSegment<2>>) -> (out: Vec<PolyLine<2>>)
        requires
            self.wf(),
            all_wf(input@),
        ensures
            polylines_view(out@) == self.output(input@),
            forall|i: int| 0 <= i < out@.len() ==> (#[trigger] out@[i]).wf(),
    {
        let joined = self.line_merger.run(input);
        let unique = self.binning_merger.run(&joined);
        self.polyline_merger.run(&unique)
    }
}


/// What three fresh stages make of an input is what the third stage makes
/// of what the second makes of what the first makes of it.
pub proof fn lemma_fresh_output(m: MegaMerger<2>, input: Seq<LineSegment<2>>)
    requires
        m.line_merger.current_line is None,
        m.binning_merger.core.bins() == Seq::<merge_and_deduplicate::Bin>::empty(),
        m.binning_merger.core.n_scale == DEFAULT_DIRECTION_SCALE,
        m.binning_merger.core.p_scale == DEFAULT_OFFSET_SCALE,
        m.polyline_merger.state() == polyline_merger::empty_chain_state(),
    ensures
        m.output(input) == stage_c(
            stage_b(stage_a(input), DEFAULT_DIRECTION_SCALE as int, DEFAULT_OFFSET_SCALE as int),
        ),
{
}


/// Largest distance, in grid steps, that goes with `JOIN_TOLERANCE_SQ`: a
/// tenth of a drawing unit.
pub const JOIN_TOLERANCE: i64 = 1_000;

/// The cross product of two plane vectors, squared, is the product of their
/// squared lengths less the square of their dot product.
pub proof fn lemma_cross_square(u: V2, d: V2)
    ensures
        d.norm2() * u.norm2() - d.dot(u) * d.dot(u) == (u.x * d.y - u.y * d.x) * (u.x * d.y - u.y
            * d.x),
{
    let (ux, uy, dx, dy) = (u.x, u.y, d.x, d.y);
    let a = dx * ux;
    let b = dy * uy;
    let p = ux * dy;
    let q = uy * dx;
    assert((dx * dx + dy * dy) * (ux * ux + uy * uy) == (dx * dx) * (ux * ux) + (dx * dx) * (uy
        * uy) + (dy * dy) * (ux * ux) + (dy * dy) * (uy * uy)) by (nonlinear_arith);
    assert((a + b) * (a + b) == a * a + 2 * (a * b) + b * b) by (nonlinear_arith);
    assert((p - q) * (p - q) == p * p - 2 * (p * q) + q * q) by (nonlinear_arith);
    assert(a * a == (dx * dx) * (ux * ux)) by (nonlinear_arith)
        requires
            a == dx * ux,
    ;
    assert(b * b == (dy * dy) * (uy * uy)) by (nonlinear_arith)
        requires
            b == dy * uy,
    ;
    assert(p * p == (dy * dy) * (ux * ux)) by (nonlinear_arith)
        requires
            p == ux * dy,
    ;
    assert(q * q == (dx * dx) * (uy * uy)) by (nonlinear_arith)
        requires
            q == uy * dx,
    ;
    assert(a * b == p * q) by (nonlinear_arith)
        requires
            a == dx * ux,
            b == dy * uy,
            p == ux * dy,
            q == uy * dx,
    ;
}

/// How far the foot of `d` on the line of `u` is from `d` itself, in one
/// coordinate and times the squared length of `u`: the other coordinate of
/// `u` times the cross product of the two.
pub proof fn lemma_foot_offset(u: V2, d: V2)
    ensures
        u.x * d.dot(u) - d.x * u.norm2() == u.y * (u.x * d.y - u.y * d.x),
        u.y * d.dot(u) - d.y * u.norm2() == -(u.x * (u.x * d.y - u.y * d.x)),
{
    let (ux, uy, dx, dy) = (u.x, u.y, d.x, d.y);
    assert(ux * (dx * ux + dy * uy) == ux * (dx * ux) + ux * (dy * uy)) by (nonlinear_arith);
    assert(dx * (ux * ux + uy * uy) == dx * (ux * ux) + dx * (uy * uy)) by (nonlinear_arith);
    assert(uy * (ux * dy - uy * dx) == uy * (ux * dy) - uy * (uy * dx)) by (nonlinear_arith);
    assert(ux * (dx * ux) == dx * (ux * ux)) by (nonlinear_arith);
    assert(ux * (dy * uy) == uy * (ux * dy)) by (nonlinear_arith);
    assert(dx * (uy * uy) == uy * (uy * dx)) by (nonlinear_arith);
    assert(uy * (dx * ux + dy * uy) == uy * (dx * ux) + uy * (dy * uy)) by (nonlinear_arith);
    assert(dy * (ux * ux + uy * uy) == dy * (ux * ux) + dy * (uy * uy)) by (nonlinear_arith);
    assert(ux * (ux * dy - uy * dx) == ux * (ux * dy) - ux * (uy * dx)) by (nonlinear_arith);
    assert(uy * (dy * uy) == dy * (uy * uy)) by (nonlinear_arith);
    assert(uy * (dx * ux) == ux * (uy * dx)) by (nonlinear_arith);
    assert(dy * (ux * ux) == ux * (ux * dy)) by (nonlinear_arith);
}

/// A product whose square is at most the square of a bound times a square
/// lies within the bound times that square's root: if `c * c <= k * k *
/// n` and `v * v <= n` then `v * c` lies within `k * n`.
pub proof fn lemma_product_within(v: int, c: int, k: int, n: int)
    requires
        k >= 0,
        n >= 0,
        c * c <= (k * k) * n,
        v * v <= n,
    ensures
        -(k * n) <= v * c <= k * n,
{
    let w = v * c;
    lemma_square_nonneg(v);
    lemma_square_nonneg(c);
    assert(w * w == (v * v) * (c * c)) by (nonlinear_arith)
        requires
            w == v * c,
    ;
    assert((v * v) * (c * c) <= n * ((k * k) * n)) by (nonlinear_arith)
        requires
            0 <= v * v <= n,
            0 <= c * c <= (k * k) * n,
    ;
    assert(n * ((k * k) * n) == (k * n) * (k * n)) by (nonlinear_arith);
    assert(-(k * n) <= w <= k * n) by (nonlinear_arith)
        requires
            w * w <= (k * n) * (k * n),
            k * n >= 0,
    ;
    assert(k * n >= 0) by (nonlinear_arith)
        requires
            k >= 0,
            n >= 0,
    ;
}

/// Where the far end of the second segment lies on the line of the first,
/// within the tolerance, the far end of the join is within the tolerance of
/// the far end of the second, in either coordinate.
pub proof fn lemma_extension_near(s1: Seg2, s2: Seg2)
    requires
        s1.a != s1.b,
        s2.b.sub(s1.a).norm2() * s1.b.sub(s1.a).norm2() - s2.b.sub(s1.a).dot(s1.b.sub(s1.a))
            * s2.b.sub(s1.a).dot(s1.b.sub(s1.a)) <= JOIN_TOLERANCE_SQ * s1.b.sub(s1.a).norm2(),
    ensures
        -JOIN_TOLERANCE <= extension(s1, s2).x - s2.b.x <= JOIN_TOLERANCE,
        -JOIN_TOLERANCE <= extension(s1, s2).y - s2.b.y <= JOIN_TOLERANCE,
{
    let u = s1.b.sub(s1.a);
    let d = s2.b.sub(s1.a);
    let u2 = u.norm2();
    let du = d.dot(u);
    let cr = u.x * d.y - u.y * d.x;
    lemma_square_nonneg(u.x);
    lemma_square_nonneg(u.y);
    lemma_square_nonneg(cr);
    assert(u2 > 0) by (nonlinear_arith)
        requires
            u2 == u.x * u.x + u.y * u.y,
            u.x != 0 || u.y != 0,
    ;
    lemma_cross_square(u, d);
    lemma_foot_offset(u, d);
    assert(JOIN_TOLERANCE_SQ * u2 == (1000 * 1000) * u2);
    lemma_product_within(u.y, cr, 1000, u2);
    lemma_product_within(u.x, cr, 1000, u2);
    assert((d.x - 1000) * u2 == d.x * u2 - 1000 * u2) by (nonlinear_arith);
    assert((d.x + 1000) * u2 == d.x * u2 + 1000 * u2) by (nonlinear_arith);
    assert((d.y - 1000) * u2 == d.y * u2 - 1000 * u2) by (nonlinear_arith);
    assert((d.y + 1000) * u2 == d.y * u2 + 1000 * u2) by (nonlinear_arith);
    lemma_round_div_between(u.x * du, u2, d.x - 1000, d.x + 1000);
    lemma_round_div_between(u.y * du, u2, d.y - 1000, d.y + 1000);
}

/// When two segments join: whenever the second starts where the first
/// ends, within the tolerance, and its far end lies on the line of the
/// first, within the tolerance, and not short of the far end of the first,
/// and no nearer than the tolerance to the edge of the coordinate range.
pub proof fn lemma_merge_succeeds(s1: Seg2, s2: Seg2)
    requires
        s1.a != s1.b,
        s1.b.sub(s2.a).norm2() <= JOIN_TOLERANCE_SQ,
        s2.b.sub(s1.a).dot(s1.b.sub(s1.a)) >= s1.b.sub(s1.a).norm2(),
        s2.b.sub(s1.a).norm2() * s1.b.sub(s1.a).norm2() - s2.b.sub(s1.a).dot(s1.b.sub(s1.a))
            * s2.b.sub(s1.a).dot(s1.b.sub(s1.a)) <= JOIN_TOLERANCE_SQ * s1.b.sub(s1.a).norm2(),
        s2.b.within(COORD_MAX - JOIN_TOLERANCE),
    ensures
        merge_spec(s1, s2) == Some(Seg2 { a: s1.a, b: extension(s1, s2) }),
{
    let u = s1.b.sub(s1.a);
    lemma_extension_near(s1, s2);
    assert(u.norm2() > 0) by (nonlinear_arith)
        requires
            u.norm2() == u.x * u.x + u.y * u.y,
            u.x != 0 || u.y != 0,
    ;
}

/// What a join is, where the first segment has length: it starts where the
/// first segment starts; it ends at the foot of the far end of the second
/// on the line of the first, rounded to the grid; it is at least as long as
/// the first; and its far end is within the tolerance of the far end of the
/// second, in either coordinate.
pub proof fn lemma_merge_extends(s1: Seg2, s2: Seg2)
    requires
        s1.a != s1.b,
        merge_spec(s1, s2) is Some,
    ensures
        ({
            let r = merge_spec(s1, s2).unwrap();
            &&& r.a == s1.a
            &&& r.b == extension(s1, s2)
            &&& r.len2() >= s1.len2()
            &&& -JOIN_TOLERANCE <= r.b.x - s2.b.x <= JOIN_TOLERANCE
            &&& -JOIN_TOLERANCE <= r.b.y - s2.b.y <= JOIN_TOLERANCE
        }),
{
    let u = s1.b.sub(s1.a);
    let d = s2.b.sub(s1.a);
    let u2 = u.norm2();
    let du = d.dot(u);
    let r = merge_spec(s1, s2).unwrap();
    assert(u2 > 0) by (nonlinear_arith)
        requires
            u2 == u.x * u.x + u.y * u.y,
            u.x != 0 || u.y != 0,
    ;
    assert(r == (Seg2 { a: s1.a, b: extension(s1, s2) }));
    lemma_extension_near(s1, s2);
    // The join is at least as long as the first segment.
    let qx = round_div(u.x * du, u2);
    let qy = round_div(u.y * du, u2);
    lemma_component_grows(u.x, du, u2);
    lemma_component_grows(u.y, du, u2);
    assert(r.b.sub(r.a) == (V2 { x: qx, y: qy }));
}

/// A component of a vector that is stretched by a factor of one or more,
/// and rounded, is no smaller in magnitude than before.
pub proof fn lemma_component_grows(c: int, du: int, u2: int)
    requires
        u2 > 0,
        du >= u2,
    ensures
        round_div(c * du, u2) * round_div(c * du, u2) >= c * c,
{
    let q = round_div(c * du, u2);
    if c >= 0 {
        assert(c * u2 <= c * du) by (nonlinear_arith)
            requires
                c >= 0,
                du >= u2,
        ;
        assert(c * du <= (c * du) * u2) by (nonlinear_arith)
            requires
                c >= 0,
                du >= u2,
                u2 > 0,
        ;
        lemma_round_div_between(c * du, u2, c, c * du);
        assert(q * q >= c * c) by (nonlinear_arith)
            requires
                q >= c,
                c >= 0,
        ;
    } else {
        assert(c * du <= c * u2) by (nonlinear_arith)
            requires
                c < 0,
                du >= u2,
        ;
        assert((c * du) * u2 <= c * du) by (nonlinear_arith)
            requires
                c < 0,
                du >= u2,
                u2 > 0,
        ;
        lemma_round_div_between(c * du, u2, c * du, c);
        assert(q * q >= c * c) by (nonlinear_arith)
            requires
                q <= c,
                c < 0,
        ;
    }
}


/// Every link of every polyline that three fresh stages hand out stands for
/// one stroke that the second stage handed on, in one of its two
/// directions, with either end within the tolerance of the end of that
/// stroke. The strokes that the second stage hands on lie, on any one line,
/// more than the gap apart, so that no stretch of a line is drawn twice.
pub proof fn lemma_pipeline_links(input: Seq<LineSegment<2>>, e: int)
    requires
        0 <= e < stage_c(
            stage_b(stage_a(input), DEFAULT_DIRECTION_SCALE as int, DEFAULT_OFFSET_SCALE as int),
        ).len(),
    ensures
        sources::sourced(
            sources::segments_view(
                stage_b(
                    stage_a(input),
                    DEFAULT_DIRECTION_SCALE as int,
                    DEFAULT_OFFSET_SCALE as int,
                ),
            ),
            stage_c(
                stage_b(
                    stage_a(input),
                    DEFAULT_DIRECTION_SCALE as int,
                    DEFAULT_OFFSET_SCALE as int,
                ),
            )[e],
        ),
{
    sources::lemma_stage_c_sourced(
        stage_b(stage_a(input), DEFAULT_DIRECTION_SCALE as int, DEFAULT_OFFSET_SCALE as int),
        e,
    );
}

} // verus!
