//! Deduplication of strokes by the infinite line they lie on.
//!
//! Every segment is filed under a quantised description of its line: the
//! direction, and the point of the line nearest the origin. Along one line the
//! strokes are kept as a sorted set of parameter intervals, any two of them
//! more than the gap apart: what overlaps, or comes within the gap, is united.
use crate::arith::{div_round, is_sqrt_floor, isqrt, lemma_sqrt_floor_monotone, round_div, sqrt_floor};
use crate::nbase::line_segment::{LineSegment, Seg2};
use crate::nbase::point::{lemma_mul_bound, Point, COORD_MAX, UNIT, V2};
use std::collections::HashMap;
use vstd::prelude::*;

verus! {

/// Largest gap, in grid steps, that is closed when two intervals on one line
/// are merged: a tenth of a drawing unit.
pub const COALESCE_GAP: i64 = 1_000;

/// A stretch of a line between the parameters `t0` and `t1`, together with
/// the end points of the strokes that supplied those two parameters.
#[derive(Clone, Copy, Debug)]
pub struct AugmentedLineSegment<const N: usize> {
    pub t0: i64,
    pub t1: i64,
    pub x0: Point<N>,
    pub x1: Point<N>,
}

/// The stretches of one line that are covered by strokes.
#[derive(Debug)]
pub struct IntervalSet<const N: usize> {
    pub intervals: Vec<AugmentedLineSegment<N>>,
}

/// Every interval runs forward, and each ends more than the gap before the
/// next one starts.
pub open spec fn intervals_wf<const N: usize>(s: Seq<AugmentedLineSegment<N>>) -> bool {
    &&& forall|i: int| 0 <= i < s.len() ==> (#[trigger] s[i]).t0 <= s[i].t1
    &&& forall|i: int, j: int|
        0 <= i < j < s.len() ==> (#[trigger] s[i]).t1 + COALESCE_GAP < (#[trigger] s[j]).t0
}

/// The union of an interval under insertion and an interval of the set that
/// it touches: each end comes, with its end point, from the side that reaches
/// further.
pub open spec fn coalesce<const N: usize>(
    active: AugmentedLineSegment<N>,
    current: AugmentedLineSegment<N>,
) -> AugmentedLineSegment<N> {
    AugmentedLineSegment {
        t0: if active.t0 <= current.t0 {
            active.t0
        } else {
            current.t0
        },
        x0: if active.t0 <= current.t0 {
            active.x0
        } else {
            current.x0
        },
        t1: if active.t1 >= current.t1 {
            active.t1
        } else {
            current.t1
        },
        x1: if active.t1 >= current.t1 {
            active.x1
        } else {
            current.x1
        },
    }
}

/// The sweep over the intervals of `s` from position `i` on, carrying the
/// interval under insertion for as long as it is `active`.
///
/// An interval of the set that ends more than the gap before the active one
/// is kept; one that starts more than the gap after it closes the sweep: the
/// active interval is put in front of it. An interval of the set that lies
/// within the active one is absorbed; one that holds the active one absorbs
/// it. Any other is united with the active one, and the union stays active
/// only if the active one supplied its far end.
pub open spec fn sweep<const N: usize>(
    s: Seq<AugmentedLineSegment<N>>,
    i: int,
    active: Option<AugmentedLineSegment<N>>,
) -> Seq<AugmentedLineSegment<N>>
    decreases s.len() - i,
{
    if i < 0 || i >= s.len() {
        match active {
            Some(a) => seq![a],
            None => Seq::empty(),
        }
    } else {
        let c = s[i];
        match active {
            None => seq![c] + sweep(s, i + 1, None),
            Some(a) => if c.t1 < a.t0 - COALESCE_GAP {
                seq![c] + sweep(s, i + 1, Some(a))
            } else if c.t0 > a.t1 + COALESCE_GAP {
                seq![a, c] + sweep(s, i + 1, None)
            } else if a.t0 <= c.t0 && c.t1 <= a.t1 {
                sweep(s, i + 1, Some(a))
            } else if c.t0 <= a.t0 && a.t1 <= c.t1 {
                seq![c] + sweep(s, i + 1, None)
            } else if a.t1 >= c.t1 {
                sweep(s, i + 1, Some(coalesce(a, c)))
            } else {
                seq![coalesce(a, c)] + sweep(s, i + 1, None)
            },
        }
    }
}

/// The set after the insertion of one interval: what the sweep over the
/// whole set makes of it.
pub open spec fn add_interval_spec<const N: usize>(
    s: Seq<AugmentedLineSegment<N>>,
    a: AugmentedLineSegment<N>,
) -> Seq<AugmentedLineSegment<N>> {
    sweep(s, 0, Some(a))
}

/// The sweep keeps a well-formed set well-formed, and puts nothing within
/// the gap of a parameter `lo` that everything it works on lies more than
/// the gap after.
pub proof fn lemma_sweep_wf<const N: usize>(
    s: Seq<AugmentedLineSegment<N>>,
    i: int,
    active: Option<AugmentedLineSegment<N>>,
    lo: int,
)
    requires
        intervals_wf(s),
        0 <= i <= s.len(),
        forall|j: int| i <= j < s.len() ==> (#[trigger] s[j]).t0 > lo + COALESCE_GAP,
        active matches Some(a) ==> a.t0 <= a.t1 && a.t0 > lo + COALESCE_GAP,
    ensures
        intervals_wf(sweep(s, i, active)),
        forall|k: int|
            0 <= k < sweep(s, i, active).len() ==> (#[trigger] sweep(s, i, active)[k]).t0 > lo
                + COALESCE_GAP,
    decreases s.len() - i,
{
    if i >= s.len() {
    } else {
        let c = s[i];
        assert(c.t0 <= c.t1);
        assert(forall|j: int|
            i + 1 <= j < s.len() ==> (#[trigger] s[j]).t0 > c.t1 + COALESCE_GAP);
        match active {
            None => {
                lemma_sweep_wf(s, i + 1, None, c.t1 as int);
                lemma_prepend_wf(c, sweep(s, i + 1, None));
            },
            Some(a) => {
                if c.t1 < a.t0 - COALESCE_GAP {
                    lemma_sweep_wf(s, i + 1, Some(a), c.t1 as int);
                    lemma_prepend_wf(c, sweep(s, i + 1, Some(a)));
                } else if c.t0 > a.t1 + COALESCE_GAP {
                    lemma_sweep_wf(s, i + 1, None, c.t1 as int);
                    let r = sweep(s, i + 1, None);
                    lemma_prepend_wf(c, r);
                    lemma_prepend_wf(a, seq![c] + r);
                    assert(seq![a, c] + r =~= seq![a] + (seq![c] + r));
                } else if a.t0 <= c.t0 && c.t1 <= a.t1 {
                    lemma_sweep_wf(s, i + 1, Some(a), lo);
                } else if c.t0 <= a.t0 && a.t1 <= c.t1 {
                    lemma_sweep_wf(s, i + 1, None, c.t1 as int);
                    lemma_prepend_wf(c, sweep(s, i + 1, None));
                } else if a.t1 >= c.t1 {
                    lemma_sweep_wf(s, i + 1, Some(coalesce(a, c)), lo);
                } else {
                    lemma_sweep_wf(s, i + 1, None, c.t1 as int);
                    lemma_prepend_wf(coalesce(a, c), sweep(s, i + 1, None));
                }
            },
        }
    }
}

/// An interval that ends more than the gap before everything in a
/// well-formed set may be put in front of it.
pub proof fn lemma_prepend_wf<const N: usize>(
    c: AugmentedLineSegment<N>,
    r: Seq<AugmentedLineSegment<N>>,
)
    requires
        intervals_wf(r),
        c.t0 <= c.t1,
        forall|k: int| 0 <= k < r.len() ==> (#[trigger] r[k]).t0 > c.t1 + COALESCE_GAP,
    ensures
        intervals_wf(seq![c] + r),
        forall|k: int| 0 <= k < (seq![c] + r).len() ==> (#[trigger] (seq![c] + r)[k]).t0 >= c.t0,
{
    let q = seq![c] + r;
    assert forall|i: int| 0 <= i < q.len() implies (#[trigger] q[i]).t0 <= q[i].t1 by {
        if i > 0 {
            assert(q[i] == r[i - 1]);
        }
    }
    assert forall|i: int, j: int| 0 <= i < j < q.len() implies (#[trigger] q[i]).t1
        + COALESCE_GAP < (#[trigger] q[j]).t0 by {
        assert(q[j] == r[j - 1]);
        if i > 0 {
            assert(q[i] == r[i - 1]);
        }
    }
    assert forall|k: int| 0 <= k < q.len() implies (#[trigger] q[k]).t0 >= c.t0 by {
        if k > 0 {
            assert(q[k] == r[k - 1]);
        }
    }
}

/// Insertion keeps a well-formed set well-formed: afterwards, too, any two
/// intervals are more than the gap apart.
pub proof fn lemma_add_interval_wf<const N: usize>(
    s: Seq<AugmentedLineSegment<N>>,
    a: AugmentedLineSegment<N>,
)
    requires
        intervals_wf(s),
        a.t0 <= a.t1,
    ensures
        intervals_wf(add_interval_spec(s, a)),
{
    if s.len() == 0 {
        lemma_sweep_wf(s, 0, Some(a), a.t0 - COALESCE_GAP - 1);
    } else {
        let lo = if s[0].t0 <= a.t0 {
            s[0].t0 - COALESCE_GAP - 1
        } else {
            a.t0 - COALESCE_GAP - 1
        };
        assert forall|j: int| 0 <= j < s.len() implies (#[trigger] s[j]).t0 > lo
            + COALESCE_GAP by {
            if j > 0 {
                assert(s[0].t1 + COALESCE_GAP < s[j].t0);
            }
        }
        lemma_sweep_wf(s, 0, Some(a), lo);
    }
}

/// Both end points of every interval satisfy `good`.
pub open spec fn all_points<const N: usize>(
    s: Seq<AugmentedLineSegment<N>>,
    good: spec_fn(Point<N>) -> bool,
) -> bool {
    forall|i: int| 0 <= i < s.len() ==> good((#[trigger] s[i]).x0) && good(s[i].x1)
}

/// The sweep invents no end point: what holds of all end points that go in
/// holds of all that come out.
pub proof fn lemma_sweep_points<const N: usize>(
    s: Seq<AugmentedLineSegment<N>>,
    i: int,
    active: Option<AugmentedLineSegment<N>>,
    good: spec_fn(Point<N>) -> bool,
)
    requires
        0 <= i,
        all_points(s, good),
        active matches Some(a) ==> good(a.x0) && good(a.x1),
    ensures
        all_points(sweep(s, i, active), good),
    decreases s.len() - i,
{
    if i >= s.len() {
    } else {
        let c = s[i];
        assert(good(c.x0) && good(c.x1));
        match active {
            None => {
                lemma_sweep_points(s, i + 1, None, good);
                lemma_prepend_points(c, sweep(s, i + 1, None), good);
            },
            Some(a) => {
                if c.t1 < a.t0 - COALESCE_GAP {
                    lemma_sweep_points(s, i + 1, Some(a), good);
                    lemma_prepend_points(c, sweep(s, i + 1, Some(a)), good);
                } else if c.t0 > a.t1 + COALESCE_GAP {
                    lemma_sweep_points(s, i + 1, None, good);
                    let r = sweep(s, i + 1, None);
                    lemma_prepend_points(c, r, good);
                    lemma_prepend_points(a, seq![c] + r, good);
                    assert(seq![a, c] + r =~= seq![a] + (seq![c] + r));
                } else if a.t0 <= c.t0 && c.t1 <= a.t1 {
                    lemma_sweep_points(s, i + 1, Some(a), good);
                } else if c.t0 <= a.t0 && a.t1 <= c.t1 {
                    lemma_sweep_points(s, i + 1, None, good);
                    lemma_prepend_points(c, sweep(s, i + 1, None), good);
                } else if a.t1 >= c.t1 {
                    lemma_sweep_points(s, i + 1, Some(coalesce(a, c)), good);
                } else {
                    lemma_sweep_points(s, i + 1, None, good);
                    lemma_prepend_points(coalesce(a, c), sweep(s, i + 1, None), good);
                }
            },
        }
    }
}

/// What holds of the end points of an interval and of those of a set holds
/// of the set with the interval in front.
pub proof fn lemma_prepend_points<const N: usize>(
    c: AugmentedLineSegment<N>,
    r: Seq<AugmentedLineSegment<N>>,
    good: spec_fn(Point<N>) -> bool,
)
    requires
        all_points(r, good),
        good(c.x0),
        good(c.x1),
    ensures
        all_points(seq![c] + r, good),
{
    let q = seq![c] + r;
    assert forall|i: int| 0 <= i < q.len() implies good((#[trigger] q[i]).x0) && good(q[i].x1) by {
        if i > 0 {
            assert(q[i] == r[i - 1]);
        }
    }
}

/// Insertion invents no end point.
pub proof fn lemma_add_interval_points<const N: usize>(
    s: Seq<AugmentedLineSegment<N>>,
    a: AugmentedLineSegment<N>,
    good: spec_fn(Point<N>) -> bool,
)
    requires
        all_points(s, good),
        good(a.x0),
        good(a.x1),
    ensures
        all_points(add_interval_spec(s, a), good),
{
    lemma_sweep_points(s, 0, Some(a), good);
}

/// The parameter `t` lies in one of the intervals.
pub open spec fn covers<const N: usize>(s: Seq<AugmentedLineSegment<N>>, t: int) -> bool {
    exists|i: int| 0 <= i < s.len() && (#[trigger] s[i]).t0 <= t <= s[i].t1
}

/// The parameter `t` lies in a gap between two of the intervals that is no
/// wider than the gap that is closed.
pub open spec fn in_small_gap<const N: usize>(s: Seq<AugmentedLineSegment<N>>, t: int) -> bool {
    exists|i: int, j: int|
        0 <= i < s.len() && 0 <= j < s.len() && (#[trigger] s[i]).t1 < t < (#[trigger] s[j]).t0
            && s[j].t0 - s[i].t1 <= COALESCE_GAP
}

/// The parameter `t` lies in the union of the intervals with every gap that
/// is no wider than the gap that is closed filled in.
pub open spec fn closed_cover<const N: usize>(s: Seq<AugmentedLineSegment<N>>, t: int) -> bool {
    covers(s, t) || in_small_gap(s, t)
}

/// What is covered by an interval, or by a set, is covered by the set with
/// the interval in front.
pub proof fn lemma_prepend_covers<const N: usize>(
    c: AugmentedLineSegment<N>,
    r: Seq<AugmentedLineSegment<N>>,
    t: int,
)
    requires
        c.t0 <= t <= c.t1 || covers(r, t),
    ensures
        covers(seq![c] + r, t),
{
    let q = seq![c] + r;
    if c.t0 <= t <= c.t1 {
        assert(q[0] == c);
    } else {
        let i = choose|i: int| 0 <= i < r.len() && (#[trigger] r[i]).t0 <= t <= r[i].t1;
        assert(q[i + 1] == r[i]);
    }
}

/// What a set with an interval in front covers is covered by the interval
/// or by the set.
pub proof fn lemma_covers_prepended<const N: usize>(
    c: AugmentedLineSegment<N>,
    r: Seq<AugmentedLineSegment<N>>,
    t: int,
)
    requires
        covers(seq![c] + r, t),
    ensures
        c.t0 <= t <= c.t1 || covers(r, t),
{
    let q = seq![c] + r;
    let i = choose|i: int| 0 <= i < q.len() && (#[trigger] q[i]).t0 <= t <= q[i].t1;
    if i > 0 {
        assert(q[i] == r[i - 1]);
        assert(r[i - 1].t0 <= t <= r[i - 1].t1);
    }
}

/// The sweep loses nothing: a parameter that lies in the active interval, or
/// in an interval of the set that the sweep has yet to pass, lies in an
/// interval of the outcome.
pub proof fn lemma_sweep_covers<const N: usize>(
    s: Seq<AugmentedLineSegment<N>>,
    i: int,
    active: Option<AugmentedLineSegment<N>>,
    t: int,
)
    requires
        0 <= i,
        (active matches Some(a) && a.t0 <= t <= a.t1) || (exists|j: int|
            i <= j < s.len() && (#[trigger] s[j]).t0 <= t <= s[j].t1),
    ensures
        covers(sweep(s, i, active), t),
    decreases s.len() - i,
{
    if i >= s.len() {
        let a = active.unwrap();
        assert(seq![a][0] == a);
    } else {
        let c = s[i];
        let in_active = active matches Some(a) && a.t0 <= t <= a.t1;
        let in_c = c.t0 <= t <= c.t1;
        let later = exists|j: int| i + 1 <= j < s.len() && (#[trigger] s[j]).t0 <= t <= s[j].t1;
        assert(in_active || in_c || later) by {
            if !in_active {
                let j = choose|j: int| i <= j < s.len() && (#[trigger] s[j]).t0 <= t <= s[j].t1;
                if j != i {
                    assert(i + 1 <= j < s.len() && s[j].t0 <= t <= s[j].t1);
                }
            }
        }
        match active {
            None => {
                if !in_c {
                    lemma_sweep_covers(s, i + 1, None, t);
                }
                lemma_prepend_covers(c, sweep(s, i + 1, None), t);
            },
            Some(a) => {
                if c.t1 < a.t0 - COALESCE_GAP {
                    if !in_c {
                        lemma_sweep_covers(s, i + 1, Some(a), t);
                    }
                    lemma_prepend_covers(c, sweep(s, i + 1, Some(a)), t);
                } else if c.t0 > a.t1 + COALESCE_GAP {
                    let r = sweep(s, i + 1, None);
                    if !in_c && !in_active {
                        lemma_sweep_covers(s, i + 1, None, t);
                    }
                    if in_active {
                        lemma_prepend_covers(a, seq![c] + r, t);
                    } else {
                        lemma_prepend_covers(c, r, t);
                        lemma_prepend_covers(a, seq![c] + r, t);
                    }
                    assert(seq![a, c] + r =~= seq![a] + (seq![c] + r));
                } else if a.t0 <= c.t0 && c.t1 <= a.t1 {
                    lemma_sweep_covers(s, i + 1, Some(a), t);
                } else if c.t0 <= a.t0 && a.t1 <= c.t1 {
                    if !in_c && !in_active {
                        lemma_sweep_covers(s, i + 1, None, t);
                    }
                    lemma_prepend_covers(c, sweep(s, i + 1, None), t);
                } else if a.t1 >= c.t1 {
                    lemma_sweep_covers(s, i + 1, Some(coalesce(a, c)), t);
                } else {
                    if !in_c && !in_active {
                        lemma_sweep_covers(s, i + 1, None, t);
                    }
                    lemma_prepend_covers(coalesce(a, c), sweep(s, i + 1, None), t);
                }
            },
        }
    }
}

/// The sweep closes every small gap next to the interval under insertion: a
/// parameter between that interval and the interval at position `k` of a
/// well-formed set, the two no further apart than the gap, lies in an
/// interval of the outcome. The active interval `b` is what the interval
/// under insertion, `a`, has grown to.
pub proof fn lemma_sweep_bridges<const N: usize>(
    s: Seq<AugmentedLineSegment<N>>,
    i: int,
    b: AugmentedLineSegment<N>,
    a: AugmentedLineSegment<N>,
    k: int,
    t: int,
)
    requires
        intervals_wf(s),
        0 <= i <= k < s.len(),
        a.t0 <= a.t1,
        b.t0 <= a.t0,
        b.t1 == a.t1,
        (s[k].t1 < t < a.t0 && a.t0 - s[k].t1 <= COALESCE_GAP) || (a.t1 < t < s[k].t0 && s[k].t0
            - a.t1 <= COALESCE_GAP),
    ensures
        covers(sweep(s, i, Some(b)), t),
    decreases k - i,
{
    let c = s[i];
    assert(c.t0 <= c.t1);
    assert(s[k].t0 <= s[k].t1);
    let m = coalesce(b, c);
    if i == k {
        if b.t0 <= c.t0 && c.t1 <= b.t1 {
            lemma_sweep_covers(s, i + 1, Some(b), t);
        } else if b.t1 >= c.t1 {
            assert(m.t0 <= t <= m.t1);
            lemma_sweep_covers(s, i + 1, Some(m), t);
        } else {
            assert(m.t0 <= t <= m.t1);
            lemma_prepend_covers(m, sweep(s, i + 1, None), t);
        }
    } else {
        assert(c.t1 + COALESCE_GAP < s[k].t0);
        if c.t1 < b.t0 - COALESCE_GAP {
            lemma_sweep_bridges(s, i + 1, b, a, k, t);
            lemma_prepend_covers(c, sweep(s, i + 1, Some(b)), t);
        } else if b.t0 <= c.t0 && c.t1 <= b.t1 {
            lemma_sweep_bridges(s, i + 1, b, a, k, t);
        } else {
            lemma_sweep_bridges(s, i + 1, m, a, k, t);
        }
    }
}

/// The sweep invents nothing: every parameter that the outcome covers lies
/// in the union of the intervals `ins` with every small gap filled in,
/// provided that `ins` holds every interval that the sweep has yet to pass,
/// and that the active interval starts where one of `ins` starts, ends
/// where one of `ins` ends, and covers no more than that union.
pub proof fn lemma_sweep_sound<const N: usize>(
    s: Seq<AugmentedLineSegment<N>>,
    i: int,
    active: Option<AugmentedLineSegment<N>>,
    ins: Seq<AugmentedLineSegment<N>>,
    t: int,
)
    requires
        0 <= i,
        forall|j: int| i <= j < s.len() ==> ins.contains(#[trigger] s[j]),
        active matches Some(b) ==> (exists|k: int| 0 <= k < ins.len() && (#[trigger] ins[k]).t0
            == b.t0) && (exists|k: int| 0 <= k < ins.len() && (#[trigger] ins[k]).t1 == b.t1) && (
        forall|u: int| b.t0 <= u <= b.t1 ==> #[trigger] closed_cover(ins, u)),
        covers(sweep(s, i, active), t),
    ensures
        closed_cover(ins, t),
    decreases s.len() - i,
{
    if i >= s.len() {
        match active {
            Some(c) => {
                let q = seq![c];
                let k = choose|k: int| 0 <= k < q.len() && (#[trigger] q[k]).t0 <= t <= q[k].t1;
                assert(q[k] == c);
            },
            None => {
                assert(sweep(s, i, active).len() == 0);
            },
        }
    } else {
        let c = s[i];
        assert(ins.contains(s[i]));
        let kc = choose|kc: int| 0 <= kc < ins.len() && ins[kc] == c;
        assert(c.t0 <= t <= c.t1 ==> covers(ins, t));
        match active {
            None => {
                lemma_covers_prepended(c, sweep(s, i + 1, None), t);
                if !(c.t0 <= t <= c.t1) {
                    lemma_sweep_sound(s, i + 1, None, ins, t);
                }
            },
            Some(b) => {
                if c.t1 < b.t0 - COALESCE_GAP {
                    lemma_covers_prepended(c, sweep(s, i + 1, Some(b)), t);
                    if !(c.t0 <= t <= c.t1) {
                        lemma_sweep_sound(s, i + 1, Some(b), ins, t);
                    }
                } else if c.t0 > b.t1 + COALESCE_GAP {
                    let r = sweep(s, i + 1, None);
                    assert(seq![b, c] + r =~= seq![b] + (seq![c] + r));
                    lemma_covers_prepended(b, seq![c] + r, t);
                    if !(b.t0 <= t <= b.t1) {
                        lemma_covers_prepended(c, r, t);
                        if !(c.t0 <= t <= c.t1) {
                            lemma_sweep_sound(s, i + 1, None, ins, t);
                        }
                    }
                } else if b.t0 <= c.t0 && c.t1 <= b.t1 {
                    lemma_sweep_sound(s, i + 1, Some(b), ins, t);
                } else if c.t0 <= b.t0 && b.t1 <= c.t1 {
                    lemma_covers_prepended(c, sweep(s, i + 1, None), t);
                    if !(c.t0 <= t <= c.t1) {
                        lemma_sweep_sound(s, i + 1, None, ins, t);
                    }
                } else {
                    let m = coalesce(b, c);
                    let k0 = choose|k: int| 0 <= k < ins.len() && (#[trigger] ins[k]).t0 == b.t0;
                    let k1 = choose|k: int| 0 <= k < ins.len() && (#[trigger] ins[k]).t1 == b.t1;
                    assert forall|u: int| m.t0 <= u <= m.t1 implies #[trigger] closed_cover(
                        ins,
                        u,
                    ) by {
                        if b.t0 <= u <= b.t1 {
                        } else if c.t0 <= u <= c.t1 {
                            assert(ins[kc].t0 <= u <= ins[kc].t1);
                        } else if u < b.t0 {
                            assert(ins[kc].t1 < u < ins[k0].t0 && ins[k0].t0 - ins[kc].t1
                                <= COALESCE_GAP);
                        } else {
                            assert(ins[k1].t1 < u < ins[kc].t0 && ins[kc].t0 - ins[k1].t1
                                <= COALESCE_GAP);
                        }
                    }
                    assert(exists|k: int| 0 <= k < ins.len() && (#[trigger] ins[k]).t0 == m.t0) by {
                        if b.t0 <= c.t0 {
                            assert(ins[k0].t0 == m.t0);
                        } else {
                            assert(ins[kc].t0 == m.t0);
                        }
                    }
                    assert(exists|k: int| 0 <= k < ins.len() && (#[trigger] ins[k]).t1 == m.t1) by {
                        if b.t1 >= c.t1 {
                            assert(ins[k1].t1 == m.t1);
                        } else {
                            assert(ins[kc].t1 == m.t1);
                        }
                    }
                    if b.t1 >= c.t1 {
                        lemma_sweep_sound(s, i + 1, Some(m), ins, t);
                    } else {
                        lemma_covers_prepended(m, sweep(s, i + 1, None), t);
                        if !(m.t0 <= t <= m.t1) {
                            lemma_sweep_sound(s, i + 1, None, ins, t);
                        }
                    }
                }
            },
        }
    }
}

/// Insertion loses nothing and closes every small gap: every parameter in
/// the union of the set and the new interval, with every gap no wider than
/// the gap that is closed filled in, is covered afterwards.
pub proof fn lemma_add_interval_covers<const N: usize>(
    s: Seq<AugmentedLineSegment<N>>,
    a: AugmentedLineSegment<N>,
    t: int,
)
    requires
        intervals_wf(s),
        a.t0 <= a.t1,
        closed_cover(s.push(a), t),
    ensures
        covers(add_interval_spec(s, a), t),
{
    let ins = s.push(a);
    let n = s.len() as int;
    if covers(ins, t) {
        let i = choose|i: int| 0 <= i < ins.len() && (#[trigger] ins[i]).t0 <= t <= ins[i].t1;
        if i < n {
            assert(ins[i] == s[i]);
            assert(0 <= i < s.len() && s[i].t0 <= t <= s[i].t1);
        }
        lemma_sweep_covers(s, 0, Some(a), t);
    } else {
        let (i, j) = choose|i: int, j: int|
            0 <= i < ins.len() && 0 <= j < ins.len() && (#[trigger] ins[i]).t1 < t < (
            #[trigger] ins[j]).t0 && ins[j].t0 - ins[i].t1 <= COALESCE_GAP;
        assert(ins[i].t0 <= ins[i].t1 && ins[j].t0 <= ins[j].t1) by {
            if i < n {
                assert(ins[i] == s[i]);
            }
            if j < n {
                assert(ins[j] == s[j]);
            }
        }
        if i < n && j < n {
            assert(ins[i] == s[i] && ins[j] == s[j]);
            if i < j {
                assert(s[i].t1 + COALESCE_GAP < s[j].t0);
            } else if j < i {
                assert(s[j].t1 + COALESCE_GAP < s[i].t0);
            }
            assert(false);
        } else if i < n {
            assert(ins[i] == s[i]);
            lemma_sweep_bridges(s, 0, a, a, i, t);
        } else if j < n {
            assert(ins[j] == s[j]);
            lemma_sweep_bridges(s, 0, a, a, j, t);
        } else {
            assert(false);
        }
    }
}

/// Insertion invents nothing: every parameter that is covered afterwards
/// lies in the union of the set and the new interval with every small gap
/// filled in.
pub proof fn lemma_add_interval_sound<const N: usize>(
    s: Seq<AugmentedLineSegment<N>>,
    a: AugmentedLineSegment<N>,
    t: int,
)
    requires
        covers(add_interval_spec(s, a), t),
    ensures
        closed_cover(s.push(a), t),
{
    let ins = s.push(a);
    let n = s.len() as int;
    assert(ins[n] == a);
    assert forall|j: int| 0 <= j < s.len() implies ins.contains(#[trigger] s[j]) by {
        assert(ins[j] == s[j]);
    }
    assert forall|u: int| a.t0 <= u <= a.t1 implies #[trigger] closed_cover(ins, u) by {
        assert(ins[n].t0 <= u <= ins[n].t1);
    }
    lemma_sweep_sound(s, 0, Some(a), ins, t);
}

/// Inserting the one interval that a set holds changes nothing.
pub proof fn lemma_add_same_interval<const N: usize>(a: AugmentedLineSegment<N>)
    requires
        a.t0 <= a.t1,
    ensures
        add_interval_spec(seq![a], a) == seq![a],
{
    let s = seq![a];
    assert(sweep(s, 1, Some(a)) == seq![a]);
    assert(sweep(s, 0, Some(a)) == sweep(s, 1, Some(a)));
}

impl<const N: usize> IntervalSet<N> {
    /// The intervals are sorted and more than the gap apart.
    pub open spec fn wf(self) -> bool {
        intervals_wf(self.intervals@)
    }

    /// The set that holds one interval.
    pub fn from_interval(interval: AugmentedLineSegment<N>) -> (r: IntervalSet<N>)
        ensures
            r.intervals@ == seq![interval],
            interval.t0 <= interval.t1 ==> r.wf(),
    {
        let mut intervals: Vec<AugmentedLineSegment<N>> = Vec::new();
        intervals.push(interval);
        assert(intervals@ =~= seq![interval]);
        IntervalSet { intervals }
    }

    /// Inserts an interval, uniting it with every interval of the set that it
    /// overlaps or comes within the gap of.
    pub fn add_interval(&mut self, interval: AugmentedLineSegment<N>)
        ensures
            final(self).intervals@ == add_interval_spec(old(self).intervals@, interval),
            old(self).wf() && interval.t0 <= interval.t1 ==> final(self).wf(),
    {
        let ghost s = self.intervals@;
        proof {
            if self.wf() && interval.t0 <= interval.t1 {
                lemma_add_interval_wf(s, interval);
            }
        }
        let n = self.intervals.len();
        let eps: i128 = COALESCE_GAP as i128;
        let mut result: Vec<AugmentedLineSegment<N>> = Vec::new();
        let mut active: Option<AugmentedLineSegment<N>> = Some(interval);
        let mut i: usize = 0;
        while i < n
            invariant
                i <= n,
                n == s.len(),
                self.intervals@ == s,
                eps == COALESCE_GAP,
                result@ + sweep(s, i as int, active) == sweep(s, 0, Some(interval)),
            decreases n - i,
        {
            let current = self.intervals[i];
            let ghost before = result@;
            let ghost tail = sweep(s, i as int, active);
            match active {
                Some(a) => {
                    if (current.t1 as i128) < a.t0 as i128 - eps {
                        result.push(current);
                        assert(result@ + sweep(s, i + 1, active) =~= before + tail);
                    } else if current.t0 as i128 > a.t1 as i128 + eps {
                        result.push(a);
                        result.push(current);
                        active = None;
                        assert(result@ + sweep(s, i + 1, active) =~= before + tail);
                    } else if a.t0 <= current.t0 && current.t1 <= a.t1 {
                    } else if current.t0 <= a.t0 && a.t1 <= current.t1 {
                        result.push(current);
                        active = None;
                        assert(result@ + sweep(s, i + 1, active) =~= before + tail);
                    } else {
                        let (t0, x0) = if a.t0 <= current.t0 {
                            (a.t0, a.x0)
                        } else {
                            (current.t0, current.x0)
                        };
                        if a.t1 >= current.t1 {
                            active = Some(AugmentedLineSegment { t0, t1: a.t1, x0, x1: a.x1 });
                        } else {
                            active = None;
                            result.push(
                                AugmentedLineSegment { t0, t1: current.t1, x0, x1: current.x1 },
                            );
                            assert(result@ + sweep(s, i + 1, active) =~= before + tail);
                        };
                    }
                },
                None => {
                    result.push(current);
                    assert(result@ + sweep(s, i + 1, active) =~= before + tail);
                },
            }
            i += 1;
        }
        let ghost before = result@;
        if let Some(a) = active {
            result.push(a);
        }
        assert(result@ =~= before + sweep(s, n as int, active));
        self.intervals = result;
    }
}

/// Largest scale by which a direction may be quantised.
pub const MAX_DIRECTION_SCALE: i64 = 32_768;

/// Largest scale by which an offset may be quantised.
pub const MAX_OFFSET_SCALE: i64 = 20_000;

/// The quantised description of an infinite line: its direction and the point
/// of the line nearest the origin.
#[derive(Hash, PartialEq, Eq, Clone, Copy, Debug)]
pub struct BinIndex<const N: usize> {
    pub n: [i32; N],
    pub p: [i32; N],
}

/// The parameter of the point `x` along the direction `d`: the length of the
/// projection of `x` on `d`, in grid steps, rounded towards zero.
pub open spec fn line_param(d: V2, x: V2) -> int {
    let v = d.dot(x);
    let r = sqrt_floor((v * v) / d.norm2());
    if v < 0 {
        -r
    } else {
        r
    }
}

/// The point nearest the origin on the line through `a` with direction `d`,
/// rounded to the grid.
pub open spec fn line_offset(d: V2, a: V2) -> V2 {
    V2 {
        x: a.x - round_div(d.x * d.dot(a), d.norm2()),
        y: a.y - round_div(d.y * d.dot(a), d.norm2()),
    }
}

/// One component `c` of a direction with squared length `d2`, as a fraction
/// of the length, times `scale`, rounded to the nearest integer, halves away
/// from zero.
pub open spec fn direction_bin(c: int, d2: int, scale: int) -> int {
    let k = (sqrt_floor((4 * scale * scale * (c * c)) / d2) + 1) / 2;
    if c < 0 {
        -k
    } else {
        k
    }
}

/// One coordinate of an offset, in drawing units times `scale`, rounded to
/// the nearest integer.
pub open spec fn offset_bin(c: int, scale: int) -> int {
    round_div(c * scale, UNIT as int)
}

/// The quantised line of the segment from `a` in direction `d`, as the four
/// numbers of its index.
pub open spec fn bin_of(d: V2, a: V2, n_scale: int, p_scale: int) -> (int, int, int, int) {
    (
        direction_bin(d.x, d.norm2(), n_scale),
        direction_bin(d.y, d.norm2(), n_scale),
        offset_bin(line_offset(d, a).x, p_scale),
        offset_bin(line_offset(d, a).y, p_scale),
    )
}

impl BinIndex<2> {
    /// The four numbers of the index.
    pub open spec fn parts(self) -> (int, int, int, int) {
        (self.n[0] as int, self.n[1] as int, self.p[0] as int, self.p[1] as int)
    }

    /// The index of the same line described with the opposite direction.
    pub open spec fn opposite(self) -> (int, int, int, int) {
        (-(self.n[0] as int), -(self.n[1] as int), self.p[0] as int, self.p[1] as int)
    }
}

/// The four numbers of an index as one number, different for different
/// indices.
pub open spec fn pack(parts: (int, int, int, int)) -> int {
    (((parts.0 + 0x8000_0000) * 0x1_0000_0000 + (parts.1 + 0x8000_0000)) * 0x1_0000_0000 + (parts.2
        + 0x8000_0000)) * 0x1_0000_0000 + (parts.3 + 0x8000_0000)
}

/// Each number of an index fits in thirty-two bits.
pub open spec fn parts_fit(parts: (int, int, int, int)) -> bool {
    &&& -0x8000_0000 <= parts.0 < 0x8000_0000
    &&& -0x8000_0000 <= parts.1 < 0x8000_0000
    &&& -0x8000_0000 <= parts.2 < 0x8000_0000
    &&& -0x8000_0000 <= parts.3 < 0x8000_0000
}

/// Different indices pack to different numbers.
pub proof fn lemma_pack_injective(a: (int, int, int, int), b: (int, int, int, int))
    requires
        parts_fit(a),
        parts_fit(b),
        pack(a) == pack(b),
    ensures
        a == b,
{
    let a3 = a.3 + 0x8000_0000;
    let b3 = b.3 + 0x8000_0000;
    let ra = ((a.0 + 0x8000_0000) * 0x1_0000_0000 + (a.1 + 0x8000_0000)) * 0x1_0000_0000 + (a.2
        + 0x8000_0000);
    let rb = ((b.0 + 0x8000_0000) * 0x1_0000_0000 + (b.1 + 0x8000_0000)) * 0x1_0000_0000 + (b.2
        + 0x8000_0000);
    assert(ra * 0x1_0000_0000 + a3 == rb * 0x1_0000_0000 + b3);
    assert(ra == rb);
    let a2 = a.2 + 0x8000_0000;
    let b2 = b.2 + 0x8000_0000;
    let qa = (a.0 + 0x8000_0000) * 0x1_0000_0000 + (a.1 + 0x8000_0000);
    let qb = (b.0 + 0x8000_0000) * 0x1_0000_0000 + (b.1 + 0x8000_0000);
    assert(qa * 0x1_0000_0000 + a2 == qb * 0x1_0000_0000 + b2);
    assert(qa == qb);
}

/// The packed form of an index.
pub fn pack_index(b: &BinIndex<2>) -> (k: u128)
    ensures
        k == pack(b.parts()),
{
    let n0: u128 = (b.n[0] as i64 + 0x8000_0000) as u128;
    let n1: u128 = (b.n[1] as i64 + 0x8000_0000) as u128;
    let o0: u128 = (b.p[0] as i64 + 0x8000_0000) as u128;
    let o1: u128 = (b.p[1] as i64 + 0x8000_0000) as u128;
    ((n0 * 0x1_0000_0000 + n1) * 0x1_0000_0000 + o0) * 0x1_0000_0000 + o1
}

/// One component of a direction is no longer than the direction.
pub proof fn lemma_component_le_norm(d: V2)
    ensures
        d.x * d.x <= d.norm2(),
        d.y * d.y <= d.norm2(),
        d.norm2() >= 0,
{
    assert(d.x * d.x >= 0) by (nonlinear_arith);
    assert(d.y * d.y >= 0) by (nonlinear_arith);
}

/// The quantised component of a direction is at most the scale in magnitude.
pub proof fn lemma_direction_bin_bound(c: int, d2: int, scale: int)
    requires
        d2 > 0,
        0 <= c * c <= d2,
        0 <= scale,
    ensures
        -scale <= direction_bin(c, d2, scale) <= scale,
        is_sqrt_floor(
            (4 * scale * scale * (c * c)) / d2,
            sqrt_floor((4 * scale * scale * (c * c)) / d2),
        ),
        0 <= (4 * scale * scale * (c * c)) / d2 <= 4 * scale * scale,
{
    let num = 4 * scale * scale * (c * c);
    let q = num / d2;
    assert(0 <= q <= 4 * scale * scale) by (nonlinear_arith)
        requires
            q == (4 * scale * scale * (c * c)) / d2,
            d2 > 0,
            0 <= c * c <= d2,
            0 <= scale,
    ;
    lemma_sqrt_floor_exists(q);
    let r = sqrt_floor(q);
    assert((2 * scale) * (2 * scale) == 4 * scale * scale) by (nonlinear_arith);
    if r > 2 * scale {
        assert(r * r > (2 * scale) * (2 * scale)) by (nonlinear_arith)
            requires
                r > 2 * scale,
                scale >= 0,
        ;
    }
}

/// Every non-negative integer has a square root.
pub proof fn lemma_sqrt_floor_exists(n: int)
    requires
        n >= 0,
    ensures
        is_sqrt_floor(n, sqrt_floor(n)),
    decreases n,
{
    if n == 0 {
        assert(is_sqrt_floor(0, 0));
    } else {
        lemma_sqrt_floor_exists(n - 1);
        let r = sqrt_floor(n - 1);
        if (r + 1) * (r + 1) <= n {
            assert((r + 2) * (r + 2) > n) by (nonlinear_arith)
                requires
                    (r + 1) * (r + 1) > n - 1,
                    r >= 0,
            ;
            assert(is_sqrt_floor(n, r + 1));
        } else {
            assert(is_sqrt_floor(n, r));
        }
    }
}

/// The squared length of a direction that is not zero is positive.
pub proof fn lemma_norm2_positive(d: V2)
    requires
        d.x != 0 || d.y != 0,
    ensures
        d.norm2() > 0,
{
    assert(d.x * d.x + d.y * d.y > 0) by (nonlinear_arith)
        requires
            d.x != 0 || d.y != 0,
    ;
}

/// The projection of a bounded point on a direction, scaled by the squared
/// length of the direction, is bounded by that squared length.
pub proof fn lemma_projection_bound(d: V2, a: V2, m: int)
    requires
        a.within(m),
        m >= 0,
    ensures
        -(2 * m * d.norm2()) <= d.x * d.dot(a) <= 2 * m * d.norm2(),
        -(2 * m * d.norm2()) <= d.y * d.dot(a) <= 2 * m * d.norm2(),
{
    let (dx, dy, ax, ay) = (d.x, d.y, a.x, a.y);
    assert(-(m * (dx * dx)) <= dx * dx * ax <= m * (dx * dx)) by (nonlinear_arith)
        requires
            -m <= ax <= m,
    ;
    assert(-(m * (dy * dy)) <= dy * dy * ay <= m * (dy * dy)) by (nonlinear_arith)
        requires
            -m <= ay <= m,
    ;
    assert(-(dx * dx + dy * dy) <= 2 * (dx * dy) <= dx * dx + dy * dy) by (nonlinear_arith);
    assert(-(m * (dx * dx + dy * dy)) <= 2 * (dx * dy * ay) <= m * (dx * dx + dy * dy))
        by (nonlinear_arith)
        requires
            -m <= ay <= m,
            m >= 0,
            -(dx * dx + dy * dy) <= 2 * (dx * dy) <= dx * dx + dy * dy,
    ;
    assert(-(m * (dx * dx + dy * dy)) <= 2 * (dy * dx * ax) <= m * (dx * dx + dy * dy))
        by (nonlinear_arith)
        requires
            -m <= ax <= m,
            m >= 0,
            -(dx * dx + dy * dy) <= 2 * (dx * dy) <= dx * dx + dy * dy,
    ;
    assert(dx * (dx * ax + dy * ay) == dx * dx * ax + dx * dy * ay) by (nonlinear_arith);
    assert(dy * (dx * ax + dy * ay) == dy * dx * ax + dy * dy * ay) by (nonlinear_arith);
    assert(dx * dx >= 0 && dy * dy >= 0) by (nonlinear_arith);
    assert(2 * m * (dx * dx + dy * dy) == 2 * (m * (dx * dx)) + 2 * (m * (dy * dy))
        && m * (dx * dx + dy * dy) == m * (dx * dx) + m * (dy * dy)
        && m * (dx * dx) >= 0 && m * (dy * dy) >= 0) by (nonlinear_arith)
        requires
            m >= 0,
            dx * dx >= 0,
            dy * dy >= 0,
    ;
}

/// A dividend within `k` times the divisor has a rounded quotient within `k`.
pub proof fn lemma_round_div_within(a: int, b: int, k: int)
    requires
        b > 0,
        k >= 0,
        -(k * b) <= a <= k * b,
    ensures
        -k <= round_div(a, b) <= k,
{
    assert((-k) * b == -(k * b)) by (nonlinear_arith);
    crate::arith::lemma_round_div_between(a, b, -k, k);
}

/// The parameter of a point along a direction, in grid steps.
fn param_along(dx: i128, dy: i128, d2: i128, x: &Point<2>) -> (t: i64)
    requires
        -0x2000_0000 <= dx <= 0x2000_0000,
        -0x2000_0000 <= dy <= 0x2000_0000,
        d2 == dx * dx + dy * dy,
        d2 > 0,
        x.wf(),
    ensures
        t == line_param(V2 { x: dx as int, y: dy as int }, x@),
        -0x400_0000_0000_0000 <= t <= 0x400_0000_0000_0000,
{
    proof {
        lemma_mul_bound(dx as int, x@.x, 0x2000_0000, 0x1000_0000);
        lemma_mul_bound(dy as int, x@.y, 0x2000_0000, 0x1000_0000);
    }
    let v: i128 = dx * (x.vs[0] as i128) + dy * (x.vs[1] as i128);
    proof {
        lemma_mul_bound(v as int, v as int, 0x400_0000_0000_0000, 0x400_0000_0000_0000);
        assert(v * v >= 0) by (nonlinear_arith);
    }
    let q: i128 = (v * v) / d2;
    let r = isqrt(q as u128);
    proof {
        let av: int = if v < 0 {
            -v
        } else {
            v as int
        };
        assert(av * av == v * v) by (nonlinear_arith)
            requires
                av == v || av == -v,
        ;
        assert((av + 1) * (av + 1) > av * av) by (nonlinear_arith)
            requires
                av >= 0,
        ;
        assert(q <= v * v) by (nonlinear_arith)
            requires
                q == (v * v) / (d2 as int),
                d2 > 0,
                v * v >= 0,
        ;
        lemma_sqrt_floor_monotone(q as int, r as int, v * v, av);
    }
    if v < 0 {
        -(r as i64)
    } else {
        r as i64
    }
}

/// One quantised component of a direction.
fn direction_bin_of(c: i128, d2: i128, scale: i64) -> (k: i32)
    requires
        -0x2000_0000 <= c <= 0x2000_0000,
        0 <= c * c <= d2,
        d2 > 0,
        1 <= scale <= MAX_DIRECTION_SCALE,
    ensures
        k == direction_bin(c as int, d2 as int, scale as int),
        -scale <= k <= scale,
{
    let s: i128 = scale as i128;
    proof {
        lemma_mul_bound(c as int, c as int, 0x2000_0000, 0x2000_0000);
        lemma_mul_bound(s as int, s as int, 32_768, 32_768);
        assert(s * s >= 0) by (nonlinear_arith);
        assert(4 * s * s == 4 * (s * s)) by (nonlinear_arith);
        lemma_mul_bound(4 * s * s, c * c, 0x1_0000_0000, 0x400_0000_0000_0000);
        assert(4 * s * s * (c * c) >= 0) by (nonlinear_arith)
            requires
                s * s >= 0,
                c * c >= 0,
        ;
        lemma_direction_bin_bound(c as int, d2 as int, scale as int);
    }
    let q: i128 = (4 * s * s * (c * c)) / d2;
    let r = isqrt(q as u128);
    let k: i128 = (r as i128 + 1) / 2;
    if c < 0 {
        (-k) as i32
    } else {
        k as i32
    }
}

/// Where a packed index leads: to a line, met in its own direction or in the
/// opposite one.
#[derive(Clone, Copy, Debug)]
pub struct Slot {
    pub reverse: bool,
    pub line: usize,
}

/// One line of the deduplicator as contracts see it: its index, and the
/// intervals filed under it.
pub struct Bin {
    pub key: (int, int, int, int),
    pub intervals: Seq<AugmentedLineSegment<2>>,
}

/// The strokes seen so far, filed by line.
///
/// A line is created under the index of the first stroke that lies on it.
/// The index of the same line in the opposite direction leads to the same
/// intervals, so that a stroke and its reverse meet.
pub struct DeduplicatorCore<const N: usize> {
    pub slots: HashMap<u128, Slot>,
    pub keys: Vec<BinIndex<N>>,
    pub lines: Vec<IntervalSet<N>>,
    pub n_scale: i64,
    pub p_scale: i64,
}

/// The direction of a segment.
pub open spec fn direction(s: Seg2) -> V2 {
    s.b.sub(s.a)
}

/// The interval that a segment covers on its line, in its own direction.
pub open spec fn forward_interval(ls: LineSegment<2>) -> AugmentedLineSegment<2> {
    AugmentedLineSegment {
        t0: line_param(direction(ls@), ls@.a) as i64,
        t1: line_param(direction(ls@), ls@.b) as i64,
        x0: ls.ps[0],
        x1: ls.ps[1],
    }
}

/// The interval that a segment covers on its line when the line is described
/// in the opposite direction.
pub open spec fn backward_interval(ls: LineSegment<2>) -> AugmentedLineSegment<2> {
    AugmentedLineSegment {
        t0: (-line_param(direction(ls@), ls@.b)) as i64,
        t1: (-line_param(direction(ls@), ls@.a)) as i64,
        x0: ls.ps[1],
        x1: ls.ps[0],
    }
}

/// The index with the direction turned round.
pub open spec fn opposite_key(key: (int, int, int, int)) -> (int, int, int, int) {
    (-key.0, -key.1, key.2, key.3)
}

/// The position of the first line from `i` on that is filed under `key`.
pub open spec fn find_from(bins: Seq<Bin>, key: (int, int, int, int), i: int) -> Option<int>
    decreases bins.len() - i,
{
    if i < 0 || i >= bins.len() {
        None
    } else if bins[i].key == key {
        Some(i)
    } else {
        find_from(bins, key, i + 1)
    }
}

/// The lines after one more segment.
///
/// A segment without length is dropped. Any other is added to the line filed
/// under its index; failing that, to the line filed under the opposite index,
/// with its parameters negated and its ends exchanged; failing that, to a new
/// line of its own.
pub open spec fn add_spec(bins: Seq<Bin>, ls: LineSegment<2>, n_scale: int, p_scale: int) -> Seq<
    Bin,
> {
    let key = bin_of(direction(ls@), ls@.a, n_scale, p_scale);
    if ls@.a == ls@.b {
        bins
    } else {
        match find_from(bins, key, 0) {
            Some(j) => bins.update(
                j,
                Bin {
                    key: bins[j].key,
                    intervals: add_interval_spec(bins[j].intervals, forward_interval(ls)),
                },
            ),
            None => match find_from(bins, opposite_key(key), 0) {
                Some(j) => bins.update(
                    j,
                    Bin {
                        key: bins[j].key,
                        intervals: add_interval_spec(bins[j].intervals, backward_interval(ls)),
                    },
                ),
                None => bins.push(Bin { key, intervals: seq![forward_interval(ls)] }),
            },
        }
    }
}

/// The segments that a set of intervals stands for: one per interval, between
/// the end points that the interval carries.
pub open spec fn interval_segments(s: Seq<AugmentedLineSegment<2>>) -> Seq<LineSegment<2>> {
    Seq::new(s.len(), |i: int| LineSegment { ps: [s[i].x0, s[i].x1] })
}

/// The segments of all lines from `j` on, line after line.
pub open spec fn flatten_from(bins: Seq<Bin>, j: int) -> Seq<LineSegment<2>>
    decreases bins.len() - j,
{
    if j < 0 || j >= bins.len() {
        Seq::empty()
    } else {
        interval_segments(bins[j].intervals) + flatten_from(bins, j + 1)
    }
}

/// The segments of all lines, in the order in which the lines were created.
pub open spec fn flatten(bins: Seq<Bin>) -> Seq<LineSegment<2>> {
    flatten_from(bins, 0)
}

/// Nothing is found in the part of the lines where no line has the key.
pub proof fn lemma_find_none(bins: Seq<Bin>, key: (int, int, int, int), i: int)
    requires
        0 <= i,
        forall|j: int| i <= j < bins.len() ==> (#[trigger] bins[j]).key != key,
    ensures
        find_from(bins, key, i) is None,
    decreases bins.len() - i,
{
    if i < bins.len() {
        lemma_find_none(bins, key, i + 1);
    }
}

/// The one line that has the key is the line that is found.
pub proof fn lemma_find_some(bins: Seq<Bin>, key: (int, int, int, int), i: int, j: int)
    requires
        0 <= i <= j < bins.len(),
        bins[j].key == key,
        forall|k: int| i <= k < j ==> (#[trigger] bins[k]).key != key,
    ensures
        find_from(bins, key, i) == Some(j),
    decreases bins.len() - i,
{
    if i < j {
        lemma_find_some(bins, key, i + 1, j);
    }
}

/// The larger component of a direction quantises to something other than
/// zero, so an index never equals its opposite.
pub proof fn lemma_direction_bin_nonzero(d: V2, scale: int)
    requires
        d.x != 0 || d.y != 0,
        scale >= 1,
    ensures
        direction_bin(d.x, d.norm2(), scale) != 0 || direction_bin(d.y, d.norm2(), scale) != 0,
{
    lemma_norm2_positive(d);
    lemma_component_le_norm(d);
    let d2 = d.norm2();
    let c = if d.x * d.x >= d.y * d.y {
        d.x
    } else {
        d.y
    };
    let q = (4 * scale * scale * (c * c)) / d2;
    assert(q >= 2) by (nonlinear_arith)
        requires
            q == (4 * scale * scale * (c * c)) / d2,
            d2 > 0,
            2 * (c * c) >= d2,
            scale >= 1,
    ;
    lemma_sqrt_floor_exists(q);
    let r = sqrt_floor(q);
    if r < 1 {
        assert((r + 1) * (r + 1) <= 1) by (nonlinear_arith)
            requires
                0 <= r < 1,
        ;
    }
    assert((r + 1) / 2 >= 1);
}

impl DeduplicatorCore<2> {
    /// The lines, as contracts see them.
    pub open spec fn bins(self) -> Seq<Bin> {
        Seq::new(
            self.lines@.len(),
            |j: int| Bin { key: self.keys@[j].parts(), intervals: self.lines@[j].intervals@ },
        )
    }

    /// The scales are in range, every line is a well-formed interval set, and
    /// the packed indices lead exactly to the lines: each line is reached from
    /// its own index and, as an alias, from the opposite one.
    pub open spec fn wf(self) -> bool {
        &&& 1 <= self.n_scale <= MAX_DIRECTION_SCALE
        &&& 0 <= self.p_scale <= MAX_OFFSET_SCALE
        &&& self.keys@.len() == self.lines@.len()
        &&& forall|j: int| 0 <= j < self.lines@.len() ==> (#[trigger] self.lines@[j]).wf()
        &&& forall|j: int|
            0 <= j < self.lines@.len() ==> all_points(
                (#[trigger] self.lines@[j]).intervals@,
                |p: Point<2>| p.wf(),
            )
        &&& forall|j: int|
            0 <= j < self.keys@.len() ==> -MAX_DIRECTION_SCALE <= (#[trigger] self.keys@[j]).n[0]
                <= MAX_DIRECTION_SCALE && -MAX_DIRECTION_SCALE <= self.keys@[j].n[1]
                <= MAX_DIRECTION_SCALE
        &&& forall|j: int|
            0 <= j < self.keys@.len() ==> self.slots@.contains_key(
                pack((#[trigger] self.keys@[j]).parts()) as u128,
            ) && self.slots@[pack(self.keys@[j].parts()) as u128] == (Slot {
                reverse: false,
                line: j as usize,
            })
        &&& forall|j: int|
            0 <= j < self.keys@.len() ==> self.slots@.contains_key(
                pack((#[trigger] self.keys@[j]).opposite()) as u128,
            ) && self.slots@[pack(self.keys@[j].opposite()) as u128] == (Slot {
                reverse: true,
                line: j as usize,
            })
        &&& forall|k: u128| #[trigger]
            self.slots@.contains_key(k) ==> self.slots@[k].line < self.keys@.len() && k == pack(
                if self.slots@[k].reverse {
                    self.keys@[self.slots@[k].line as int].opposite()
                } else {
                    self.keys@[self.slots@[k].line as int].parts()
                },
            )
    }

    /// A deduplicator without lines.
    pub fn new(n_scale: i64, p_scale: i64) -> (r: DeduplicatorCore<2>)
        requires
            1 <= n_scale <= MAX_DIRECTION_SCALE,
            0 <= p_scale <= MAX_OFFSET_SCALE,
        ensures
            r.wf(),
            r.bins() == Seq::<Bin>::empty(),
            r.n_scale == n_scale,
            r.p_scale == p_scale,
    {
        let r = DeduplicatorCore {
            slots: HashMap::new(),
            keys: Vec::new(),
            lines: Vec::new(),
            n_scale,
            p_scale,
        };
        assert(r.bins() =~= Seq::<Bin>::empty());
        r
    }

    /// The direction of a segment, the point of its line nearest the origin,
    /// and the parameters of its two ends along the direction.
    pub fn linesegment_to_npt_form(ls: LineSegment<2>) -> (r: (Point<2>, Point<2>, (i64, i64)))
        requires
            ls.wf(),
            ls@.a != ls@.b,
        ensures
            r.0@ == direction(ls@),
            r.0@.within(2 * COORD_MAX),
            r.1@ == line_offset(direction(ls@), ls@.a),
            r.1@.within(3 * COORD_MAX),
            r.2.0 == line_param(direction(ls@), ls@.a),
            r.2.1 == line_param(direction(ls@), ls@.b),
            -0x400_0000_0000_0000 <= r.2.0 <= 0x400_0000_0000_0000,
            -0x400_0000_0000_0000 <= r.2.1 <= 0x400_0000_0000_0000,
    {
        let dx: i128 = ls.ps[1].vs[0] as i128 - ls.ps[0].vs[0] as i128;
        let dy: i128 = ls.ps[1].vs[1] as i128 - ls.ps[0].vs[1] as i128;
        let ghost d = V2 { x: dx as int, y: dy as int };
        proof {
            lemma_norm2_positive(d);
            lemma_mul_bound(dx as int, dx as int, 0x2000_0000, 0x2000_0000);
            lemma_mul_bound(dy as int, dy as int, 0x2000_0000, 0x2000_0000);
            lemma_mul_bound(dx as int, ls@.a.x, 0x2000_0000, 0x1000_0000);
            lemma_mul_bound(dy as int, ls@.a.y, 0x2000_0000, 0x1000_0000);
        }
        let d2: i128 = dx * dx + dy * dy;
        let v: i128 = dx * (ls.ps[0].vs[0] as i128) + dy * (ls.ps[0].vs[1] as i128);
        proof {
            lemma_mul_bound(dx as int, v as int, 0x2000_0000, 0x400_0000_0000_0000);
            lemma_mul_bound(dy as int, v as int, 0x2000_0000, 0x400_0000_0000_0000);
            lemma_projection_bound(d, ls@.a, COORD_MAX as int);
            lemma_round_div_within(dx * v, d2 as int, 2 * COORD_MAX);
            lemma_round_div_within(dy * v, d2 as int, 2 * COORD_MAX);
        }
        let px: i128 = ls.ps[0].vs[0] as i128 - div_round(dx * v, d2);
        let py: i128 = ls.ps[0].vs[1] as i128 - div_round(dy * v, d2);
        let t0 = param_along(dx, dy, d2, &ls.ps[0]);
        let t1 = param_along(dx, dy, d2, &ls.ps[1]);
        (Point { vs: [dx as i64, dy as i64] }, Point { vs: [px as i64, py as i64] }, (t0, t1))
    }

    /// The index of the line with direction `n` whose point nearest the
    /// origin is `p`.
    pub fn np_to_bin_index(&self, n: Point<2>, p: Point<2>) -> (b: BinIndex<2>)
        requires
            1 <= self.n_scale <= MAX_DIRECTION_SCALE,
            0 <= self.p_scale <= MAX_OFFSET_SCALE,
            n@.within(2 * COORD_MAX),
            n@.x != 0 || n@.y != 0,
            p@.within(3 * COORD_MAX),
        ensures
            b.parts() == (
                direction_bin(n@.x, n@.norm2(), self.n_scale as int),
                direction_bin(n@.y, n@.norm2(), self.n_scale as int),
                offset_bin(p@.x, self.p_scale as int),
                offset_bin(p@.y, self.p_scale as int),
            ),
            -self.n_scale <= b.n[0] <= self.n_scale,
            -self.n_scale <= b.n[1] <= self.n_scale,
            b.n[0] != 0 || b.n[1] != 0,
    {
        let dx: i128 = n.vs[0] as i128;
        let dy: i128 = n.vs[1] as i128;
        proof {
            lemma_norm2_positive(n@);
            lemma_component_le_norm(n@);
            lemma_mul_bound(dx as int, dx as int, 0x2000_0000, 0x2000_0000);
            lemma_mul_bound(dy as int, dy as int, 0x2000_0000, 0x2000_0000);
            lemma_direction_bin_nonzero(n@, self.n_scale as int);
            lemma_mul_bound(p@.x, self.p_scale as int, 3 * COORD_MAX, MAX_OFFSET_SCALE as int);
            lemma_mul_bound(p@.y, self.p_scale as int, 3 * COORD_MAX, MAX_OFFSET_SCALE as int);
            assert(3 * COORD_MAX * MAX_OFFSET_SCALE == 1_610_612_736 * UNIT);
            lemma_round_div_within(p@.x * self.p_scale, UNIT as int, 1_610_612_736);
            lemma_round_div_within(p@.y * self.p_scale, UNIT as int, 1_610_612_736);
        }
        let d2: i128 = dx * dx + dy * dy;
        let n0 = direction_bin_of(dx, d2, self.n_scale);
        let n1 = direction_bin_of(dy, d2, self.n_scale);
        let o0 = div_round((p.vs[0] as i128) * (self.p_scale as i128), UNIT as i128);
        let o1 = div_round((p.vs[1] as i128) * (self.p_scale as i128), UNIT as i128);
        BinIndex { n: [n0, n1], p: [o0 as i32, o1 as i32] }
    }
}


impl DeduplicatorCore<2> {
    /// What the packed indices say of a key agrees with a search through the
    /// lines: a plain slot is the line filed under the key, an alias is the
    /// line filed under the opposite key, and without a slot neither exists.
    pub proof fn lemma_lookup(self, key: (int, int, int, int))
        requires
            self.wf(),
            parts_fit(key),
            parts_fit(opposite_key(key)),
        ensures
            self.slots@.contains_key(pack(key) as u128) && !self.slots@[pack(key) as u128].reverse
                ==> find_from(self.bins(), key, 0) == Some(
                self.slots@[pack(key) as u128].line as int,
            ),
            self.slots@.contains_key(pack(key) as u128) && self.slots@[pack(key) as u128].reverse
                ==> find_from(self.bins(), key, 0) is None && find_from(
                self.bins(),
                opposite_key(key),
                0,
            ) == Some(self.slots@[pack(key) as u128].line as int),
            !self.slots@.contains_key(pack(key) as u128) ==> find_from(self.bins(), key, 0) is None
                && find_from(self.bins(), opposite_key(key), 0) is None
                && !self.slots@.contains_key(pack(opposite_key(key)) as u128),
    {
        let bins = self.bins();
        let k = pack(key) as u128;
        let rk = pack(opposite_key(key)) as u128;
        if self.slots@.contains_key(k) {
            let j = self.slots@[k].line as int;
            if self.slots@[k].reverse {
                lemma_pack_injective(key, self.keys@[j].opposite());
                assert forall|i: int| 0 <= i < bins.len() implies (#[trigger] bins[i]).key
                    != key by {
                    if bins[i].key == key {
                        assert(self.keys@[i].parts() == key);
                        assert(self.slots@[pack(self.keys@[i].parts()) as u128].reverse == false);
                    }
                }
                lemma_find_none(bins, key, 0);
                assert(bins[j].key == opposite_key(key));
                assert forall|i: int| 0 <= i < j implies (#[trigger] bins[i]).key != opposite_key(
                    key,
                ) by {
                    if bins[i].key == opposite_key(key) {
                        assert(self.keys@[i].parts() == self.keys@[j].parts());
                        assert(self.slots@[pack(self.keys@[i].parts()) as u128].line == i);
                    }
                }
                lemma_find_some(bins, opposite_key(key), 0, j);
            } else {
                lemma_pack_injective(key, self.keys@[j].parts());
                assert(bins[j].key == key);
                assert forall|i: int| 0 <= i < j implies (#[trigger] bins[i]).key != key by {
                    if bins[i].key == key {
                        assert(self.keys@[i].parts() == self.keys@[j].parts());
                        assert(self.slots@[pack(self.keys@[i].parts()) as u128].line == i);
                    }
                }
                lemma_find_some(bins, key, 0, j);
            }
        } else {
            assert forall|i: int| 0 <= i < bins.len() implies (#[trigger] bins[i]).key != key by {
                if bins[i].key == key {
                    assert(self.slots@.contains_key(pack(self.keys@[i].parts()) as u128));
                }
            }
            lemma_find_none(bins, key, 0);
            assert forall|i: int| 0 <= i < bins.len() implies (#[trigger] bins[i]).key
                != opposite_key(key) by {
                if bins[i].key == opposite_key(key) {
                    assert(self.keys@[i].opposite() == key);
                    assert(self.slots@.contains_key(pack(self.keys@[i].opposite()) as u128));
                }
            }
            lemma_find_none(bins, opposite_key(key), 0);
            if self.slots@.contains_key(rk) {
                let l = self.slots@[rk].line as int;
                if self.slots@[rk].reverse {
                    lemma_pack_injective(opposite_key(key), self.keys@[l].opposite());
                    assert(self.keys@[l].parts() == key);
                    assert(bins[l].key == key);
                } else {
                    lemma_pack_injective(opposite_key(key), self.keys@[l].parts());
                    assert(bins[l].key == opposite_key(key));
                }
            }
        }
    }

    /// Adds an interval to the line at position `j`.
    fn file_under(&mut self, j: usize, interval: AugmentedLineSegment<2>)
        requires
            old(self).wf(),
            j < old(self).lines@.len(),
            interval.t0 <= interval.t1,
            interval.x0.wf(),
            interval.x1.wf(),
        ensures
            final(self).wf(),
            final(self).n_scale == old(self).n_scale,
            final(self).p_scale == old(self).p_scale,
            final(self).bins() == old(self).bins().update(
                j as int,
                Bin {
                    key: old(self).bins()[j as int].key,
                    intervals: add_interval_spec(old(self).bins()[j as int].intervals, interval),
                },
            ),
    {
        let ghost before = *self;
        let mut set = IntervalSet { intervals: Vec::new() };
        std::mem::swap(&mut self.lines[j], &mut set);
        proof {
            lemma_add_interval_points(set.intervals@, interval, |p: Point<2>| p.wf());
        }
        set.add_interval(interval);
        std::mem::swap(&mut self.lines[j], &mut set);
        assert(self.keys@ == before.keys@);
        assert(self.slots@ == before.slots@);
        assert forall|i: int| 0 <= i < self.lines@.len() implies (#[trigger] self.lines@[i]).wf()
            && all_points(self.lines@[i].intervals@, |p: Point<2>| p.wf()) by {
            if i != j {
                assert(self.lines@[i] == before.lines@[i]);
            }
        }
        assert(self.bins() =~= before.bins().update(
            j as int,
            Bin {
                key: before.bins()[j as int].key,
                intervals: add_interval_spec(before.bins()[j as int].intervals, interval),
            },
        ));
    }

    /// Creates the line of a new index, with its first interval, and the
    /// alias for the opposite index.
    fn open_line(&mut self, bin_index: BinIndex<2>, interval: AugmentedLineSegment<2>)
        requires
            old(self).wf(),
            interval.t0 <= interval.t1,
            interval.x0.wf(),
            interval.x1.wf(),
            -MAX_DIRECTION_SCALE <= bin_index.n[0] <= MAX_DIRECTION_SCALE,
            -MAX_DIRECTION_SCALE <= bin_index.n[1] <= MAX_DIRECTION_SCALE,
            bin_index.n[0] != 0 || bin_index.n[1] != 0,
            !old(self).slots@.contains_key(pack(bin_index.parts()) as u128),
            !old(self).slots@.contains_key(pack(bin_index.opposite()) as u128),
        ensures
            final(self).wf(),
            final(self).n_scale == old(self).n_scale,
            final(self).p_scale == old(self).p_scale,
            final(self).bins() == old(self).bins().push(
                Bin { key: bin_index.parts(), intervals: seq![interval] },
            ),
    {
        let ghost before = *self;
        let ghost key = bin_index.parts();
        let j = self.lines.len();
        let k = pack_index(&bin_index);
        let rev_index = BinIndex { n: [-bin_index.n[0], -bin_index.n[1]], p: bin_index.p };
        let rk = pack_index(&rev_index);
        proof {
            assert(rev_index.parts() == bin_index.opposite());
            if rk == k {
                lemma_pack_injective(key, bin_index.opposite());
            }
        }
        self.keys.push(bin_index);
        self.lines.push(IntervalSet::from_interval(interval));
        self.slots.insert(k, Slot { reverse: false, line: j });
        self.slots.insert(rk, Slot { reverse: true, line: j });
        proof {
            assert forall|i: int| 0 <= i < self.lines@.len() implies (#[trigger] self.lines@[i]).wf()
                && all_points(self.lines@[i].intervals@, |p: Point<2>| p.wf()) by {
                if i < j {
                    assert(self.lines@[i] == before.lines@[i]);
                }
            }
            assert forall|i: int| 0 <= i < self.keys@.len() implies self.slots@.contains_key(
                pack((#[trigger] self.keys@[i]).parts()) as u128,
            ) && self.slots@[pack(self.keys@[i].parts()) as u128] == (Slot {
                reverse: false,
                line: i as usize,
            }) by {
                if i < j {
                    assert(self.keys@[i] == before.keys@[i]);
                    assert(before.slots@.contains_key(pack(before.keys@[i].parts()) as u128));
                }
            }
            assert forall|i: int| 0 <= i < self.keys@.len() implies self.slots@.contains_key(
                pack((#[trigger] self.keys@[i]).opposite()) as u128,
            ) && self.slots@[pack(self.keys@[i].opposite()) as u128] == (Slot {
                reverse: true,
                line: i as usize,
            }) by {
                if i < j {
                    assert(self.keys@[i] == before.keys@[i]);
                    assert(before.slots@.contains_key(pack(before.keys@[i].opposite()) as u128));
                }
            }
            assert forall|q: u128| #[trigger] self.slots@.contains_key(q) implies self.slots@[q].line
                < self.keys@.len() && q == pack(
                if self.slots@[q].reverse {
                    self.keys@[self.slots@[q].line as int].opposite()
                } else {
                    self.keys@[self.slots@[q].line as int].parts()
                },
            ) by {
                if q != k && q != rk {
                    assert(before.slots@.contains_key(q));
                    assert(self.keys@[self.slots@[q].line as int] == before.keys@[before.slots@[q].line as int]);
                }
            }
            assert(self.bins() =~= before.bins().push(
                Bin { key: bin_index.parts(), intervals: seq![interval] },
            ));
        }
    }

    /// Files one more segment.
    pub fn add_linesegment(&mut self, ls: LineSegment<2>)
        requires
            old(self).wf(),
            ls.wf(),
        ensures
            final(self).wf(),
            final(self).n_scale == old(self).n_scale,
            final(self).p_scale == old(self).p_scale,
            final(self).bins() == add_spec(
                old(self).bins(),
                ls,
                old(self).n_scale as int,
                old(self).p_scale as int,
            ),
    {
        if ls.ps[0].same(&ls.ps[1]) {
            return ;
        }
        let (n, p, ts) = Self::linesegment_to_npt_form(ls);
        let bin_index = self.np_to_bin_index(n, p);
        let ghost key = bin_index.parts();
        let k = pack_index(&bin_index);
        let found: Option<Slot> = match self.slots.get(&k) {
            Some(slot) => Some(*slot),
            None => None,
        };
        proof {
            lemma_param_monotone(direction(ls@), ls@.a, ls@.b);
            self.lemma_lookup(key);
        }
        match found {
            Some(slot) => {
                if slot.reverse {
                    self.file_under(
                        slot.line,
                        AugmentedLineSegment { t0: -ts.1, t1: -ts.0, x0: ls.ps[1], x1: ls.ps[0] },
                    );
                } else {
                    self.file_under(
                        slot.line,
                        AugmentedLineSegment { t0: ts.0, t1: ts.1, x0: ls.ps[0], x1: ls.ps[1] },
                    );
                }
            },
            None => {
                self.open_line(
                    bin_index,
                    AugmentedLineSegment { t0: ts.0, t1: ts.1, x0: ls.ps[0], x1: ls.ps[1] },
                );
            },
        }
    }

    /// The deduplicated strokes: for every line in order of creation, its
    /// intervals in order along the line, each as the segment between the end
    /// points it carries.
    pub fn segments(&self) -> (r: Vec<LineSegment<2>>)
        ensures
            r@ == flatten(self.bins()),
            self.wf() ==> forall|i: int| 0 <= i < r@.len() ==> (#[trigger] r@[i]).wf(),
    {
        let mut out: Vec<LineSegment<2>> = Vec::new();
        let mut j: usize = 0;
        let ghost bins = self.bins();
        while j < self.lines.len()
            invariant
                j <= self.lines.len(),
                bins == self.bins(),
                out@ + flatten_from(bins, j as int) == flatten(bins),
                self.wf() ==> forall|i: int| 0 <= i < out@.len() ==> (#[trigger] out@[i]).wf(),
            decreases self.lines.len() - j,
        {
            let ghost before = out@;
            let set = &self.lines[j];
            let mut i: usize = 0;
            while i < set.intervals.len()
                invariant
                    i <= set.intervals.len(),
                    out@ == before + interval_segments(set.intervals@).subrange(0, i as int),
                    self.wf() ==> all_points(set.intervals@, |p: Point<2>| p.wf()),
                    self.wf() ==> forall|i: int|
                        0 <= i < out@.len() ==> (#[trigger] out@[i]).wf(),
                decreases set.intervals.len() - i,
            {
                let interval = set.intervals[i];
                out.push(LineSegment { ps: [interval.x0, interval.x1] });
                proof {
                    let segs = interval_segments(set.intervals@);
                    crate::nbase::line_segment::lemma_segment2_ext(out@[out.len() - 1], segs[i as int]);
                    assert(segs.subrange(0, i + 1) =~= segs.subrange(0, i as int).push(segs[i as int]));
                    assert(out@ =~= before + segs.subrange(0, i + 1));
                }
                i += 1;
            }
            proof {
                let segs = interval_segments(set.intervals@);
                assert(segs.subrange(0, i as int) =~= segs);
                assert(bins[j as int].intervals == set.intervals@);
                assert(out@ + flatten_from(bins, j + 1) =~= before + flatten_from(bins, j as int));
            }
            j += 1;
        }
        assert(flatten_from(bins, j as int) =~= Seq::<LineSegment<2>>::empty());
        assert(out@ + Seq::<LineSegment<2>>::empty() =~= out@);
        out
    }
}

/// The parameter along a direction does not decrease towards the far end of
/// a segment with that direction.
pub proof fn lemma_param_monotone(d: V2, a: V2, b: V2)
    requires
        d == b.sub(a),
        d.x != 0 || d.y != 0,
    ensures
        line_param(d, a) <= line_param(d, b),
{
    lemma_norm2_positive(d);
    let d2 = d.norm2();
    let v = d.dot(a);
    let w = d.dot(b);
    assert(w == v + d2) by (nonlinear_arith)
        requires
            w == d.x * b.x + d.y * b.y,
            v == d.x * a.x + d.y * a.y,
            d2 == d.x * d.x + d.y * d.y,
            d.x == b.x - a.x,
            d.y == b.y - a.y,
    ;
    assert(v * v >= 0 && w * w >= 0) by (nonlinear_arith);
    let qv = (v * v) / d2;
    let qw = (w * w) / d2;
    assert(qv >= 0 && qw >= 0) by (nonlinear_arith)
        requires
            qv == (v * v) / d2,
            qw == (w * w) / d2,
            d2 > 0,
            v * v >= 0,
            w * w >= 0,
    ;
    lemma_sqrt_floor_exists(qv);
    lemma_sqrt_floor_exists(qw);
    if v >= 0 {
        assert(v * v <= w * w) by (nonlinear_arith)
            requires
                0 <= v <= w,
        ;
        assert(qv <= qw) by (nonlinear_arith)
            requires
                qv == (v * v) / d2,
                qw == (w * w) / d2,
                d2 > 0,
                v * v <= w * w,
        ;
        lemma_sqrt_floor_monotone(qv, sqrt_floor(qv), qw, sqrt_floor(qw));
    } else if w < 0 {
        assert(w * w <= v * v) by (nonlinear_arith)
            requires
                v <= w < 0,
        ;
        assert(qw <= qv) by (nonlinear_arith)
            requires
                qv == (v * v) / d2,
                qw == (w * w) / d2,
                d2 > 0,
                w * w <= v * v,
        ;
        lemma_sqrt_floor_monotone(qw, sqrt_floor(qw), qv, sqrt_floor(qv));
    }
}


/// The parameter of a point along a direction is no larger in magnitude than
/// the dot product of the two.
pub proof fn lemma_param_bound(d: V2, x: V2)
    requires
        d.x != 0 || d.y != 0,
    ensures
        -crate::arith::abs(d.dot(x)) <= line_param(d, x) <= crate::arith::abs(d.dot(x)),
{
    lemma_norm2_positive(d);
    let d2 = d.norm2();
    let v = d.dot(x);
    let av = crate::arith::abs(v);
    assert(v * v >= 0) by (nonlinear_arith);
    let q = (v * v) / d2;
    assert(0 <= q <= v * v) by (nonlinear_arith)
        requires
            q == (v * v) / d2,
            d2 > 0,
            v * v >= 0,
    ;
    lemma_sqrt_floor_exists(q);
    assert(av * av == v * v) by (nonlinear_arith)
        requires
            av == v || av == -v,
    ;
    assert((av + 1) * (av + 1) > av * av) by (nonlinear_arith)
        requires
            av >= 0,
    ;
    lemma_sqrt_floor_monotone(q, sqrt_floor(q), v * v, av);
}

/// Along the opposite direction every parameter changes its sign.
pub proof fn lemma_param_opposite(d: V2, x: V2)
    requires
        d.x != 0 || d.y != 0,
    ensures
        line_param(d.neg(), x) == -line_param(d, x),
{
    let v = d.dot(x);
    assert(d.neg().dot(x) == -v) by (nonlinear_arith)
        requires
            v == d.x * x.x + d.y * x.y,
            d.neg().dot(x) == (-d.x) * x.x + (-d.y) * x.y,
    ;
    assert(d.neg().norm2() == d.norm2()) by (nonlinear_arith)
        requires
            d.neg().norm2() == (-d.x) * (-d.x) + (-d.y) * (-d.y),
            d.norm2() == d.x * d.x + d.y * d.y,
    ;
    assert((-v) * (-v) == v * v) by (nonlinear_arith);
    if v == 0 {
        lemma_norm2_positive(d);
        assert((0int * 0int) / d.norm2() == 0) by (nonlinear_arith)
            requires
                d.norm2() > 0,
        ;
        crate::arith::lemma_sqrt_floor_is(0, 0);
    }
}

/// A segment and its reverse lie on the same line: the reverse has the
/// opposite index.
pub proof fn lemma_bin_of_reverse(a: V2, b: V2, n_scale: int, p_scale: int)
    requires
        a != b,
        n_scale >= 1,
    ensures
        bin_of(a.sub(b), b, n_scale, p_scale) == opposite_key(
            bin_of(b.sub(a), a, n_scale, p_scale),
        ),
        bin_of(b.sub(a), a, n_scale, p_scale) != opposite_key(
            bin_of(b.sub(a), a, n_scale, p_scale),
        ),
{
    let d = b.sub(a);
    let e = a.sub(b);
    lemma_norm2_positive(d);
    let d2 = d.norm2();
    assert(e.norm2() == d2) by (nonlinear_arith)
        requires
            e.norm2() == (a.x - b.x) * (a.x - b.x) + (a.y - b.y) * (a.y - b.y),
            d2 == (b.x - a.x) * (b.x - a.x) + (b.y - a.y) * (b.y - a.y),
    ;
    lemma_direction_bin_opposite(d.x, d2, n_scale);
    lemma_direction_bin_opposite(d.y, d2, n_scale);
    lemma_direction_bin_nonzero(d, n_scale);
    let v = d.dot(a);
    let w = e.dot(b);
    assert(w == -v - d2) by (nonlinear_arith)
        requires
            w == (a.x - b.x) * b.x + (a.y - b.y) * b.y,
            v == (b.x - a.x) * a.x + (b.y - a.y) * a.y,
            d2 == (b.x - a.x) * (b.x - a.x) + (b.y - a.y) * (b.y - a.y),
    ;
    lemma_offset_shift(d.x, v, d2);
    lemma_offset_shift(d.y, v, d2);
    assert(e.x * w == d.x * v + d.x * d2) by (nonlinear_arith)
        requires
            e.x == -d.x,
            w == -v - d2,
    ;
    assert(e.y * w == d.y * v + d.y * d2) by (nonlinear_arith)
        requires
            e.y == -d.y,
            w == -v - d2,
    ;
}

/// The quantised component of a direction changes its sign with the
/// component.
pub proof fn lemma_direction_bin_opposite(c: int, d2: int, scale: int)
    requires
        d2 > 0,
    ensures
        direction_bin(-c, d2, scale) == -direction_bin(c, d2, scale),
{
    assert((-c) * (-c) == c * c) by (nonlinear_arith);
    if c == 0 {
        assert((4 * scale * scale * (0int * 0int)) / d2 == 0) by (nonlinear_arith)
            requires
                d2 > 0,
        ;
        crate::arith::lemma_sqrt_floor_is(0, 0);
    }
}

/// Adding a whole multiple of the divisor to the dividend adds that multiple
/// to the rounded quotient.
pub proof fn lemma_offset_shift(c: int, v: int, d2: int)
    requires
        d2 > 0,
    ensures
        round_div(c * v + c * d2, d2) == round_div(c * v, d2) + c,
{
    let x = 2 * (c * v) + d2;
    assert(c * (2 * d2) == 2 * (c * d2)) by (nonlinear_arith);
    vstd::arithmetic::div_mod::lemma_hoist_over_denominator(x, c, (2 * d2) as nat);
}

/// The lines after the same segment has been added `count` times.
pub open spec fn add_repeated(
    bins: Seq<Bin>,
    ls: LineSegment<2>,
    n_scale: int,
    p_scale: int,
    count: nat,
) -> Seq<Bin>
    decreases count,
{
    if count == 0 {
        bins
    } else {
        add_spec(add_repeated(bins, ls, n_scale, p_scale, (count - 1) as nat), ls, n_scale, p_scale)
    }
}

/// The one line with the one interval of a single segment.
pub open spec fn single_line(ls: LineSegment<2>, n_scale: int, p_scale: int) -> Seq<Bin> {
    seq![
        Bin {
            key: bin_of(direction(ls@), ls@.a, n_scale, p_scale),
            intervals: seq![forward_interval(ls)],
        },
    ]
}

/// The interval of a well-formed segment with length runs forward, with
/// parameters that fit the machine integers that hold them.
pub proof fn lemma_forward_interval(ls: LineSegment<2>)
    requires
        ls.wf(),
        ls@.a != ls@.b,
    ensures
        forward_interval(ls).t0 == line_param(direction(ls@), ls@.a),
        forward_interval(ls).t1 == line_param(direction(ls@), ls@.b),
        forward_interval(ls).t0 <= forward_interval(ls).t1,
        -0x400_0000_0000_0000 <= forward_interval(ls).t0,
        forward_interval(ls).t1 <= 0x400_0000_0000_0000,
{
    let d = direction(ls@);
    lemma_param_bound(d, ls@.a);
    lemma_param_bound(d, ls@.b);
    lemma_param_monotone(d, ls@.a, ls@.b);
    lemma_mul_bound(d.x, ls@.a.x, 0x2000_0000, 0x1000_0000);
    lemma_mul_bound(d.y, ls@.a.y, 0x2000_0000, 0x1000_0000);
    lemma_mul_bound(d.x, ls@.b.x, 0x2000_0000, 0x1000_0000);
    lemma_mul_bound(d.y, ls@.b.y, 0x2000_0000, 0x1000_0000);
}

/// A single line flattens to the single segment it was made from.
pub proof fn lemma_flatten_single(ls: LineSegment<2>, n_scale: int, p_scale: int)
    ensures
        flatten(single_line(ls, n_scale, p_scale)) == seq![ls],
{
    let bins = single_line(ls, n_scale, p_scale);
    let segs = interval_segments(bins[0].intervals);
    crate::nbase::line_segment::lemma_segment2_ext(segs[0], ls);
    assert(flatten_from(bins, 1) =~= Seq::<LineSegment<2>>::empty());
    assert(segs + flatten_from(bins, 1) =~= seq![ls]);
}

/// The same segment added any number of times, at least once, leaves one
/// line with one interval, which flattens to exactly that segment.
pub proof fn lemma_dedup_idempotent(ls: LineSegment<2>, n_scale: int, p_scale: int, count: nat)
    requires
        ls.wf(),
        ls@.a != ls@.b,
        count >= 1,
    ensures
        add_repeated(Seq::empty(), ls, n_scale, p_scale, count) == single_line(
            ls,
            n_scale,
            p_scale,
        ),
        flatten(add_repeated(Seq::empty(), ls, n_scale, p_scale, count)) == seq![ls],
    decreases count,
{
    let key = bin_of(direction(ls@), ls@.a, n_scale, p_scale);
    let one = single_line(ls, n_scale, p_scale);
    lemma_flatten_single(ls, n_scale, p_scale);
    if count == 1 {
        let empty = Seq::<Bin>::empty();
        assert(add_repeated(empty, ls, n_scale, p_scale, 0) == empty);
        assert(find_from(empty, key, 0) is None);
        assert(find_from(empty, opposite_key(key), 0) is None);
        assert(add_spec(empty, ls, n_scale, p_scale) =~= one);
    } else {
        lemma_dedup_idempotent(ls, n_scale, p_scale, (count - 1) as nat);
        lemma_forward_interval(ls);
        lemma_add_same_interval(forward_interval(ls));
        assert(find_from(one, key, 0) == Some(0int));
        assert(add_spec(one, ls, n_scale, p_scale) =~= one);
    }
}

/// A segment and then its reverse leave one line with one interval: that of
/// the segment.
pub proof fn lemma_reverse_alias(ls: LineSegment<2>, rev: LineSegment<2>, n_scale: int, p_scale: int)
    requires
        ls.wf(),
        ls@.a != ls@.b,
        rev.ps[0] == ls.ps[1],
        rev.ps[1] == ls.ps[0],
        n_scale >= 1,
    ensures
        add_spec(add_spec(Seq::empty(), ls, n_scale, p_scale), rev, n_scale, p_scale)
            == single_line(ls, n_scale, p_scale),
        flatten(add_spec(add_spec(Seq::empty(), ls, n_scale, p_scale), rev, n_scale, p_scale))
            == seq![ls],
{
    let key = bin_of(direction(ls@), ls@.a, n_scale, p_scale);
    let one = single_line(ls, n_scale, p_scale);
    lemma_dedup_idempotent(ls, n_scale, p_scale, 1);
    assert(add_repeated(Seq::empty(), ls, n_scale, p_scale, 1) == add_spec(
        add_repeated(Seq::empty(), ls, n_scale, p_scale, 0),
        ls,
        n_scale,
        p_scale,
    ));
    assert(add_spec(Seq::empty(), ls, n_scale, p_scale) == one);
    lemma_flatten_single(ls, n_scale, p_scale);
    lemma_bin_of_reverse(ls@.a, ls@.b, n_scale, p_scale);
    let rkey = bin_of(direction(rev@), rev@.a, n_scale, p_scale);
    assert(direction(rev@) == ls@.a.sub(ls@.b));
    assert(rkey == opposite_key(key));
    assert(opposite_key(rkey) == key);
    assert(find_from(one, rkey, 1) is None);
    assert(find_from(one, rkey, 0) is None);
    assert(find_from(one, key, 0) == Some(0int));
    lemma_forward_interval(ls);
    let d = direction(ls@);
    assert(direction(rev@) == d.neg());
    lemma_param_opposite(d, ls@.a);
    lemma_param_opposite(d, ls@.b);
    assert(backward_interval(rev) == forward_interval(ls));
    lemma_add_same_interval(forward_interval(ls));
    assert(add_spec(one, rev, n_scale, p_scale) =~= one);
}


/// The lines after the segments of `input` from position `i` on.
pub open spec fn add_all(
    bins: Seq<Bin>,
    input: Seq<LineSegment<2>>,
    i: int,
    n_scale: int,
    p_scale: int,
) -> Seq<Bin>
    decreases input.len() - i,
{
    if i < 0 || i >= input.len() {
        bins
    } else {
        add_all(add_spec(bins, input[i], n_scale, p_scale), input, i + 1, n_scale, p_scale)
    }
}

/// The segments that the second stage makes of a whole input.
pub open spec fn stage_b(input: Seq<LineSegment<2>>, n_scale: int, p_scale: int) -> Seq<
    LineSegment<2>,
> {
    flatten(add_all(Seq::empty(), input, 0, n_scale, p_scale))
}

/// The second stage: collects every stroke, and at the end of the stream
/// hands out each covered stretch of each line once.
pub struct BinningLineMergerAndDeduplicator<const N: usize> {
    pub core: DeduplicatorCore<N>,
}

impl BinningLineMergerAndDeduplicator<2> {
    /// A stage that has seen nothing.
    pub fn new(n_scale: i64, p_scale: i64) -> (r: BinningLineMergerAndDeduplicator<2>)
        requires
            1 <= n_scale <= MAX_DIRECTION_SCALE,
            0 <= p_scale <= MAX_OFFSET_SCALE,
        ensures
            r.core.wf(),
            r.core.bins() == Seq::<Bin>::empty(),
            r.core.n_scale == n_scale,
            r.core.p_scale == p_scale,
    {
        BinningLineMergerAndDeduplicator { core: DeduplicatorCore::new(n_scale, p_scale) }
    }

    /// Takes the next segment of the stream.
    pub fn push(&mut self, ls: LineSegment<2>)
        requires
            old(self).core.wf(),
            ls.wf(),
        ensures
            final(self).core.wf(),
            final(self).core.n_scale == old(self).core.n_scale,
            final(self).core.p_scale == old(self).core.p_scale,
            final(self).core.bins() == add_spec(
                old(self).core.bins(),
                ls,
                old(self).core.n_scale as int,
                old(self).core.p_scale as int,
            ),
    {
        self.core.add_linesegment(ls);
    }

    /// Hands out the deduplicated strokes at the end of the stream.
    pub fn finish(self) -> (out: Vec<LineSegment<2>>)
        requires
            self.core.wf(),
        ensures
            out@ == flatten(self.core.bins()),
            forall|i: int| 0 <= i < out@.len() ==> (#[trigger] out@[i]).wf(),
    {
        self.core.segments()
    }

    /// Runs the stage over a whole input.
    pub fn run(self, input: &Vec<LineSegment<2>>) -> (out: Vec<LineSegment<2>>)
        requires
            self.core.wf(),
            forall|i: int| 0 <= i < input@.len() ==> (#[trigger] input@[i]).wf(),
        ensures
            out@ == flatten(
                add_all(
                    self.core.bins(),
                    input@,
                    0,
                    self.core.n_scale as int,
                    self.core.p_scale as int,
                ),
            ),
            forall|i: int| 0 <= i < out@.len() ==> (#[trigger] out@[i]).wf(),
    {
        let mut stage = self;
        let mut i: usize = 0;
        while i < input.len()
            invariant
                i <= input.len(),
                stage.core.wf(),
                stage.core.n_scale == self.core.n_scale,
                stage.core.p_scale == self.core.p_scale,
                forall|j: int| 0 <= j < input@.len() ==> (#[trigger] input@[j]).wf(),
                add_all(
                    stage.core.bins(),
                    input@,
                    i as int,
                    self.core.n_scale as int,
                    self.core.p_scale as int,
                ) == add_all(
                    self.core.bins(),
                    input@,
                    0,
                    self.core.n_scale as int,
                    self.core.p_scale as int,
                ),
            decreases input.len() - i,
        {
            stage.push(input[i]);
            i += 1;
        }
        stage.finish()
    }
}

} // verus!
