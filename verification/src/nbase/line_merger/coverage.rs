//! What an interval set covers after any number of insertions: the union of
//! what was inserted, with every gap that is no wider than the gap that is
//! closed filled in. That does not depend on the order of the insertions.
use crate::nbase::line_merger::merge_and_deduplicate::{
    add_all, add_interval_spec, add_spec, backward_interval, bin_of, closed_cover, coalesce,
    covers, direction, find_from, flatten, flatten_from, forward_interval, interval_segments,
    intervals_wf, lemma_add_interval_covers,
    lemma_add_interval_sound, lemma_add_interval_wf, lemma_forward_interval, opposite_key, sweep,
    AugmentedLineSegment, Bin, COALESCE_GAP,
};
use crate::nbase::line_segment::LineSegment;
use vstd::prelude::*;

verus! {

/// The set after the first `n` intervals of `ins` have been inserted into
/// the empty set, one after the other.
pub open spec fn insert_all<const N: usize>(ins: Seq<AugmentedLineSegment<N>>, n: int) -> Seq<
    AugmentedLineSegment<N>,
>
    decreases n,
{
    if n <= 0 {
        Seq::empty()
    } else {
        add_interval_spec(insert_all(ins, n - 1), ins[n - 1])
    }
}

/// Every interval runs forward.
pub open spec fn all_forward<const N: usize>(ins: Seq<AugmentedLineSegment<N>>) -> bool {
    forall|i: int| 0 <= i < ins.len() ==> (#[trigger] ins[i]).t0 <= ins[i].t1
}

/// Every interval of `f` starts where an interval of `ins` starts and ends
/// where an interval of `ins` ends.
pub open spec fn ends_from<const N: usize>(
    f: Seq<AugmentedLineSegment<N>>,
    ins: Seq<AugmentedLineSegment<N>>,
) -> bool {
    forall|i: int|
        0 <= i < f.len() ==> starts_in(ins, (#[trigger] f[i]).t0 as int) && stops_in(
            ins,
            f[i].t1 as int,
        )
}

/// An interval of `ins` starts at `t`.
pub open spec fn starts_in<const N: usize>(ins: Seq<AugmentedLineSegment<N>>, t: int) -> bool {
    exists|k: int| 0 <= k < ins.len() && (#[trigger] ins[k]).t0 == t
}

/// An interval of `ins` ends at `t`.
pub open spec fn stops_in<const N: usize>(ins: Seq<AugmentedLineSegment<N>>, t: int) -> bool {
    exists|k: int| 0 <= k < ins.len() && (#[trigger] ins[k]).t1 == t
}

/// An interval whose ends are ends of `ins` may be put in front of a set
/// whose ends are.
pub proof fn lemma_prepend_ends<const N: usize>(
    c: AugmentedLineSegment<N>,
    r: Seq<AugmentedLineSegment<N>>,
    ins: Seq<AugmentedLineSegment<N>>,
)
    requires
        ends_from(r, ins),
        starts_in(ins, c.t0 as int),
        stops_in(ins, c.t1 as int),
    ensures
        ends_from(seq![c] + r, ins),
{
    let q = seq![c] + r;
    assert forall|i: int| 0 <= i < q.len() implies starts_in(ins, (#[trigger] q[i]).t0 as int)
        && stops_in(ins, q[i].t1 as int) by {
        if i > 0 {
            assert(q[i] == r[i - 1]);
        }
    }
}

/// The sweep invents no end: every interval of the outcome starts where an
/// interval of `ins` starts and ends where one ends, if that holds of the
/// active interval and of every interval that the sweep has yet to pass.
pub proof fn lemma_sweep_ends<const N: usize>(
    s: Seq<AugmentedLineSegment<N>>,
    i: int,
    active: Option<AugmentedLineSegment<N>>,
    ins: Seq<AugmentedLineSegment<N>>,
)
    requires
        0 <= i,
        forall|j: int|
            i <= j < s.len() ==> starts_in(ins, (#[trigger] s[j]).t0 as int) && stops_in(
                ins,
                s[j].t1 as int,
            ),
        active matches Some(a) ==> starts_in(ins, a.t0 as int) && stops_in(ins, a.t1 as int),
    ensures
        ends_from(sweep(s, i, active), ins),
    decreases s.len() - i,
{
    if i >= s.len() {
    } else {
        let c = s[i];
        assert(starts_in(ins, c.t0 as int) && stops_in(ins, c.t1 as int));
        match active {
            None => {
                lemma_sweep_ends(s, i + 1, None, ins);
                lemma_prepend_ends(c, sweep(s, i + 1, None), ins);
            },
            Some(a) => {
                if c.t1 < a.t0 - COALESCE_GAP {
                    lemma_sweep_ends(s, i + 1, Some(a), ins);
                    lemma_prepend_ends(c, sweep(s, i + 1, Some(a)), ins);
                } else if c.t0 > a.t1 + COALESCE_GAP {
                    lemma_sweep_ends(s, i + 1, None, ins);
                    let r = sweep(s, i + 1, None);
                    lemma_prepend_ends(c, r, ins);
                    lemma_prepend_ends(a, seq![c] + r, ins);
                    assert(seq![a, c] + r =~= seq![a] + (seq![c] + r));
                } else if a.t0 <= c.t0 && c.t1 <= a.t1 {
                    lemma_sweep_ends(s, i + 1, Some(a), ins);
                } else if c.t0 <= a.t0 && a.t1 <= c.t1 {
                    lemma_sweep_ends(s, i + 1, None, ins);
                    lemma_prepend_ends(c, sweep(s, i + 1, None), ins);
                } else if a.t1 >= c.t1 {
                    lemma_sweep_ends(s, i + 1, Some(coalesce(a, c)), ins);
                } else {
                    lemma_sweep_ends(s, i + 1, None, ins);
                    lemma_prepend_ends(coalesce(a, c), sweep(s, i + 1, None), ins);
                }
            },
        }
    }
}

/// What starts or ends in a sequence of intervals starts or ends in a
/// sequence that holds every interval of it.
pub proof fn lemma_ends_in_more<const N: usize>(
    small: Seq<AugmentedLineSegment<N>>,
    large: Seq<AugmentedLineSegment<N>>,
    t: int,
)
    requires
        forall|i: int| 0 <= i < small.len() ==> large.contains(#[trigger] small[i]),
    ensures
        starts_in(small, t) ==> starts_in(large, t),
        stops_in(small, t) ==> stops_in(large, t),
{
    if starts_in(small, t) {
        let k = choose|k: int| 0 <= k < small.len() && (#[trigger] small[k]).t0 == t;
        assert(large.contains(small[k]));
        let m = choose|m: int| 0 <= m < large.len() && large[m] == small[k];
        assert(large[m].t0 == t);
    }
    if stops_in(small, t) {
        let k = choose|k: int| 0 <= k < small.len() && (#[trigger] small[k]).t1 == t;
        assert(large.contains(small[k]));
        let m = choose|m: int| 0 <= m < large.len() && large[m] == small[k];
        assert(large[m].t1 == t);
    }
}

/// What lies in the union of a sequence of intervals, small gaps filled in,
/// lies in that of a sequence that holds every interval of it.
pub proof fn lemma_closed_cover_in_more<const N: usize>(
    small: Seq<AugmentedLineSegment<N>>,
    large: Seq<AugmentedLineSegment<N>>,
    t: int,
)
    requires
        forall|i: int| 0 <= i < small.len() ==> large.contains(#[trigger] small[i]),
        closed_cover(small, t),
    ensures
        closed_cover(large, t),
{
    if covers(small, t) {
        let k = choose|k: int| 0 <= k < small.len() && (#[trigger] small[k]).t0 <= t <= small[k].t1;
        assert(large.contains(small[k]));
        let m = choose|m: int| 0 <= m < large.len() && large[m] == small[k];
        assert(large[m].t0 <= t <= large[m].t1);
    } else {
        let (i, j) = choose|i: int, j: int|
            0 <= i < small.len() && 0 <= j < small.len() && (#[trigger] small[i]).t1 < t < (
            #[trigger] small[j]).t0 && small[j].t0 - small[i].t1 <= COALESCE_GAP;
        assert(large.contains(small[i]));
        assert(large.contains(small[j]));
        let m = choose|m: int| 0 <= m < large.len() && large[m] == small[i];
        let n = choose|n: int| 0 <= n < large.len() && large[n] == small[j];
        assert(large[m].t1 < t < large[n].t0 && large[n].t0 - large[m].t1 <= COALESCE_GAP);
    }
}

/// After any number of insertions into the empty set the set is well-formed,
/// and each of its intervals starts where an inserted interval starts and
/// ends where one ends.
pub proof fn lemma_insert_all_wf<const N: usize>(ins: Seq<AugmentedLineSegment<N>>, n: int)
    requires
        all_forward(ins),
        0 <= n <= ins.len(),
    ensures
        intervals_wf(insert_all(ins, n)),
        ends_from(insert_all(ins, n), ins.subrange(0, n)),
    decreases n,
{
    if n > 0 {
        lemma_insert_all_wf(ins, n - 1);
        let f = insert_all(ins, n - 1);
        let a = ins[n - 1];
        let before = ins.subrange(0, n - 1);
        let now = ins.subrange(0, n);
        lemma_add_interval_wf(f, a);
        assert(now[n - 1] == a);
        assert forall|i: int| 0 <= i < before.len() implies now.contains(#[trigger] before[i]) by {
            assert(now[i] == before[i]);
        }
        assert forall|j: int| 0 <= j < f.len() implies starts_in(now, (#[trigger] f[j]).t0 as int)
            && stops_in(now, f[j].t1 as int) by {
            lemma_ends_in_more(before, now, f[j].t0 as int);
            lemma_ends_in_more(before, now, f[j].t1 as int);
        }
        lemma_sweep_ends(f, 0, Some(a), now);
    }
}

/// One insertion, from the set to the inserted intervals: if the set `f`
/// covers no more than the union of the intervals `before` with small gaps
/// filled in, and has its ends from them, then with `a` inserted it covers
/// no more than that union of `before` and `a`.
pub proof fn lemma_coverage_step_sound<const N: usize>(
    f: Seq<AugmentedLineSegment<N>>,
    a: AugmentedLineSegment<N>,
    before: Seq<AugmentedLineSegment<N>>,
    t: int,
)
    requires
        ends_from(f, before),
        forall|u: int| covers(f, u) ==> #[trigger] closed_cover(before, u),
        covers(add_interval_spec(f, a), t),
    ensures
        closed_cover(before.push(a), t),
{
    let now = before.push(a);
    let fa = f.push(a);
    let last = f.len() as int;
    let n = before.len() as int;
    assert(now[n] == a);
    assert(fa[last] == a);
    assert forall|i: int| 0 <= i < before.len() implies now.contains(#[trigger] before[i]) by {
        assert(now[i] == before[i]);
    }
    lemma_add_interval_sound(f, a, t);
    if covers(fa, t) {
        let i = choose|i: int| 0 <= i < fa.len() && (#[trigger] fa[i]).t0 <= t <= fa[i].t1;
        if i < last {
            assert(fa[i] == f[i]);
            assert(f[i].t0 <= t <= f[i].t1);
            assert(closed_cover(before, t));
            lemma_closed_cover_in_more(before, now, t);
        } else {
            assert(now[n].t0 <= t <= now[n].t1);
        }
    } else {
        let (i, j) = choose|i: int, j: int|
            0 <= i < fa.len() && 0 <= j < fa.len() && (#[trigger] fa[i]).t1 < t < (
            #[trigger] fa[j]).t0 && fa[j].t0 - fa[i].t1 <= COALESCE_GAP;
        assert(stops_in(now, fa[i].t1 as int)) by {
            if i < last {
                assert(fa[i] == f[i]);
                lemma_ends_in_more(before, now, f[i].t1 as int);
            } else {
                assert(now[n].t1 == fa[i].t1);
            }
        }
        assert(starts_in(now, fa[j].t0 as int)) by {
            if j < last {
                assert(fa[j] == f[j]);
                lemma_ends_in_more(before, now, f[j].t0 as int);
            } else {
                assert(now[n].t0 == fa[j].t0);
            }
        }
        let x = choose|k: int| 0 <= k < now.len() && (#[trigger] now[k]).t1 == fa[i].t1;
        let y = choose|k: int| 0 <= k < now.len() && (#[trigger] now[k]).t0 == fa[j].t0;
        assert(now[x].t1 < t < now[y].t0 && now[y].t0 - now[x].t1 <= COALESCE_GAP);
    }
}

/// One insertion, from the inserted intervals to the set: if the
/// well-formed set `f` covers the union of the intervals `before` with
/// small gaps filled in, then with `a` inserted it covers that union of
/// `before` and `a`.
pub proof fn lemma_coverage_step_complete<const N: usize>(
    f: Seq<AugmentedLineSegment<N>>,
    a: AugmentedLineSegment<N>,
    before: Seq<AugmentedLineSegment<N>>,
    t: int,
)
    requires
        intervals_wf(f),
        a.t0 <= a.t1,
        all_forward(before),
        forall|u: int| #[trigger] closed_cover(before, u) ==> covers(f, u),
        closed_cover(before.push(a), t),
    ensures
        covers(add_interval_spec(f, a), t),
{
    let now = before.push(a);
    let fa = f.push(a);
    let last = f.len() as int;
    let n = before.len() as int;
    assert(now[n] == a);
    assert(fa[last] == a);
    assert(closed_cover(fa, t)) by {
        if covers(now, t) {
            let i = choose|i: int| 0 <= i < now.len() && (#[trigger] now[i]).t0 <= t <= now[i].t1;
            if i < n {
                assert(before[i] == now[i]);
                assert(before[i].t0 <= t <= before[i].t1);
                assert(closed_cover(before, t));
                lemma_covered_stays(f, a, t);
            } else {
                assert(fa[last].t0 <= t <= fa[last].t1);
            }
        } else {
            let (i, j) = choose|i: int, j: int|
                0 <= i < now.len() && 0 <= j < now.len() && (#[trigger] now[i]).t1 < t < (
                #[trigger] now[j]).t0 && now[j].t0 - now[i].t1 <= COALESCE_GAP;
            if i < n && j < n {
                assert(before[i] == now[i] && before[j] == now[j]);
                assert(before[i].t1 < t < before[j].t0 && before[j].t0 - before[i].t1
                    <= COALESCE_GAP);
                assert(closed_cover(before, t));
                lemma_covered_stays(f, a, t);
            } else if i < n {
                // The gap lies between an earlier interval and the new one.
                let u = now[i].t1 as int;
                assert(before[i] == now[i]);
                assert(before[i].t0 <= u <= before[i].t1);
                assert(closed_cover(before, u));
                let m = choose|m: int| 0 <= m < f.len() && (#[trigger] f[m]).t0 <= u <= f[m].t1;
                assert(fa[m] == f[m]);
                if f[m].t1 >= t {
                    assert(fa[m].t0 <= t <= fa[m].t1);
                } else {
                    assert(fa[m].t1 < t < fa[last].t0 && fa[last].t0 - fa[m].t1 <= COALESCE_GAP);
                }
            } else if j < n {
                // The gap lies between the new interval and an earlier one.
                let u = now[j].t0 as int;
                assert(before[j] == now[j]);
                assert(before[j].t0 <= u <= before[j].t1);
                assert(closed_cover(before, u));
                let m = choose|m: int| 0 <= m < f.len() && (#[trigger] f[m]).t0 <= u <= f[m].t1;
                assert(fa[m] == f[m]);
                if f[m].t0 <= t {
                    assert(fa[m].t0 <= t <= fa[m].t1);
                } else {
                    assert(fa[last].t1 < t < fa[m].t0 && fa[m].t0 - fa[last].t1 <= COALESCE_GAP);
                }
            }
        }
    }
    lemma_add_interval_covers(f, a, t);
}

/// After any number of insertions into the empty set the set covers exactly
/// the union of what was inserted, with every gap that is no wider than the
/// gap that is closed filled in.
pub proof fn lemma_insert_all_coverage<const N: usize>(
    ins: Seq<AugmentedLineSegment<N>>,
    n: int,
    t: int,
)
    requires
        all_forward(ins),
        0 <= n <= ins.len(),
    ensures
        covers(insert_all(ins, n), t) == closed_cover(ins.subrange(0, n), t),
    decreases n,
{
    if n <= 0 {
        assert(!covers(insert_all(ins, n), t));
        assert(!closed_cover(ins.subrange(0, n), t));
    } else {
        let f = insert_all(ins, n - 1);
        let a = ins[n - 1];
        let before = ins.subrange(0, n - 1);
        lemma_insert_all_wf(ins, n - 1);
        assert(ins.subrange(0, n) =~= before.push(a));
        assert forall|u: int| covers(f, u) == #[trigger] closed_cover(before, u) by {
            lemma_insert_all_coverage(ins, n - 1, u);
        }
        if covers(insert_all(ins, n), t) {
            lemma_coverage_step_sound(f, a, before, t);
        }
        if closed_cover(before.push(a), t) {
            lemma_coverage_step_complete(f, a, before, t);
        }
    }
}

/// What a set covers, the set with one more interval behind it covers.
pub proof fn lemma_covered_stays<const N: usize>(
    f: Seq<AugmentedLineSegment<N>>,
    a: AugmentedLineSegment<N>,
    t: int,
)
    requires
        covers(f, t),
    ensures
        closed_cover(f.push(a), t),
{
    let m = choose|m: int| 0 <= m < f.len() && (#[trigger] f[m]).t0 <= t <= f[m].t1;
    assert(f.push(a)[m] == f[m]);
    assert(f.push(a)[m].t0 <= t <= f.push(a)[m].t1);
}

/// What an interval set covers does not depend on the order in which the
/// intervals were inserted: two sequences of insertions that hold the same
/// intervals leave the same parameters covered.
pub proof fn lemma_insert_order<const N: usize>(
    first: Seq<AugmentedLineSegment<N>>,
    second: Seq<AugmentedLineSegment<N>>,
    t: int,
)
    requires
        all_forward(first),
        all_forward(second),
        forall|i: int| 0 <= i < first.len() ==> second.contains(#[trigger] first[i]),
        forall|i: int| 0 <= i < second.len() ==> first.contains(#[trigger] second[i]),
    ensures
        covers(insert_all(first, first.len() as int), t) == covers(
            insert_all(second, second.len() as int),
            t,
        ),
{
    lemma_insert_all_coverage(first, first.len() as int, t);
    lemma_insert_all_coverage(second, second.len() as int, t);
    assert(first.subrange(0, first.len() as int) =~= first);
    assert(second.subrange(0, second.len() as int) =~= second);
    if closed_cover(first, t) {
        lemma_closed_cover_in_more(first, second, t);
    }
    if closed_cover(second, t) {
        lemma_closed_cover_in_more(second, first, t);
    }
}


/// The sweep makes no more intervals than it is given.
pub proof fn lemma_sweep_len<const N: usize>(
    s: Seq<AugmentedLineSegment<N>>,
    i: int,
    active: Option<AugmentedLineSegment<N>>,
)
    requires
        0 <= i <= s.len(),
    ensures
        sweep(s, i, active).len() <= s.len() - i + if active is Some {
            1int
        } else {
            0int
        },
    decreases s.len() - i,
{
    if i < s.len() {
        let c = s[i];
        match active {
            None => {
                lemma_sweep_len(s, i + 1, None);
            },
            Some(a) => {
                if c.t1 < a.t0 - COALESCE_GAP {
                    lemma_sweep_len(s, i + 1, Some(a));
                } else if c.t0 > a.t1 + COALESCE_GAP {
                    lemma_sweep_len(s, i + 1, None);
                } else if a.t0 <= c.t0 && c.t1 <= a.t1 {
                    lemma_sweep_len(s, i + 1, Some(a));
                } else if c.t0 <= a.t0 && a.t1 <= c.t1 {
                    lemma_sweep_len(s, i + 1, None);
                } else if a.t1 >= c.t1 {
                    lemma_sweep_len(s, i + 1, Some(coalesce(a, c)));
                } else {
                    lemma_sweep_len(s, i + 1, None);
                }
            },
        }
    }
}

/// After `n` insertions a set holds at most `n` intervals.
pub proof fn lemma_insert_all_len<const N: usize>(ins: Seq<AugmentedLineSegment<N>>, n: int)
    requires
        0 <= n,
    ensures
        insert_all(ins, n).len() <= n,
    decreases n,
{
    if n > 0 {
        lemma_insert_all_len(ins, n - 1);
        lemma_sweep_len(insert_all(ins, n - 1), 0, Some(ins[n - 1]));
    }
}

/// The first insertions do not depend on what is inserted later.
pub proof fn lemma_insert_all_prefix<const N: usize>(
    ins: Seq<AugmentedLineSegment<N>>,
    extra: AugmentedLineSegment<N>,
    n: int,
)
    requires
        n <= ins.len(),
    ensures
        insert_all(ins.push(extra), n) == insert_all(ins, n),
    decreases n,
{
    if n > 0 {
        lemma_insert_all_prefix(ins, extra, n - 1);
        assert(ins.push(extra)[n - 1] == ins[n - 1]);
    }
}

/// The lines with one more segment filed, as it arrived: the record of what
/// the deduplication was given, line by line. The segment is filed where
/// the deduplication adds it, but nothing is united.
pub open spec fn file_spec(raw: Seq<Bin>, ls: LineSegment<2>, n_scale: int, p_scale: int) -> Seq<
    Bin,
> {
    let key = bin_of(direction(ls@), ls@.a, n_scale, p_scale);
    if ls@.a == ls@.b {
        raw
    } else {
        match find_from(raw, key, 0) {
            Some(j) => raw.update(
                j,
                Bin { key: raw[j].key, intervals: raw[j].intervals.push(forward_interval(ls)) },
            ),
            None => match find_from(raw, opposite_key(key), 0) {
                Some(j) => raw.update(
                    j,
                    Bin {
                        key: raw[j].key,
                        intervals: raw[j].intervals.push(backward_interval(ls)),
                    },
                ),
                None => raw.push(Bin { key, intervals: seq![forward_interval(ls)] }),
            },
        }
    }
}

/// The record after the segments of `input` from position `i` on.
pub open spec fn file_all(
    raw: Seq<Bin>,
    input: Seq<LineSegment<2>>,
    i: int,
    n_scale: int,
    p_scale: int,
) -> Seq<Bin>
    decreases input.len() - i,
{
    if i < 0 || i >= input.len() {
        raw
    } else {
        file_all(file_spec(raw, input[i], n_scale, p_scale), input, i + 1, n_scale, p_scale)
    }
}

/// The line `b` of the deduplication is what insertion makes of the
/// intervals filed in the line `r` of the record.
pub open spec fn built_line(b: Bin, r: Bin) -> bool {
    &&& b.key == r.key
    &&& all_forward(r.intervals)
    &&& b.intervals == insert_all(r.intervals, r.intervals.len() as int)
}

/// Every line of the deduplication is what insertion makes of the same line
/// of the record.
pub open spec fn built_from(bins: Seq<Bin>, raw: Seq<Bin>) -> bool {
    &&& bins.len() == raw.len()
    &&& forall|j: int| 0 <= j < bins.len() ==> built_line(#[trigger] bins[j], raw[j])
}

/// A search finds the same line in two lists of lines with the same keys,
/// and what it finds is a line of the list with the key.
pub proof fn lemma_find_same(bins: Seq<Bin>, raw: Seq<Bin>, key: (int, int, int, int), i: int)
    requires
        0 <= i,
        bins.len() == raw.len(),
        forall|j: int| 0 <= j < bins.len() ==> (#[trigger] bins[j]).key == raw[j].key,
    ensures
        find_from(bins, key, i) == find_from(raw, key, i),
        find_from(bins, key, i) matches Some(j) ==> i <= j < bins.len() && bins[j].key == key,
    decreases bins.len() - i,
{
    if i < bins.len() {
        assert(bins[i].key == raw[i].key);
        if bins[i].key != key {
            lemma_find_same(bins, raw, key, i + 1);
        }
    }
}

/// The interval of a segment on the line described the other way round runs
/// forward as well.
pub proof fn lemma_backward_interval(ls: LineSegment<2>)
    requires
        ls.wf(),
        ls@.a != ls@.b,
    ensures
        backward_interval(ls).t0 <= backward_interval(ls).t1,
{
    lemma_forward_interval(ls);
}

/// One more segment keeps the deduplication in step with the record.
pub proof fn lemma_built_step(
    bins: Seq<Bin>,
    raw: Seq<Bin>,
    ls: LineSegment<2>,
    n_scale: int,
    p_scale: int,
)
    requires
        built_from(bins, raw),
        ls.wf(),
    ensures
        built_from(add_spec(bins, ls, n_scale, p_scale), file_spec(raw, ls, n_scale, p_scale)),
{
    let key = bin_of(direction(ls@), ls@.a, n_scale, p_scale);
    let after = add_spec(bins, ls, n_scale, p_scale);
    let filed = file_spec(raw, ls, n_scale, p_scale);
    assert forall|j: int| 0 <= j < bins.len() implies (#[trigger] bins[j]).key == raw[j].key by {
        assert(built_line(bins[j], raw[j]));
    }
    if ls@.a != ls@.b {
        lemma_forward_interval(ls);
        lemma_backward_interval(ls);
        lemma_find_same(bins, raw, key, 0);
        lemma_find_same(bins, raw, opposite_key(key), 0);
        let which = match find_from(bins, key, 0) {
            Some(j) => Some((j, forward_interval(ls))),
            None => match find_from(bins, opposite_key(key), 0) {
                Some(j) => Some((j, backward_interval(ls))),
                None => None,
            },
        };
        match which {
            Some((j, interval)) => {
                let list = raw[j].intervals;
                assert(built_line(bins[j], raw[j]));
                lemma_insert_all_prefix(list, interval, list.len() as int);
                assert(list.push(interval)[list.len() as int] == interval);
                assert forall|k: int| 0 <= k < after.len() implies built_line(
                    #[trigger] after[k],
                    filed[k],
                ) by {
                    if k != j {
                        assert(built_line(bins[k], raw[k]));
                    }
                }
            },
            None => {
                let interval = forward_interval(ls);
                let list = seq![interval];
                assert(insert_all(list, 0) == Seq::<AugmentedLineSegment<2>>::empty());
                assert(insert_all(list, 1) == add_interval_spec(insert_all(list, 0), list[0]));
                assert(sweep(Seq::<AugmentedLineSegment<2>>::empty(), 0, Some(interval)) == seq![
                    interval,
                ]);
                assert forall|k: int| 0 <= k < after.len() implies built_line(
                    #[trigger] after[k],
                    filed[k],
                ) by {
                    if k < bins.len() {
                        assert(built_line(bins[k], raw[k]));
                    }
                }
            },
        }
    }
}

/// Any number of segments keep the deduplication in step with the record.
pub proof fn lemma_built_all(
    bins: Seq<Bin>,
    raw: Seq<Bin>,
    input: Seq<LineSegment<2>>,
    i: int,
    n_scale: int,
    p_scale: int,
)
    requires
        built_from(bins, raw),
        0 <= i,
        forall|k: int| 0 <= k < input.len() ==> (#[trigger] input[k]).wf(),
    ensures
        built_from(
            add_all(bins, input, i, n_scale, p_scale),
            file_all(raw, input, i, n_scale, p_scale),
        ),
    decreases input.len() - i,
{
    if i < input.len() {
        lemma_built_step(bins, raw, input[i], n_scale, p_scale);
        lemma_built_all(
            add_spec(bins, input[i], n_scale, p_scale),
            file_spec(raw, input[i], n_scale, p_scale),
            input,
            i + 1,
            n_scale,
            p_scale,
        );
    }
}

/// What the second stage holds of one line, after any input: the stretches
/// of the line are more than the gap apart, so that none overlaps another;
/// they are no more than the segments that were filed under the line; and
/// together they cover exactly the union of those segments, with every gap
/// that is no wider than the gap that is closed filled in.
pub proof fn lemma_stage_b_lines(
    input: Seq<LineSegment<2>>,
    n_scale: int,
    p_scale: int,
    j: int,
    t: int,
)
    requires
        forall|k: int| 0 <= k < input.len() ==> (#[trigger] input[k]).wf(),
        0 <= j < add_all(Seq::empty(), input, 0, n_scale, p_scale).len(),
    ensures
        ({
            let line = add_all(Seq::empty(), input, 0, n_scale, p_scale)[j];
            let filed = file_all(Seq::empty(), input, 0, n_scale, p_scale)[j];
            &&& line.key == filed.key
            &&& intervals_wf(line.intervals)
            &&& line.intervals.len() <= filed.intervals.len()
            &&& covers(line.intervals, t) == closed_cover(filed.intervals, t)
        }),
{
    let empty = Seq::<Bin>::empty();
    assert(built_from(empty, empty));
    lemma_built_all(empty, empty, input, 0, n_scale, p_scale);
    let line = add_all(empty, input, 0, n_scale, p_scale)[j];
    let filed = file_all(empty, input, 0, n_scale, p_scale)[j];
    assert(built_line(line, filed));
    let n = filed.intervals.len() as int;
    lemma_insert_all_wf(filed.intervals, n);
    lemma_insert_all_len(filed.intervals, n);
    lemma_insert_all_coverage(filed.intervals, n, t);
    assert(filed.intervals.subrange(0, n) =~= filed.intervals);
}


/// The number of intervals in the lines from position `j` on.
pub open spec fn count_from(bins: Seq<Bin>, j: int) -> int
    decreases bins.len() - j,
{
    if j < 0 || j >= bins.len() {
        0
    } else {
        bins[j].intervals.len() + count_from(bins, j + 1)
    }
}

/// The stage hands out one segment for every interval that it holds.
pub proof fn lemma_flatten_len(bins: Seq<Bin>, j: int)
    requires
        0 <= j,
    ensures
        flatten_from(bins, j).len() == count_from(bins, j),
    decreases bins.len() - j,
{
    if j < bins.len() {
        lemma_flatten_len(bins, j + 1);
        assert(interval_segments(bins[j].intervals).len() == bins[j].intervals.len());
    }
}

/// The count of intervals where one line has been replaced.
pub proof fn lemma_count_update(bins: Seq<Bin>, k: int, line: Bin, j: int)
    requires
        0 <= j,
        0 <= k < bins.len(),
    ensures
        count_from(bins.update(k, line), j) == count_from(bins, j) + if j <= k {
            line.intervals.len() - bins[k].intervals.len()
        } else {
            0
        },
    decreases bins.len() - j,
{
    if j < bins.len() {
        lemma_count_update(bins, k, line, j + 1);
    }
}

/// The count of intervals with one more line.
pub proof fn lemma_count_push(bins: Seq<Bin>, line: Bin, j: int)
    requires
        0 <= j <= bins.len(),
    ensures
        count_from(bins.push(line), j) == count_from(bins, j) + line.intervals.len(),
    decreases bins.len() - j,
{
    if j < bins.len() {
        lemma_count_push(bins, line, j + 1);
        assert(bins.push(line)[j] == bins[j]);
    } else {
        assert(count_from(bins.push(line), j + 1) == 0);
    }
}

/// Lines that are built from a record hold no more intervals than the
/// record.
pub proof fn lemma_count_built(bins: Seq<Bin>, raw: Seq<Bin>, j: int)
    requires
        built_from(bins, raw),
        0 <= j,
    ensures
        count_from(bins, j) <= count_from(raw, j),
    decreases bins.len() - j,
{
    if j < bins.len() {
        lemma_count_built(bins, raw, j + 1);
        assert(built_line(bins[j], raw[j]));
        lemma_insert_all_len(raw[j].intervals, raw[j].intervals.len() as int);
    }
}

/// The record grows by at most one interval for every segment.
pub proof fn lemma_count_filed(
    raw: Seq<Bin>,
    input: Seq<LineSegment<2>>,
    i: int,
    n_scale: int,
    p_scale: int,
)
    requires
        0 <= i <= input.len(),
    ensures
        count_from(file_all(raw, input, i, n_scale, p_scale), 0) <= count_from(raw, 0)
            + input.len() - i,
    decreases input.len() - i,
{
    if i < input.len() {
        let ls = input[i];
        let key = bin_of(direction(ls@), ls@.a, n_scale, p_scale);
        let next = file_spec(raw, ls, n_scale, p_scale);
        lemma_find_same(raw, raw, key, 0);
        lemma_find_same(raw, raw, opposite_key(key), 0);
        assert(count_from(next, 0) <= count_from(raw, 0) + 1) by {
            if ls@.a != ls@.b {
                match find_from(raw, key, 0) {
                    Some(j) => {
                        lemma_count_update(
                            raw,
                            j,
                            Bin {
                                key: raw[j].key,
                                intervals: raw[j].intervals.push(forward_interval(ls)),
                            },
                            0,
                        );
                    },
                    None => match find_from(raw, opposite_key(key), 0) {
                        Some(j) => {
                            lemma_count_update(
                                raw,
                                j,
                                Bin {
                                    key: raw[j].key,
                                    intervals: raw[j].intervals.push(backward_interval(ls)),
                                },
                                0,
                            );
                        },
                        None => {
                            lemma_count_push(
                                raw,
                                Bin { key, intervals: seq![forward_interval(ls)] },
                                0,
                            );
                        },
                    },
                }
            }
        }
        lemma_count_filed(next, input, i + 1, n_scale, p_scale);
    }
}

/// The second stage hands out no more segments than it was given.
pub proof fn lemma_stage_b_count(input: Seq<LineSegment<2>>, n_scale: int, p_scale: int)
    requires
        forall|k: int| 0 <= k < input.len() ==> (#[trigger] input[k]).wf(),
    ensures
        flatten(add_all(Seq::empty(), input, 0, n_scale, p_scale)).len() <= input.len(),
{
    let empty = Seq::<Bin>::empty();
    assert(built_from(empty, empty));
    lemma_built_all(empty, empty, input, 0, n_scale, p_scale);
    let bins = add_all(empty, input, 0, n_scale, p_scale);
    let raw = file_all(empty, input, 0, n_scale, p_scale);
    lemma_flatten_len(bins, 0);
    lemma_count_built(bins, raw, 0);
    lemma_count_filed(empty, input, 0, n_scale, p_scale);
}

} // verus!
