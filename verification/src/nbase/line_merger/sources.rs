//! Where the links of the polylines of the third stage come from: every
//! link of every polyline stands for a segment of the input, in one of its
//! two directions, with either end within the tolerance of the end of that
//! segment. No point is made up, and no end is moved twice.
use crate::nbase::line_merger::polyline_merger::{
    as_prefix, as_suffix, bin_at, cell_key, chain_run, chain_step, empty_chain_state,
    find_touching, joins, lemma_found_touches, lemma_joins_symmetric, splice_prefix,
    splice_suffix, stage_c, stored, survivors_from, ChainState,
};
use crate::nbase::line_segment::{LineSegment, Seg2};
use crate::nbase::point::V2;
use vstd::prelude::*;

verus! {

/// The link from `p` to `q` stands for the segment, in one of its two
/// directions: each end of the link is within the tolerance of the end of
/// the segment that it stands for.
pub open spec fn stands_for(p: V2, q: V2, seg: Seg2) -> bool {
    (joins(p, seg.a) && joins(q, seg.b)) || (joins(p, seg.b) && joins(q, seg.a))
}

/// The link from `p` to `q` stands for the segment, and `p` is the very end
/// of the segment that it stands for.
pub open spec fn starts_exactly(p: V2, q: V2, seg: Seg2) -> bool {
    (seg.a == p && joins(q, seg.b)) || (seg.b == p && joins(q, seg.a))
}

/// The link from `p` to `q` is the segment, in one of its two directions.
pub open spec fn is_exactly(p: V2, q: V2, seg: Seg2) -> bool {
    (seg.a == p && seg.b == q) || (seg.b == p && seg.a == q)
}

/// One of the segments is stood for by the link from `p` to `q`.
pub open spec fn link_sourced(segs: Seq<Seg2>, p: V2, q: V2) -> bool {
    exists|i: int| 0 <= i < segs.len() && stands_for(p, q, #[trigger] segs[i])
}

/// One of the segments is stood for by the link from `p` to `q`, with `p`
/// its very end.
pub open spec fn end_sourced(segs: Seq<Seg2>, p: V2, q: V2) -> bool {
    exists|i: int| 0 <= i < segs.len() && starts_exactly(p, q, #[trigger] segs[i])
}

/// One of the segments is the link from `p` to `q`.
pub open spec fn whole_sourced(segs: Seq<Seg2>, p: V2, q: V2) -> bool {
    exists|i: int| 0 <= i < segs.len() && is_exactly(p, q, #[trigger] segs[i])
}

/// Every link of the chain stands for one of the segments; the first and the
/// last point of the chain are the very ends of the segments that the first
/// and the last link stand for; and a chain of one link is one of the
/// segments.
pub open spec fn sourced(segs: Seq<Seg2>, pl: Seq<V2>) -> bool {
    &&& pl.len() >= 2
    &&& forall|k: int| 0 <= k < pl.len() - 1 ==> link_sourced(segs, #[trigger] pl[k], pl[k + 1])
    &&& end_sourced(segs, pl[0], pl[1])
    &&& end_sourced(segs, pl[pl.len() - 1], pl[pl.len() - 2])
    &&& pl.len() == 2 ==> whole_sourced(segs, pl[0], pl[1])
}

/// Every polyline that is left is sourced.
pub open spec fn all_sourced(s: ChainState, segs: Seq<Seg2>) -> bool {
    forall|idx: int|
        0 <= idx < s.entries.len() ==> ((#[trigger] s.entries[idx]) matches Some(pl) ==> sourced(
            segs,
            pl,
        ))
}

/// A point is the same point as itself.
pub proof fn lemma_joins_itself(p: V2)
    ensures
        joins(p, p),
{
    assert((p.x - p.x) * (p.x - p.x) == 0) by (nonlinear_arith);
    assert((p.y - p.y) * (p.y - p.y) == 0) by (nonlinear_arith);
}

/// A link that stands for a segment stands for it the other way round,
/// too.
pub proof fn lemma_link_turned(segs: Seq<Seg2>, p: V2, q: V2)
    requires
        link_sourced(segs, p, q),
    ensures
        link_sourced(segs, q, p),
{
    let i = choose|i: int| 0 <= i < segs.len() && stands_for(p, q, #[trigger] segs[i]);
    assert(stands_for(q, p, segs[i]));
}

/// A sourced chain walked the other way is sourced.
pub proof fn lemma_sourced_reverse(segs: Seq<Seg2>, pl: Seq<V2>)
    requires
        sourced(segs, pl),
    ensures
        sourced(segs, pl.reverse()),
{
    let r = pl.reverse();
    let n = pl.len() as int;
    assert forall|k: int| 0 <= k < r.len() - 1 implies link_sourced(segs, #[trigger] r[k], r[k + 1]) by {
        assert(r[k] == pl[n - 1 - k]);
        assert(r[k + 1] == pl[n - 2 - k]);
        assert(link_sourced(segs, pl[n - 2 - k], pl[n - 2 - k + 1]));
        lemma_link_turned(segs, pl[n - 2 - k], pl[n - 1 - k]);
    }
    assert(r[0] == pl[n - 1] && r[1] == pl[n - 2]);
    assert(r[n - 1] == pl[0] && r[n - 2] == pl[1]);
    if n == 2 {
        let i = choose|i: int| 0 <= i < segs.len() && is_exactly(pl[0], pl[1], #[trigger] segs[i]);
        assert(is_exactly(r[0], r[1], segs[i]));
    }
}

/// Two sourced chains, the second starting where the first ends, make a
/// sourced chain.
pub proof fn lemma_sourced_join(segs: Seq<Seg2>, head: Seq<V2>, tail: Seq<V2>)
    requires
        sourced(segs, head),
        sourced(segs, tail),
        joins(head.last(), tail.first()),
    ensures
        sourced(segs, head + tail.drop_first()),
{
    let m = head + tail.drop_first();
    let l1 = head.len() as int;
    let l2 = tail.len() as int;
    assert(m.len() == l1 + l2 - 1);
    assert forall|k: int| 0 <= k < m.len() implies #[trigger] m[k] == if k < l1 {
        head[k]
    } else {
        tail[k - l1 + 1]
    } by {}
    // The link at the joint stands for what the first link of the second
    // chain stood for.
    let i = choose|i: int|
        0 <= i < segs.len() && starts_exactly(tail[0], tail[1], #[trigger] segs[i]);
    assert(stands_for(head[l1 - 1], tail[1], segs[i]));
    assert forall|k: int| 0 <= k < m.len() - 1 implies link_sourced(segs, #[trigger] m[k], m[k + 1]) by {
        if k < l1 - 1 {
            assert(m[k] == head[k] && m[k + 1] == head[k + 1]);
            assert(link_sourced(segs, head[k], head[k + 1]));
        } else if k == l1 - 1 {
            assert(m[k] == head[l1 - 1] && m[k + 1] == tail[1]);
        } else {
            let j = k - l1 + 1;
            assert(m[k] == tail[j] && m[k + 1] == tail[j + 1]);
            assert(link_sourced(segs, tail[j], tail[j + 1]));
        }
    }
    assert(m[0] == head[0] && m[1] == head[1]);
    assert(m[m.len() - 1] == tail[l2 - 1]);
    if l2 >= 3 {
        assert(m[m.len() - 2] == tail[l2 - 2]);
    } else {
        assert(m[m.len() - 2] == head[l1 - 1]);
        let w = choose|w: int|
            0 <= w < segs.len() && is_exactly(tail[0], tail[1], #[trigger] segs[w]);
        assert(starts_exactly(tail[1], head[l1 - 1], segs[w]));
    }
}

/// The chain of a segment of the input is sourced.
pub proof fn lemma_sourced_new(segs: Seq<Seg2>, a: V2, b: V2)
    requires
        segs.contains(Seg2 { a, b }),
    ensures
        sourced(segs, seq![a, b]),
{
    let pl = seq![a, b];
    let i = choose|i: int| 0 <= i < segs.len() && segs[i] == (Seg2 { a, b });
    lemma_joins_itself(a);
    lemma_joins_itself(b);
    assert(is_exactly(pl[0], pl[1], segs[i]));
    assert(starts_exactly(pl[0], pl[1], segs[i]));
    assert(starts_exactly(pl[1], pl[0], segs[i]));
    assert(stands_for(pl[0], pl[1], segs[i]));
}

/// One more segment of the input keeps every polyline sourced.
pub proof fn lemma_chain_step_sourced(s: ChainState, segs: Seq<Seg2>, a: V2, b: V2)
    requires
        all_sourced(s, segs),
        segs.contains(Seg2 { a, b }),
    ensures
        all_sourced(chain_step(s, a, b), segs),
{
    let pl0 = seq![a, b];
    lemma_sourced_new(segs, a, b);
    let (s1, pl1) = splice_prefix(s, pl0);
    let k0 = cell_key(pl0.first()) as u128;
    assert(all_sourced(s1, segs) && sourced(segs, pl1)) by {
        match find_touching(s.entries, bin_at(s.nodes, k0), pl0.first(), 0) {
            Some(i) => {
                lemma_found_touches(s.entries, bin_at(s.nodes, k0), pl0.first(), 0, i);
                let (role, idx) = s.nodes[k0][i].unwrap();
                let held = s.entries[idx as int].unwrap();
                assert(sourced(segs, held));
                lemma_sourced_reverse(segs, held);
                lemma_sourced_join(segs, as_prefix(role, held), pl0);
                assert forall|x: int| 0 <= x < s1.entries.len() implies ((
                #[trigger] s1.entries[x]) matches Some(pl) ==> sourced(segs, pl)) by {
                    if x != idx {
                        assert(s1.entries[x] == s.entries[x]);
                    }
                }
            },
            None => {},
        }
    }
    let (s2, pl2) = splice_suffix(s1, pl1);
    let k1 = cell_key(pl1.last()) as u128;
    assert(all_sourced(s2, segs) && sourced(segs, pl2)) by {
        match find_touching(s1.entries, bin_at(s1.nodes, k1), pl1.last(), 0) {
            Some(i) => {
                lemma_found_touches(s1.entries, bin_at(s1.nodes, k1), pl1.last(), 0, i);
                let (role, idx) = s1.nodes[k1][i].unwrap();
                let held = s1.entries[idx as int].unwrap();
                assert(sourced(segs, held));
                lemma_sourced_reverse(segs, held);
                let turned = as_suffix(role, held);
                assert(turned.first() == as_prefix(role, held).last());
                lemma_joins_symmetric(turned.first(), pl1.last());
                lemma_sourced_join(segs, pl1, turned);
                assert forall|x: int| 0 <= x < s2.entries.len() implies ((
                #[trigger] s2.entries[x]) matches Some(pl) ==> sourced(segs, pl)) by {
                    if x != idx {
                        assert(s2.entries[x] == s1.entries[x]);
                    }
                }
            },
            None => {},
        }
    }
    let done = stored(s2, pl2);
    assert forall|x: int| 0 <= x < done.entries.len() implies ((#[trigger] done.entries[x])
        matches Some(pl) ==> sourced(segs, pl)) by {
        if x < s2.entries.len() {
            assert(done.entries[x] == s2.entries[x]);
        }
    }
}


/// The segments of an input, as contracts see them.
pub open spec fn segments_view(input: Seq<LineSegment<2>>) -> Seq<Seg2> {
    Seq::new(input.len(), |i: int| input[i]@)
}

/// Any number of segments of the input keep every polyline sourced.
pub proof fn lemma_chain_run_sourced(
    s: ChainState,
    segs: Seq<Seg2>,
    input: Seq<LineSegment<2>>,
    i: int,
)
    requires
        0 <= i,
        all_sourced(s, segs),
        forall|k: int| 0 <= k < input.len() ==> segs.contains((#[trigger] input[k])@),
    ensures
        all_sourced(chain_run(s, input, i), segs),
    decreases input.len() - i,
{
    if i < input.len() {
        assert(segs.contains(input[i]@));
        assert(input[i]@ == (Seg2 { a: input[i]@.a, b: input[i]@.b }));
        lemma_chain_step_sourced(s, segs, input[i]@.a, input[i]@.b);
        lemma_chain_run_sourced(chain_step(s, input[i]@.a, input[i]@.b), segs, input, i + 1);
    }
}

/// Every polyline that is handed out is one that was left in the table.
pub proof fn lemma_survivor_is_entry(entries: Seq<Option<Seq<V2>>>, i: int, e: int)
    requires
        0 <= i,
        0 <= e < survivors_from(entries, i).len(),
    ensures
        exists|idx: int|
            i <= idx < entries.len() && #[trigger] entries[idx] == Some(
                survivors_from(entries, i)[e],
            ),
    decreases entries.len() - i,
{
    if i < entries.len() {
        match entries[i] {
            Some(pl) => {
                if e == 0 {
                    assert(entries[i] == Some(survivors_from(entries, i)[e]));
                } else {
                    lemma_survivor_is_entry(entries, i + 1, e - 1);
                    let idx = choose|idx: int|
                        i + 1 <= idx < entries.len() && #[trigger] entries[idx] == Some(
                            survivors_from(entries, i + 1)[e - 1],
                        );
                    assert(entries[idx] == Some(survivors_from(entries, i)[e]));
                }
            },
            None => {
                lemma_survivor_is_entry(entries, i + 1, e);
                let idx = choose|idx: int|
                    i + 1 <= idx < entries.len() && #[trigger] entries[idx] == Some(
                        survivors_from(entries, i + 1)[e],
                    );
                assert(entries[idx] == Some(survivors_from(entries, i)[e]));
            },
        }
    }
}

/// Every link of every polyline that the third stage hands out stands for a
/// segment of its input, in one of its two directions, with either end
/// within the tolerance of the end of that segment; the first and the last
/// point of the polyline are the very ends of the segments that the first
/// and the last link stand for.
pub proof fn lemma_stage_c_sourced(input: Seq<LineSegment<2>>, e: int)
    requires
        0 <= e < stage_c(input).len(),
    ensures
        sourced(segments_view(input), stage_c(input)[e]),
{
    let segs = segments_view(input);
    let start = empty_chain_state();
    assert forall|k: int| 0 <= k < input.len() implies segs.contains((#[trigger] input[k])@) by {
        assert(segs[k] == input[k]@);
    }
    lemma_chain_run_sourced(start, segs, input, 0);
    let end = chain_run(start, input, 0);
    lemma_survivor_is_entry(end.entries, 0, e);
}

} // verus!
