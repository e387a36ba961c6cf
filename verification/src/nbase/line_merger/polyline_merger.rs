//! Reconstruction of chains: segments that share an end point, within the
//! tolerance, are spliced into one polyline.
//!
//! End points are looked up by the cell of a coarse grid that they fall in. A
//! polyline that is absorbed into another leaves a tombstone in the table of
//! polylines and in the cell through which it was found, so that the
//! positions that other cells refer to stay valid.
use crate::nbase::line_merger::JOIN_TOLERANCE_SQ;
use crate::nbase::line_segment::LineSegment;
use crate::nbase::point::{lemma_mul_bound, Point, V2};
use crate::nbase::polyline::PolyLine;
use std::collections::HashMap;
use vstd::prelude::*;

verus! {

/// Which end of a polyline lies in a cell.
#[derive(PartialEq, Eq, Clone, Copy, Debug)]
pub enum StartOrEnd {
    Start,
    End,
}

/// Grid steps along one side of a cell of the lookup grid: a hundredth of a
/// drawing unit.
pub const CELL: i64 = 100;

/// The cell that a coordinate falls in. Everything below zero falls in cell
/// zero.
pub open spec fn cell(c: int) -> int {
    if c < 0 {
        0
    } else {
        c / (CELL as int)
    }
}

/// The cell of a point, as one number.
pub open spec fn cell_key(p: V2) -> int {
    cell(p.x) * 0x1_0000_0000_0000_0000 + cell(p.y)
}

/// The two points are the same point, within the tolerance.
pub open spec fn joins(a: V2, b: V2) -> bool {
    a.sub(b).norm2() <= JOIN_TOLERANCE_SQ
}

/// The chain `head` followed by `tail`, where `tail` starts where `head`
/// ends; the shared point is kept once, as `head` has it.
pub open spec fn merge_pl_spec(head: Seq<V2>, tail: Seq<V2>) -> Option<Seq<V2>> {
    if joins(head.last(), tail.first()) {
        Some(head + tail.drop_first())
    } else {
        None
    }
}

/// A stored chain, turned so that the end registered in the cell comes last.
pub open spec fn as_prefix(role: StartOrEnd, pl: Seq<V2>) -> Seq<V2> {
    match role {
        StartOrEnd::Start => pl.reverse(),
        StartOrEnd::End => pl,
    }
}

/// A stored chain, turned so that the end registered in the cell comes first.
pub open spec fn as_suffix(role: StartOrEnd, pl: Seq<V2>) -> Seq<V2> {
    match role {
        StartOrEnd::End => pl.reverse(),
        StartOrEnd::Start => pl,
    }
}

/// The state of the reconstruction as contracts see it: the table of
/// polylines with its tombstones, and for every cell the ends registered in
/// it.
pub struct ChainState {
    pub entries: Seq<Option<Seq<V2>>>,
    pub nodes: Map<u128, Seq<Option<(StartOrEnd, usize)>>>,
}

/// The ends registered in a cell; none where the cell is unknown.
pub open spec fn bin_at(nodes: Map<u128, Seq<Option<(StartOrEnd, usize)>>>, k: u128) -> Seq<
    Option<(StartOrEnd, usize)>,
> {
    if nodes.contains_key(k) {
        nodes[k]
    } else {
        Seq::empty()
    }
}

/// The registration refers to a live polyline whose registered end is at
/// `at`, within the tolerance.
pub open spec fn touches(
    entries: Seq<Option<Seq<V2>>>,
    e: Option<(StartOrEnd, usize)>,
    at: V2,
) -> bool {
    match e {
        Some((role, idx)) => idx < entries.len() && entries[idx as int] is Some && joins(
            as_prefix(role, entries[idx as int].unwrap()).last(),
            at,
        ),
        None => false,
    }
}

/// The first registration of the cell, from position `i` on, that touches
/// `at`.
pub open spec fn find_touching(
    entries: Seq<Option<Seq<V2>>>,
    bin: Seq<Option<(StartOrEnd, usize)>>,
    at: V2,
    i: int,
) -> Option<int>
    decreases bin.len() - i,
{
    if i < 0 || i >= bin.len() {
        None
    } else if touches(entries, bin[i], at) {
        Some(i)
    } else {
        find_touching(entries, bin, at, i + 1)
    }
}

/// The state with the polyline behind registration `i` of cell `k` removed:
/// a tombstone takes its place in the table and in the cell.
pub open spec fn tombstoned(s: ChainState, k: u128, i: int) -> ChainState {
    ChainState {
        entries: s.entries.update(s.nodes[k][i].unwrap().1 as int, None),
        nodes: s.nodes.insert(k, s.nodes[k].update(i, None)),
    }
}

/// The chain `pl` with a stored polyline that ends at its first point spliced
/// in front, and the state without that polyline; both unchanged where no
/// stored polyline ends there.
pub open spec fn splice_prefix(s: ChainState, pl: Seq<V2>) -> (ChainState, Seq<V2>) {
    let k = cell_key(pl.first()) as u128;
    match find_touching(s.entries, bin_at(s.nodes, k), pl.first(), 0) {
        Some(i) => {
            let (role, idx) = s.nodes[k][i].unwrap();
            (
                tombstoned(s, k, i),
                as_prefix(role, s.entries[idx as int].unwrap()) + pl.drop_first(),
            )
        },
        None => (s, pl),
    }
}

/// The chain `pl` with a stored polyline that starts at its last point
/// spliced behind, and the state without that polyline; both unchanged where
/// no stored polyline starts there.
pub open spec fn splice_suffix(s: ChainState, pl: Seq<V2>) -> (ChainState, Seq<V2>) {
    let k = cell_key(pl.last()) as u128;
    match find_touching(s.entries, bin_at(s.nodes, k), pl.last(), 0) {
        Some(i) => {
            let (role, idx) = s.nodes[k][i].unwrap();
            (
                tombstoned(s, k, i),
                pl + as_suffix(role, s.entries[idx as int].unwrap()).drop_first(),
            )
        },
        None => (s, pl),
    }
}

/// The cells with one more registration in cell `k`.
pub open spec fn registered(
    nodes: Map<u128, Seq<Option<(StartOrEnd, usize)>>>,
    k: u128,
    e: (StartOrEnd, usize),
) -> Map<u128, Seq<Option<(StartOrEnd, usize)>>> {
    nodes.insert(k, bin_at(nodes, k).push(Some(e)))
}

/// The state with `pl` stored as a new polyline and both its ends
/// registered.
pub open spec fn stored(s: ChainState, pl: Seq<V2>) -> ChainState {
    let idx = s.entries.len() as usize;
    ChainState {
        entries: s.entries.push(Some(pl)),
        nodes: registered(
            registered(s.nodes, cell_key(pl.first()) as u128, (StartOrEnd::Start, idx)),
            cell_key(pl.last()) as u128,
            (StartOrEnd::End, idx),
        ),
    }
}

/// The state after one more segment: the segment is spliced behind a stored
/// polyline that ends at its start, the result is spliced in front of a
/// stored polyline that starts at its end, and what comes of it is stored.
pub open spec fn chain_step(s: ChainState, a: V2, b: V2) -> ChainState {
    let (s1, pl1) = splice_prefix(s, seq![a, b]);
    let (s2, pl2) = splice_suffix(s1, pl1);
    stored(s2, pl2)
}

/// The polylines that are left, from position `i` on, without the tombstones.
pub open spec fn survivors_from(entries: Seq<Option<Seq<V2>>>, i: int) -> Seq<Seq<V2>>
    decreases entries.len() - i,
{
    if i < 0 || i >= entries.len() {
        Seq::empty()
    } else {
        match entries[i] {
            Some(pl) => seq![pl] + survivors_from(entries, i + 1),
            None => survivors_from(entries, i + 1),
        }
    }
}

/// The number of segments in the polylines that are left, from position `i`
/// on.
pub open spec fn links_from(entries: Seq<Option<Seq<V2>>>, i: int) -> int
    decreases entries.len() - i,
{
    if i < 0 || i >= entries.len() {
        0
    } else {
        match entries[i] {
            Some(pl) => pl.len() - 1 + links_from(entries, i + 1),
            None => links_from(entries, i + 1),
        }
    }
}

/// Every polyline that is left has at least two points, all within the
/// coordinate range, and every registration refers to a position of the
/// table.
pub open spec fn chain_wf(s: ChainState) -> bool {
    &&& forall|i: int|
        0 <= i < s.entries.len() ==> ((#[trigger] s.entries[i]) matches Some(pl) ==> pl.len() >= 2
            && forall|j: int| 0 <= j < pl.len() ==> (#[trigger] pl[j]).within(
            crate::nbase::point::COORD_MAX as int,
        ))
    &&& forall|k: u128, i: int|
        s.nodes.contains_key(k) && 0 <= i < s.nodes[k].len() ==> ((#[trigger] s.nodes[k][i])
            matches Some(e) ==> e.1 < s.entries.len())
}

/// The cell of a coordinate.
fn cell_of(c: i64) -> (r: u128)
    requires
        c <= 0x1000_0000,
    ensures
        r == cell(c as int),
        r <= 0x1000_0000,
{
    if c < 0 {
        0
    } else {
        (c / CELL) as u128
    }
}

/// The cell of a point, as one number.
pub fn cell_key_of(p: &Point<2>) -> (k: u128)
    requires
        p.wf(),
    ensures
        k == cell_key(p@),
{
    cell_of(p.vs[0]) * 0x1_0000_0000_0000_0000 + cell_of(p.vs[1])
}

/// Whether the two points are the same point, within the tolerance.
pub fn close(a: &Point<2>, b: &Point<2>) -> (r: bool)
    requires
        a.wf(),
        b.wf(),
    ensures
        r == joins(a@, b@),
{
    let dx: i128 = a.vs[0] as i128 - b.vs[0] as i128;
    let dy: i128 = a.vs[1] as i128 - b.vs[1] as i128;
    proof {
        lemma_mul_bound(dx as int, dx as int, 0x2000_0000, 0x2000_0000);
        lemma_mul_bound(dy as int, dy as int, 0x2000_0000, 0x2000_0000);
    }
    dx * dx + dy * dy <= JOIN_TOLERANCE_SQ as i128
}

/// Joins `pl2` onto the end of `pl1` where it starts at that end, within the
/// tolerance.
pub fn merge_pl(pl1: &PolyLine<2>, pl2: &PolyLine<2>) -> (r: Option<PolyLine<2>>)
    requires
        pl1.ps@.len() > 0,
        pl2.ps@.len() > 0,
        pl1.wf(),
        pl2.wf(),
    ensures
        match r {
            Some(m) => merge_pl_spec(pl1@, pl2@) == Some(m@) && m.wf() && m.ps@ == pl1.ps@
                + pl2.ps@.drop_first(),
            None => merge_pl_spec(pl1@, pl2@) is None,
        },
{
    let n1 = pl1.ps.len();
    if !close(&pl1.ps[n1 - 1], &pl2.ps[0]) {
        return None;
    }
    let mut ps: Vec<Point<2>> = Vec::new();
    let mut i: usize = 0;
    while i < n1
        invariant
            i <= n1,
            n1 == pl1.ps@.len(),
            ps@ == pl1.ps@.subrange(0, i as int),
        decreases n1 - i,
    {
        ps.push(pl1.ps[i]);
        assert(ps@ =~= pl1.ps@.subrange(0, i + 1));
        i += 1;
    }
    assert(ps@ =~= pl1.ps@);
    let n2 = pl2.ps.len();
    let mut j: usize = 1;
    while j < n2
        invariant
            1 <= j <= n2,
            n2 == pl2.ps@.len(),
            ps@ == pl1.ps@ + pl2.ps@.subrange(1, j as int),
        decreases n2 - j,
    {
        ps.push(pl2.ps[j]);
        assert(ps@ =~= pl1.ps@ + pl2.ps@.subrange(1, j + 1));
        j += 1;
    }
    assert(pl2.ps@.subrange(1, n2 as int) =~= pl2.ps@.drop_first());
    let m = PolyLine { ps };
    assert(m@ =~= pl1@ + pl2@.drop_first());
    Some(m)
}


/// The third stage: splices segments that share end points into polylines.
pub struct BinningPolyLineMerger<const N: usize> {
    pub entries: Vec<Option<PolyLine<N>>>,
    pub nodes: HashMap<u128, Vec<Option<(StartOrEnd, usize)>>>,
}

/// The table of polylines as contracts see it.
pub open spec fn entries_view(entries: Seq<Option<PolyLine<2>>>) -> Seq<Option<Seq<V2>>> {
    Seq::new(
        entries.len(),
        |i: int|
            match entries[i] {
                Some(pl) => Some(pl@),
                None => None,
            },
    )
}

/// The cells as contracts see them.
pub open spec fn nodes_view(nodes: Map<u128, Vec<Option<(StartOrEnd, usize)>>>) -> Map<
    u128,
    Seq<Option<(StartOrEnd, usize)>>,
> {
    Map::new(|k: u128| nodes.contains_key(k), |k: u128| nodes[k]@)
}

/// The first point of a reversed chain is the last point of the chain, and
/// the other way round.
pub proof fn lemma_reverse_ends(pl: Seq<V2>)
    requires
        pl.len() > 0,
    ensures
        pl.reverse().last() == pl.first(),
        pl.reverse().first() == pl.last(),
        pl.reverse().len() == pl.len(),
{
}

/// What is found touches, and lies within the cell.
pub proof fn lemma_found_touches(
    entries: Seq<Option<Seq<V2>>>,
    bin: Seq<Option<(StartOrEnd, usize)>>,
    at: V2,
    from: int,
    i: int,
)
    requires
        find_touching(entries, bin, at, from) == Some(i),
    ensures
        from <= i < bin.len(),
        touches(entries, bin[i], at),
    decreases bin.len() - from,
{
    if from < 0 || from >= bin.len() {
    } else if touches(entries, bin[from], at) {
    } else {
        lemma_found_touches(entries, bin, at, from + 1, i);
    }
}

/// Being the same point within the tolerance does not depend on the order of
/// the two points.
pub proof fn lemma_joins_symmetric(a: V2, b: V2)
    ensures
        joins(a, b) == joins(b, a),
{
    assert((a.x - b.x) * (a.x - b.x) == (b.x - a.x) * (b.x - a.x)) by (nonlinear_arith);
    assert((a.y - b.y) * (a.y - b.y) == (b.y - a.y) * (b.y - a.y)) by (nonlinear_arith);
}

/// A reversed chain of well-formed points is a chain of well-formed points.
pub proof fn lemma_reverse_wf(pl: PolyLine<2>, rev: PolyLine<2>)
    requires
        pl.wf(),
        rev.ps@ == pl.ps@.reverse(),
    ensures
        rev.wf(),
{
    assert forall|i: int| 0 <= i < rev.ps@.len() implies (#[trigger] rev.ps@[i]).wf() by {
        assert(rev.ps@[i] == pl.ps@[pl.ps@.len() - 1 - i]);
    }
}

impl BinningPolyLineMerger<2> {
    /// The state as contracts see it.
    pub open spec fn state(self) -> ChainState {
        ChainState { entries: entries_view(self.entries@), nodes: nodes_view(self.nodes@) }
    }

    /// The state is well-formed.
    pub open spec fn wf(self) -> bool {
        chain_wf(self.state())
    }

    /// A merger that holds nothing.
    pub fn new() -> (r: BinningPolyLineMerger<2>)
        ensures
            r.wf(),
            r.state().entries == Seq::<Option<Seq<V2>>>::empty(),
            r.state().nodes == Map::<u128, Seq<Option<(StartOrEnd, usize)>>>::empty(),
    {
        let r = BinningPolyLineMerger { entries: Vec::new(), nodes: HashMap::new() };
        assert(r.state().entries =~= Seq::<Option<Seq<V2>>>::empty());
        assert(r.state().nodes =~= Map::<u128, Seq<Option<(StartOrEnd, usize)>>>::empty());
        r
    }

    /// The position in cell `k` of the first registration whose polyline has
    /// its registered end at `at`.
    fn find(&self, k: u128, at: &Point<2>) -> (r: Option<usize>)
        requires
            self.wf(),
            at.wf(),
        ensures
            match r {
                Some(i) => find_touching(
                    self.state().entries,
                    bin_at(self.state().nodes, k),
                    at@,
                    0,
                ) == Some(i as int) && self.state().nodes.contains_key(k) && i
                    < self.state().nodes[k].len(),
                None => find_touching(self.state().entries, bin_at(self.state().nodes, k), at@, 0)
                    is None,
            },
    {
        let ghost st = self.state();
        match self.nodes.get(&k) {
            None => None,
            Some(bin) => {
                assert(bin@ == bin_at(st.nodes, k));
                let mut i: usize = 0;
                while i < bin.len()
                    invariant
                        i <= bin.len(),
                        self.wf(),
                        at.wf(),
                        st == self.state(),
                        st.nodes.contains_key(k),
                        bin@ == st.nodes[k],
                        find_touching(st.entries, bin@, at@, 0) == find_touching(
                            st.entries,
                            bin@,
                            at@,
                            i as int,
                        ),
                    decreases bin.len() - i,
                {
                    let mut hit = false;
                    match bin[i] {
                        Some((role, idx)) => {
                            assert(st.nodes[k][i as int] == Some((role, idx)));
                            assert(idx < st.entries.len());
                            match &self.entries[idx] {
                                Some(pl) => {
                                    assert(st.entries[idx as int] == Some(pl@));
                                    assert(pl@.len() >= 2);
                                    assert(pl.ps@[0]@ == pl@[0]);
                                    assert(pl.ps@[pl.ps@.len() - 1]@ == pl@.last());
                                    assert(pl@[0].within(crate::nbase::point::COORD_MAX as int));
                                    assert(pl@[pl@.len() - 1].within(
                                        crate::nbase::point::COORD_MAX as int,
                                    ));
                                    proof {
                                        lemma_reverse_ends(pl@);
                                    }
                                    let end = match role {
                                        StartOrEnd::Start => &pl.ps[0],
                                        StartOrEnd::End => &pl.ps[pl.ps.len() - 1],
                                    };
                                    hit = close(end, at);
                                },
                                None => {},
                            }
                        },
                        None => {},
                    }
                    assert(hit == touches(st.entries, bin@[i as int], at@));
                    if hit {
                        return Some(i);
                    }
                    i += 1;
                }
                None
            },
        }
    }

    /// Takes the polyline behind registration `i` of cell `k` out of the
    /// state, leaving tombstones.
    fn take(&mut self, k: u128, i: usize) -> (r: (StartOrEnd, PolyLine<2>))
        requires
            old(self).wf(),
            old(self).state().nodes.contains_key(k),
            i < old(self).state().nodes[k].len(),
            old(self).state().nodes[k][i as int] is Some,
            old(self).state().entries[old(self).state().nodes[k][i as int].unwrap().1 as int]
                is Some,
        ensures
            final(self).wf(),
            final(self).state() == tombstoned(old(self).state(), k, i as int),
            r.0 == old(self).state().nodes[k][i as int].unwrap().0,
            Some(r.1@) == old(self).state().entries[old(
                self,
            ).state().nodes[k][i as int].unwrap().1 as int],
            r.1.wf(),
            r.1.ps@.len() >= 2,
    {
        let ghost st = self.state();
        let ghost old_nodes = self.nodes@;
        let mut bin = self.nodes.remove(&k).unwrap();
        assert(bin@ == st.nodes[k]);
        let (role, idx) = bin[i].unwrap();
        assert(idx < st.entries.len());
        bin[i] = None;
        self.nodes.insert(k, bin);
        let mut taken: Option<PolyLine<2>> = None;
        std::mem::swap(&mut self.entries[idx], &mut taken);
        let pl = taken.unwrap();
        proof {
            assert(st.entries[idx as int] == Some(pl@));
            assert(self.state().entries =~= st.entries.update(idx as int, None));
            assert(self.state().nodes =~= st.nodes.insert(k, st.nodes[k].update(i as int, None)));
            let now = self.state();
            assert forall|q: u128, j: int|
                now.nodes.contains_key(q) && 0 <= j < now.nodes[q].len() implies ((
            #[trigger] now.nodes[q][j]) matches Some(e) ==> e.1 < now.entries.len()) by {
                if q == k {
                    if j != i {
                        assert(now.nodes[q][j] == st.nodes[k][j]);
                    }
                } else {
                    assert(st.nodes.contains_key(q));
                    assert(now.nodes[q][j] == st.nodes[q][j]);
                }
            }
            assert forall|j: int| 0 <= j < pl.ps@.len() implies (#[trigger] pl.ps@[j]).wf() by {
                assert(pl@[j] == pl.ps@[j]@);
            }
        }
        (role, pl)
    }

    /// Registers one end of the polyline at position `idx` in cell `k`.
    fn register(&mut self, k: u128, role: StartOrEnd, idx: usize)
        requires
            old(self).wf(),
            idx < old(self).entries@.len(),
        ensures
            final(self).wf(),
            final(self).entries == old(self).entries,
            final(self).state().nodes == registered(old(self).state().nodes, k, (role, idx)),
    {
        let ghost st = self.state();
        let mut bin = match self.nodes.remove(&k) {
            Some(b) => b,
            None => Vec::new(),
        };
        assert(bin@ == bin_at(st.nodes, k));
        bin.push(Some((role, idx)));
        self.nodes.insert(k, bin);
        proof {
            assert(self.state().nodes =~= registered(st.nodes, k, (role, idx)));
            let now = self.state();
            assert forall|q: u128, j: int|
                now.nodes.contains_key(q) && 0 <= j < now.nodes[q].len() implies ((
            #[trigger] now.nodes[q][j]) matches Some(e) ==> e.1 < now.entries.len()) by {
                if q == k {
                    if j < bin_at(st.nodes, k).len() {
                        assert(st.nodes.contains_key(k));
                        assert(now.nodes[q][j] == st.nodes[k][j]);
                    }
                } else {
                    assert(st.nodes.contains_key(q));
                    assert(now.nodes[q][j] == st.nodes[q][j]);
                }
            }
        }
    }

    /// Stores a polyline and registers both its ends.
    fn store(&mut self, pl: PolyLine<2>)
        requires
            old(self).wf(),
            pl.wf(),
            pl.ps@.len() >= 2,
        ensures
            final(self).wf(),
            final(self).state() == stored(old(self).state(), pl@),
    {
        let ghost st = self.state();
        let ghost plv = pl@;
        let idx = self.entries.len();
        let start_idx = cell_key_of(&pl.ps[0]);
        let end_idx = cell_key_of(&pl.ps[pl.ps.len() - 1]);
        assert(pl.ps@[0]@ == plv.first());
        assert(pl.ps@[pl.ps@.len() - 1]@ == plv.last());
        proof {
            assert forall|j: int| 0 <= j < plv.len() implies (#[trigger] plv[j]).within(
                crate::nbase::point::COORD_MAX as int,
            ) by {
                assert(pl.ps@[j].wf());
            }
        }
        self.entries.push(Some(pl));
        proof {
            assert(self.state().entries =~= st.entries.push(Some(plv)));
            assert(self.state().nodes =~= st.nodes);
        }
        self.register(start_idx, StartOrEnd::Start, idx);
        self.register(end_idx, StartOrEnd::End, idx);
        proof {
            assert(self.state().entries =~= st.entries.push(Some(plv)));
        }
    }

    /// Takes the next segment and splices it into what is stored.
    pub fn push(&mut self, ls: LineSegment<2>)
        requires
            old(self).wf(),
            ls.wf(),
        ensures
            final(self).wf(),
            final(self).state() == chain_step(old(self).state(), ls@.a, ls@.b),
    {
        let ghost st = self.state();
        let mut ps: Vec<Point<2>> = Vec::new();
        ps.push(ls.ps[0]);
        ps.push(ls.ps[1]);
        let mut pl = PolyLine { ps };
        assert(pl@ =~= seq![ls@.a, ls@.b]);
        let ghost pl0 = pl@;

        let start_idx = cell_key_of(&pl.ps[0]);
        if let Some(i) = self.find(start_idx, &pl.ps[0]) {
            proof {
                lemma_found_touches(st.entries, bin_at(st.nodes, start_idx), pl0.first(), 0, i as int);
            }
            let (role, stored) = self.take(start_idx, i);
            let prefix = match role {
                StartOrEnd::Start => stored.reverse(),
                StartOrEnd::End => stored,
            };
            proof {
                if role is Start {
                    lemma_reverse_wf(stored, prefix);
                }
                assert(prefix@ == as_prefix(role, stored@));
            }
            pl = merge_pl(&prefix, &pl).unwrap();
        }
        let ghost st1 = self.state();
        let ghost pl1 = pl@;
        assert((st1, pl1) == splice_prefix(st, pl0));

        assert(pl.ps@.len() >= 2);
        let last = pl.ps[pl.ps.len() - 1];
        assert(last@ == pl1.last());
        let end_idx = cell_key_of(&last);
        if let Some(i) = self.find(end_idx, &last) {
            proof {
                lemma_found_touches(st1.entries, bin_at(st1.nodes, end_idx), pl1.last(), 0, i as int);
            }
            let (role, stored) = self.take(end_idx, i);
            let suffix = match role {
                StartOrEnd::End => stored.reverse(),
                StartOrEnd::Start => stored,
            };
            proof {
                lemma_reverse_ends(stored@);
                if role is End {
                    lemma_reverse_wf(stored, suffix);
                }
                assert(suffix@ == as_suffix(role, stored@));
                assert(as_suffix(role, stored@).first() == as_prefix(role, stored@).last());
                lemma_joins_symmetric(suffix@.first(), pl1.last());
            }
            pl = merge_pl(&pl, &suffix).unwrap();
        }
        assert((self.state(), pl@) == splice_suffix(st1, pl1));
        self.store(pl);
    }
}


/// The state after the segments of `input` from position `i` on.
pub open spec fn chain_run(s: ChainState, input: Seq<LineSegment<2>>, i: int) -> ChainState
    decreases input.len() - i,
{
    if i < 0 || i >= input.len() {
        s
    } else {
        chain_run(chain_step(s, input[i]@.a, input[i]@.b), input, i + 1)
    }
}

/// The state in which nothing is stored.
pub open spec fn empty_chain_state() -> ChainState {
    ChainState { entries: Seq::empty(), nodes: Map::empty() }
}

/// The polylines that the third stage makes of a whole input.
pub open spec fn stage_c(input: Seq<LineSegment<2>>) -> Seq<Seq<V2>> {
    survivors_from(chain_run(empty_chain_state(), input, 0).entries, 0)
}

/// The views of the polylines of a vector.
pub open spec fn polylines_view(v: Seq<PolyLine<2>>) -> Seq<Seq<V2>> {
    Seq::new(v.len(), |i: int| v[i]@)
}

impl BinningPolyLineMerger<2> {
    /// Hands out the polylines that are left, in the order in which they were
    /// stored.
    pub fn finish(self) -> (out: Vec<PolyLine<2>>)
        requires
            self.wf(),
        ensures
            polylines_view(out@) == survivors_from(self.state().entries, 0),
            forall|i: int| 0 <= i < out@.len() ==> (#[trigger] out@[i]).wf(),
    {
        let ghost st = self.state();
        let mut entries = self.entries;
        let mut out: Vec<PolyLine<2>> = Vec::new();
        let n = entries.len();
        let mut i: usize = 0;
        while i < n
            invariant
                i <= n,
                n == entries@.len(),
                n == st.entries.len(),
                chain_wf(st),
                forall|j: int| i <= j < n ==> entries_view(entries@)[j] == st.entries[j],
                polylines_view(out@) + survivors_from(st.entries, i as int) == survivors_from(
                    st.entries,
                    0,
                ),
                forall|j: int| 0 <= j < out@.len() ==> (#[trigger] out@[j]).wf(),
            decreases n - i,
        {
            let ghost before = polylines_view(out@);
            let ghost tail = survivors_from(st.entries, i as int);
            let ghost ev = entries@;
            assert(entries_view(ev)[i as int] == st.entries[i as int]);
            let mut taken: Option<PolyLine<2>> = None;
            std::mem::swap(&mut entries[i], &mut taken);
            assert forall|j: int| i + 1 <= j < n implies entries_view(entries@)[j]
                == st.entries[j] by {
                assert(entries@[j] == ev[j]);
                assert(entries_view(ev)[j] == st.entries[j]);
            }
            if let Some(pl) = taken {
                proof {
                    assert(st.entries[i as int] == Some(pl@));
                    assert forall|j: int| 0 <= j < pl.ps@.len() implies (#[trigger] pl.ps@[j]).wf() by {
                        assert(pl@[j] == pl.ps@[j]@);
                    }
                }
                out.push(pl);
                assert(polylines_view(out@) =~= before.push(pl@));
                assert(polylines_view(out@) + survivors_from(st.entries, i + 1) =~= before + tail);
            } else {
                assert(st.entries[i as int] is None);
            }
            i += 1;
        }
        assert(polylines_view(out@) + Seq::<Seq<V2>>::empty() =~= polylines_view(out@));
        out
    }

    /// Runs the stage over a whole input.
    pub fn run(self, input: &Vec<LineSegment<2>>) -> (out: Vec<PolyLine<2>>)
        requires
            self.wf(),
            forall|i: int| 0 <= i < input@.len() ==> (#[trigger] input@[i]).wf(),
        ensures
            polylines_view(out@) == survivors_from(chain_run(self.state(), input@, 0).entries, 0),
            forall|i: int| 0 <= i < out@.len() ==> (#[trigger] out@[i]).wf(),
    {
        let mut merger = self;
        let mut i: usize = 0;
        while i < input.len()
            invariant
                i <= input.len(),
                merger.wf(),
                forall|j: int| 0 <= j < input@.len() ==> (#[trigger] input@[j]).wf(),
                chain_run(merger.state(), input@, i as int) == chain_run(self.state(), input@, 0),
            decreases input.len() - i,
        {
            merger.push(input[i]);
            i += 1;
        }
        merger.finish()
    }
}

/// The count of segments from position `i` on, after the polyline at
/// position `idx` has given way to a tombstone.
pub proof fn lemma_links_tombstone(entries: Seq<Option<Seq<V2>>>, idx: int, i: int)
    requires
        0 <= i,
        0 <= idx < entries.len(),
        entries[idx] is Some,
    ensures
        links_from(entries.update(idx, None), i) == links_from(entries, i) - if i <= idx {
            entries[idx].unwrap().len() - 1
        } else {
            0
        },
    decreases entries.len() - i,
{
    if i < entries.len() {
        lemma_links_tombstone(entries, idx, i + 1);
    }
}

/// The count of segments from position `i` on, after one more polyline has
/// been stored.
pub proof fn lemma_links_push(entries: Seq<Option<Seq<V2>>>, pl: Seq<V2>, i: int)
    requires
        0 <= i <= entries.len(),
    ensures
        links_from(entries.push(Some(pl)), i) == links_from(entries, i) + pl.len() - 1,
    decreases entries.len() - i,
{
    if i < entries.len() {
        lemma_links_push(entries, pl, i + 1);
    } else {
        assert(links_from(entries.push(Some(pl)), i + 1) == 0);
    }
}

/// A tombstone keeps the state well-formed.
pub proof fn lemma_tombstoned_wf(s: ChainState, k: u128, i: int)
    requires
        chain_wf(s),
        s.nodes.contains_key(k),
        0 <= i < s.nodes[k].len(),
        s.nodes[k][i] is Some,
    ensures
        chain_wf(tombstoned(s, k, i)),
{
    let t = tombstoned(s, k, i);
    assert forall|q: u128, j: int|
        t.nodes.contains_key(q) && 0 <= j < t.nodes[q].len() implies ((
    #[trigger] t.nodes[q][j]) matches Some(e) ==> e.1 < t.entries.len()) by {
        if q == k {
            if j != i {
                assert(t.nodes[q][j] == s.nodes[k][j]);
            }
        } else {
            assert(t.nodes[q][j] == s.nodes[q][j]);
        }
    }
}

/// Nothing is lost and nothing is made up: every segment that comes in
/// becomes one segment of one of the polylines that are left.
pub proof fn lemma_chain_step_links(s: ChainState, a: V2, b: V2)
    requires
        chain_wf(s),
    ensures
        links_from(chain_step(s, a, b).entries, 0) == links_from(s.entries, 0) + 1,
{
    let pl0 = seq![a, b];
    let (s1, pl1) = splice_prefix(s, pl0);
    let k0 = cell_key(pl0.first()) as u128;
    assert(chain_wf(s1) && links_from(s1.entries, 0) + pl1.len() == links_from(s.entries, 0) + 2
        && pl1.len() >= 2) by {
        match find_touching(s.entries, bin_at(s.nodes, k0), pl0.first(), 0) {
            Some(i) => {
                lemma_found_touches(s.entries, bin_at(s.nodes, k0), pl0.first(), 0, i);
                let (role, idx) = s.nodes[k0][i].unwrap();
                lemma_tombstoned_wf(s, k0, i);
                lemma_links_tombstone(s.entries, idx as int, 0);
            },
            None => {},
        }
    }
    let (s2, pl2) = splice_suffix(s1, pl1);
    let k1 = cell_key(pl1.last()) as u128;
    assert(links_from(s2.entries, 0) + pl2.len() == links_from(s1.entries, 0) + pl1.len()) by {
        match find_touching(s1.entries, bin_at(s1.nodes, k1), pl1.last(), 0) {
            Some(i) => {
                lemma_found_touches(s1.entries, bin_at(s1.nodes, k1), pl1.last(), 0, i);
                let (role, idx) = s1.nodes[k1][i].unwrap();
                lemma_links_tombstone(s1.entries, idx as int, 0);
            },
            None => {},
        }
    }
    lemma_links_push(s2.entries, pl2, 0);
}


/// The end `e` of a polyline is registered in cell `k`.
pub open spec fn is_registered(
    nodes: Map<u128, Seq<Option<(StartOrEnd, usize)>>>,
    k: u128,
    e: (StartOrEnd, usize),
) -> bool {
    nodes.contains_key(k) && exists|i: int|
        0 <= i < nodes[k].len() && #[trigger] nodes[k][i] == Some(e)
}

/// Both ends of the polyline at position `idx` are registered in the cells
/// that they fall in.
pub open spec fn ends_registered_at(s: ChainState, idx: int) -> bool {
    s.entries[idx] matches Some(pl) ==> is_registered(
        s.nodes,
        cell_key(pl.first()) as u128,
        (StartOrEnd::Start, idx as usize),
    ) && is_registered(s.nodes, cell_key(pl.last()) as u128, (StartOrEnd::End, idx as usize))
}

/// Every polyline that is left can be found through either of its ends.
pub open spec fn ends_registered(s: ChainState) -> bool {
    forall|idx: int| 0 <= idx < s.entries.len() ==> #[trigger] ends_registered_at(s, idx)
}

/// One more registration leaves what was registered registered, and
/// registers what it registers.
pub proof fn lemma_registered_more(
    nodes: Map<u128, Seq<Option<(StartOrEnd, usize)>>>,
    k: u128,
    e: (StartOrEnd, usize),
    q: u128,
    x: (StartOrEnd, usize),
)
    ensures
        is_registered(registered(nodes, k, e), k, e),
        is_registered(nodes, q, x) ==> is_registered(registered(nodes, k, e), q, x),
{
    let after = registered(nodes, k, e);
    let old_bin = bin_at(nodes, k);
    assert(after[k][old_bin.len() as int] == Some(e));
    if is_registered(nodes, q, x) {
        let i = choose|i: int| 0 <= i < nodes[q].len() && #[trigger] nodes[q][i] == Some(x);
        if q == k {
            assert(after[q][i] == Some(x));
        } else {
            assert(after[q][i] == Some(x));
        }
    }
}

/// A tombstone in place of one registration leaves every other registration
/// in place.
pub proof fn lemma_registered_after_tombstone(
    s: ChainState,
    k: u128,
    i: int,
    q: u128,
    x: (StartOrEnd, usize),
)
    requires
        s.nodes.contains_key(k),
        0 <= i < s.nodes[k].len(),
        s.nodes[k][i] is Some,
        s.nodes[k][i].unwrap().1 != x.1,
        is_registered(s.nodes, q, x),
    ensures
        is_registered(tombstoned(s, k, i).nodes, q, x),
{
    let after = tombstoned(s, k, i).nodes;
    let j = choose|j: int| 0 <= j < s.nodes[q].len() && #[trigger] s.nodes[q][j] == Some(x);
    if q == k {
        assert(j != i);
        assert(after[q][j] == Some(x));
    } else {
        assert(after[q][j] == Some(x));
    }
}

/// A tombstone keeps every polyline that is left findable.
pub proof fn lemma_tombstoned_registered(s: ChainState, k: u128, i: int)
    requires
        chain_wf(s),
        ends_registered(s),
        s.entries.len() <= usize::MAX,
        s.nodes.contains_key(k),
        0 <= i < s.nodes[k].len(),
        s.nodes[k][i] is Some,
    ensures
        ends_registered(tombstoned(s, k, i)),
{
    let t = tombstoned(s, k, i);
    let gone = s.nodes[k][i].unwrap().1;
    assert forall|idx: int| 0 <= idx < t.entries.len() implies #[trigger] ends_registered_at(
        t,
        idx,
    ) by {
        if idx != gone {
            assert(ends_registered_at(s, idx));
            match s.entries[idx] {
                Some(pl) => {
                    lemma_registered_after_tombstone(
                        s,
                        k,
                        i,
                        cell_key(pl.first()) as u128,
                        (StartOrEnd::Start, idx as usize),
                    );
                    lemma_registered_after_tombstone(
                        s,
                        k,
                        i,
                        cell_key(pl.last()) as u128,
                        (StartOrEnd::End, idx as usize),
                    );
                },
                None => {},
            }
        }
    }
}

/// A newly stored polyline is findable, and so is every polyline that was.
pub proof fn lemma_stored_registered(s: ChainState, pl: Seq<V2>)
    requires
        ends_registered(s),
    ensures
        ends_registered(stored(s, pl)),
{
    let t = stored(s, pl);
    let n = s.entries.len() as int;
    let first = cell_key(pl.first()) as u128;
    let last = cell_key(pl.last()) as u128;
    let mid = registered(s.nodes, first, (StartOrEnd::Start, n as usize));
    assert forall|idx: int| 0 <= idx < t.entries.len() implies #[trigger] ends_registered_at(
        t,
        idx,
    ) by {
        if idx < n {
            assert(ends_registered_at(s, idx));
            match s.entries[idx] {
                Some(old) => {
                    let a = cell_key(old.first()) as u128;
                    let b = cell_key(old.last()) as u128;
                    lemma_registered_more(
                        s.nodes,
                        first,
                        (StartOrEnd::Start, n as usize),
                        a,
                        (StartOrEnd::Start, idx as usize),
                    );
                    lemma_registered_more(
                        s.nodes,
                        first,
                        (StartOrEnd::Start, n as usize),
                        b,
                        (StartOrEnd::End, idx as usize),
                    );
                    lemma_registered_more(
                        mid,
                        last,
                        (StartOrEnd::End, n as usize),
                        a,
                        (StartOrEnd::Start, idx as usize),
                    );
                    lemma_registered_more(
                        mid,
                        last,
                        (StartOrEnd::End, n as usize),
                        b,
                        (StartOrEnd::End, idx as usize),
                    );
                },
                None => {},
            }
        } else {
            lemma_registered_more(
                s.nodes,
                first,
                (StartOrEnd::Start, n as usize),
                first,
                (StartOrEnd::Start, n as usize),
            );
            lemma_registered_more(
                mid,
                last,
                (StartOrEnd::End, n as usize),
                first,
                (StartOrEnd::Start, n as usize),
            );
            lemma_registered_more(
                mid,
                last,
                (StartOrEnd::End, n as usize),
                last,
                (StartOrEnd::End, n as usize),
            );
        }
    }
}

/// Whatever arrives, every polyline that is left stays findable through
/// either of its ends, so that a later segment that touches an end is
/// spliced to it.
pub proof fn lemma_chain_step_registered(s: ChainState, a: V2, b: V2)
    requires
        chain_wf(s),
        ends_registered(s),
        s.entries.len() <= usize::MAX,
    ensures
        ends_registered(chain_step(s, a, b)),
{
    let pl0 = seq![a, b];
    let (s1, pl1) = splice_prefix(s, pl0);
    let k0 = cell_key(pl0.first()) as u128;
    assert(chain_wf(s1) && ends_registered(s1) && s1.entries.len() == s.entries.len()) by {
        match find_touching(s.entries, bin_at(s.nodes, k0), pl0.first(), 0) {
            Some(i) => {
                lemma_found_touches(s.entries, bin_at(s.nodes, k0), pl0.first(), 0, i);
                lemma_tombstoned_wf(s, k0, i);
                lemma_tombstoned_registered(s, k0, i);
            },
            None => {},
        }
    }
    let (s2, pl2) = splice_suffix(s1, pl1);
    let k1 = cell_key(pl1.last()) as u128;
    assert(ends_registered(s2)) by {
        match find_touching(s1.entries, bin_at(s1.nodes, k1), pl1.last(), 0) {
            Some(i) => {
                lemma_found_touches(s1.entries, bin_at(s1.nodes, k1), pl1.last(), 0, i);
                lemma_tombstoned_registered(s1, k1, i);
            },
            None => {},
        }
    }
    lemma_stored_registered(s2, pl2);
}

} // verus!
