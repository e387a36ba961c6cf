//! Reconstruction of long segments: a segment is joined to a stored segment
//! that it continues, or that continues it, wherever in the stream the two
//! arrive.
//!
//! The stored segments are looked up by the cell of their end points, as the
//! polylines of the chain reconstruction are, and an absorbed segment leaves
//! tombstones as an absorbed polyline does.
use crate::nbase::line_merger::polyline_merger::{
    bin_at, cell_key, cell_key_of, nodes_view, registered, StartOrEnd,
};
use crate::nbase::line_merger::{merge, merged, segment_of};
use crate::nbase::line_segment::{lemma_segment2_ext, LineSegment};
use std::collections::HashMap;
use vstd::prelude::*;

verus! {

/// The state of the reconstruction as contracts see it: the table of
/// segments with its tombstones, and for every cell the ends registered in
/// it.
pub struct SegmentState {
    pub entries: Seq<Option<LineSegment<2>>>,
    pub nodes: Map<u128, Seq<Option<(StartOrEnd, usize)>>>,
}

/// A stored segment, turned so that the end registered in the cell comes
/// last.
pub open spec fn leading(role: StartOrEnd, s: LineSegment<2>) -> LineSegment<2> {
    match role {
        StartOrEnd::Start => segment_of(s@.reverse()),
        StartOrEnd::End => s,
    }
}

/// A stored segment, turned so that the end registered in the cell comes
/// first.
pub open spec fn trailing(role: StartOrEnd, s: LineSegment<2>) -> LineSegment<2> {
    match role {
        StartOrEnd::End => segment_of(s@.reverse()),
        StartOrEnd::Start => s,
    }
}

/// The join of the segment behind a registration with `ls`: with the stored
/// segment in front if `front`, behind otherwise. Nothing where the
/// registration is a tombstone or refers to one, or where the two do not
/// join.
pub open spec fn joined_with(
    entries: Seq<Option<LineSegment<2>>>,
    e: Option<(StartOrEnd, usize)>,
    ls: LineSegment<2>,
    front: bool,
) -> Option<LineSegment<2>> {
    match e {
        Some((role, idx)) => if idx < entries.len() && entries[idx as int] is Some {
            if front {
                merged(leading(role, entries[idx as int].unwrap()), ls)
            } else {
                merged(ls, trailing(role, entries[idx as int].unwrap()))
            }
        } else {
            None
        },
        None => None,
    }
}

/// The first registration of the cell, from position `i` on, whose segment
/// joins with `ls`.
pub open spec fn find_joining(
    entries: Seq<Option<LineSegment<2>>>,
    bin: Seq<Option<(StartOrEnd, usize)>>,
    ls: LineSegment<2>,
    front: bool,
    i: int,
) -> Option<int>
    decreases bin.len() - i,
{
    if i < 0 || i >= bin.len() {
        None
    } else if joined_with(entries, bin[i], ls, front) is Some {
        Some(i)
    } else {
        find_joining(entries, bin, ls, front, i + 1)
    }
}

/// The state with the segment behind registration `i` of cell `k` removed.
pub open spec fn without(s: SegmentState, k: u128, i: int) -> SegmentState {
    SegmentState {
        entries: s.entries.update(s.nodes[k][i].unwrap().1 as int, None),
        nodes: s.nodes.insert(k, s.nodes[k].update(i, None)),
    }
}

/// The segment `ls` joined with a stored segment found through the cell of
/// its start, if `front`, or of its end, and the state without that stored
/// segment; both unchanged where nothing joins.
pub open spec fn splice(s: SegmentState, ls: LineSegment<2>, front: bool) -> (
    SegmentState,
    LineSegment<2>,
) {
    let k = if front {
        cell_key(ls@.a) as u128
    } else {
        cell_key(ls@.b) as u128
    };
    match find_joining(s.entries, bin_at(s.nodes, k), ls, front, 0) {
        Some(i) => (without(s, k, i), joined_with(s.entries, s.nodes[k][i], ls, front).unwrap()),
        None => (s, ls),
    }
}

/// The state with `ls` stored as a new segment and both its ends registered.
pub open spec fn kept(s: SegmentState, ls: LineSegment<2>) -> SegmentState {
    let idx = s.entries.len() as usize;
    SegmentState {
        entries: s.entries.push(Some(ls)),
        nodes: registered(
            registered(s.nodes, cell_key(ls@.a) as u128, (StartOrEnd::Start, idx)),
            cell_key(ls@.b) as u128,
            (StartOrEnd::End, idx),
        ),
    }
}

/// The state after one more segment: the segment is joined behind a stored
/// segment that it continues, the result is joined in front of a stored
/// segment that continues it, and what comes of it is stored.
pub open spec fn segment_step(s: SegmentState, ls: LineSegment<2>) -> SegmentState {
    let (s1, l1) = splice(s, ls, true);
    let (s2, l2) = splice(s1, l1, false);
    kept(s2, l2)
}

/// The segments that are left, from position `i` on, without the tombstones.
pub open spec fn kept_from(entries: Seq<Option<LineSegment<2>>>, i: int) -> Seq<LineSegment<2>>
    decreases entries.len() - i,
{
    if i < 0 || i >= entries.len() {
        Seq::empty()
    } else {
        match entries[i] {
            Some(ls) => seq![ls] + kept_from(entries, i + 1),
            None => kept_from(entries, i + 1),
        }
    }
}

/// The state after the segments of `input` from position `i` on.
pub open spec fn segment_run(s: SegmentState, input: Seq<LineSegment<2>>, i: int) -> SegmentState
    decreases input.len() - i,
{
    if i < 0 || i >= input.len() {
        s
    } else {
        segment_run(segment_step(s, input[i]), input, i + 1)
    }
}

/// Every segment that is left is well-formed, and every registration refers
/// to a position of the table.
pub open spec fn segment_state_wf(s: SegmentState) -> bool {
    &&& forall|i: int|
        0 <= i < s.entries.len() ==> ((#[trigger] s.entries[i]) matches Some(ls) ==> ls.wf())
    &&& forall|k: u128, i: int|
        s.nodes.contains_key(k) && 0 <= i < s.nodes[k].len() ==> ((#[trigger] s.nodes[k][i])
            matches Some(e) ==> e.1 < s.entries.len())
}

/// A variant of the third stage that keeps segments in place of polylines:
/// it joins what lies on one line, wherever in the stream it arrives.
pub struct BinningLineMerger<const N: usize> {
    pub entries: Vec<Option<LineSegment<N>>>,
    pub nodes: HashMap<u128, Vec<Option<(StartOrEnd, usize)>>>,
}

impl BinningLineMerger<2> {
    /// The state as contracts see it.
    pub open spec fn state(self) -> SegmentState {
        SegmentState { entries: self.entries@, nodes: nodes_view(self.nodes@) }
    }

    /// The state is well-formed.
    pub open spec fn wf(self) -> bool {
        segment_state_wf(self.state())
    }

    /// A merger that holds nothing.
    pub fn new() -> (r: BinningLineMerger<2>)
        ensures
            r.wf(),
            r.state().entries == Seq::<Option<LineSegment<2>>>::empty(),
            r.state().nodes == Map::<u128, Seq<Option<(StartOrEnd, usize)>>>::empty(),
    {
        let r = BinningLineMerger { entries: Vec::new(), nodes: HashMap::new() };
        assert(r.state().nodes =~= Map::<u128, Seq<Option<(StartOrEnd, usize)>>>::empty());
        r
    }

    /// The position in cell `k` of the first registration whose segment
    /// joins with `ls`, and the join.
    fn find(&self, k: u128, ls: &LineSegment<2>, front: bool) -> (r: Option<
        (usize, LineSegment<2>),
    >)
        requires
            self.wf(),
            ls.wf(),
        ensures
            match r {
                Some((i, m)) => find_joining(
                    self.state().entries,
                    bin_at(self.state().nodes, k),
                    *ls,
                    front,
                    0,
                ) == Some(i as int) && self.state().nodes.contains_key(k) && i
                    < self.state().nodes[k].len() && joined_with(
                    self.state().entries,
                    self.state().nodes[k][i as int],
                    *ls,
                    front,
                ) == Some(m) && m.wf(),
                None => find_joining(
                    self.state().entries,
                    bin_at(self.state().nodes, k),
                    *ls,
                    front,
                    0,
                ) is None,
            },
    {
        let ghost st = self.state();
        match self.nodes.get(&k) {
            None => None,
            Some(bin) => {
                assert(bin@ == bin_at(st.nodes, k));
                let mut i: usize = 0;
                while i < bin.len()
                    invariant
                        i <= bin.len(),
                        self.wf(),
                        ls.wf(),
                        st == self.state(),
                        st.nodes.contains_key(k),
                        bin@ == st.nodes[k],
                        find_joining(st.entries, bin@, *ls, front, 0) == find_joining(
                            st.entries,
                            bin@,
                            *ls,
                            front,
                            i as int,
                        ),
                    decreases bin.len() - i,
                {
                    let mut hit: Option<LineSegment<2>> = None;
                    match bin[i] {
                        Some((role, idx)) => {
                            assert(st.nodes[k][i as int] == Some((role, idx)));
                            assert(idx < st.entries.len());
                            match self.entries[idx] {
                                Some(stored) => {
                                    assert(st.entries[idx as int] == Some(stored));
                                    let turn = match role {
                                        StartOrEnd::Start => front,
                                        StartOrEnd::End => !front,
                                    };
                                    let other = if turn {
                                        stored.reverse()
                                    } else {
                                        stored
                                    };
                                    proof {
                                        if turn {
                                            lemma_segment2_ext(other, segment_of(stored@.reverse()));
                                        }
                                    }
                                    let joined = if front {
                                        merge(&other, ls)
                                    } else {
                                        merge(ls, &other)
                                    };
                                    match joined {
                                        Some(m) => {
                                            proof {
                                                let a = if front {
                                                    other
                                                } else {
                                                    *ls
                                                };
                                                let b = if front {
                                                    *ls
                                                } else {
                                                    other
                                                };
                                                lemma_segment2_ext(
                                                    m,
                                                    segment_of(
                                                        crate::nbase::line_merger::merge_spec(
                                                            a@,
                                                            b@,
                                                        ).unwrap(),
                                                    ),
                                                );
                                            }
                                            hit = Some(m);
                                        },
                                        None => {},
                                    }
                                },
                                None => {},
                            }
                        },
                        None => {},
                    }
                    assert(hit == joined_with(st.entries, bin@[i as int], *ls, front));
                    if let Some(m) = hit {
                        return Some((i, m));
                    }
                    i += 1;
                }
                None
            },
        }
    }

    /// Takes the segment behind registration `i` of cell `k` out of the
    /// state, leaving tombstones.
    fn take(&mut self, k: u128, i: usize)
        requires
            old(self).wf(),
            old(self).state().nodes.contains_key(k),
            i < old(self).state().nodes[k].len(),
            old(self).state().nodes[k][i as int] is Some,
        ensures
            final(self).wf(),
            final(self).state() == without(old(self).state(), k, i as int),
    {
        let ghost st = self.state();
        let mut bin = self.nodes.remove(&k).unwrap();
        assert(bin@ == st.nodes[k]);
        let (role, idx) = bin[i].unwrap();
        assert(idx < st.entries.len());
        bin[i] = None;
        self.nodes.insert(k, bin);
        self.entries[idx] = None;
        proof {
            assert(self.state().entries =~= st.entries.update(idx as int, None));
            assert(self.state().nodes =~= st.nodes.insert(k, st.nodes[k].update(i as int, None)));
            let now = self.state();
            assert forall|q: u128, j: int|
                now.nodes.contains_key(q) && 0 <= j < now.nodes[q].len() implies ((
            #[trigger] now.nodes[q][j]) matches Some(e) ==> e.1 < now.entries.len()) by {
                if q == k {
                    if j != i {
                        assert(now.nodes[q][j] == st.nodes[k][j]);
                    }
                } else {
                    assert(st.nodes.contains_key(q));
                    assert(now.nodes[q][j] == st.nodes[q][j]);
                }
            }
        }
    }

    /// Registers one end of the segment at position `idx` in cell `k`.
    fn register(&mut self, k: u128, role: StartOrEnd, idx: usize)
        requires
            old(self).wf(),
            idx < old(self).entries@.len(),
        ensures
            final(self).wf(),
            final(self).entries == old(self).entries,
            final(self).state().nodes == registered(old(self).state().nodes, k, (role, idx)),
    {
        let ghost st = self.state();
        let mut bin = match self.nodes.remove(&k) {
            Some(b) => b,
            None => Vec::new(),
        };
        assert(bin@ == bin_at(st.nodes, k));
        bin.push(Some((role, idx)));
        self.nodes.insert(k, bin);
        proof {
            assert(self.state().nodes =~= registered(st.nodes, k, (role, idx)));
            let now = self.state();
            assert forall|q: u128, j: int|
                now.nodes.contains_key(q) && 0 <= j < now.nodes[q].len() implies ((
            #[trigger] now.nodes[q][j]) matches Some(e) ==> e.1 < now.entries.len()) by {
                if q == k {
                    if j < bin_at(st.nodes, k).len() {
                        assert(st.nodes.contains_key(k));
                        assert(now.nodes[q][j] == st.nodes[k][j]);
                    }
                } else {
                    assert(st.nodes.contains_key(q));
                    assert(now.nodes[q][j] == st.nodes[q][j]);
                }
            }
        }
    }

    /// Takes the next segment and joins it with what is stored.
    pub fn push(&mut self, ls: LineSegment<2>)
        requires
            old(self).wf(),
            ls.wf(),
        ensures
            final(self).wf(),
            final(self).state() == segment_step(old(self).state(), ls),
    {
        let ghost st = self.state();
        let mut ls = ls;
        let ghost l0 = ls;
        let start_idx = cell_key_of(&ls.ps[0]);
        if let Some((i, m)) = self.find(start_idx, &ls, true) {
            self.take(start_idx, i);
            ls = m;
        }
        let ghost st1 = self.state();
        let ghost l1 = ls;
        assert((st1, l1) == splice(st, l0, true));
        let end_idx = cell_key_of(&ls.ps[1]);
        if let Some((i, m)) = self.find(end_idx, &ls, false) {
            self.take(end_idx, i);
            ls = m;
        }
        let ghost st2 = self.state();
        assert((st2, ls) == splice(st1, l1, false));
        let idx = self.entries.len();
        let first = cell_key_of(&ls.ps[0]);
        let last = cell_key_of(&ls.ps[1]);
        self.entries.push(Some(ls));
        proof {
            assert(self.state().nodes =~= st2.nodes);
        }
        self.register(first, StartOrEnd::Start, idx);
        self.register(last, StartOrEnd::End, idx);
    }

    /// Hands out the segments that are left, in the order in which they were
    /// stored.
    pub fn finish(self) -> (out: Vec<LineSegment<2>>)
        requires
            self.wf(),
        ensures
            out@ == kept_from(self.state().entries, 0),
            forall|i: int| 0 <= i < out@.len() ==> (#[trigger] out@[i]).wf(),
    {
        let ghost entries = self.entries@;
        let mut out: Vec<LineSegment<2>> = Vec::new();
        let mut i: usize = 0;
        while i < self.entries.len()
            invariant
                i <= self.entries@.len(),
                entries == self.entries@,
                self.wf(),
                out@ + kept_from(entries, i as int) == kept_from(entries, 0),
                forall|j: int| 0 <= j < out@.len() ==> (#[trigger] out@[j]).wf(),
            decreases self.entries@.len() - i,
        {
            let ghost before = out@;
            let ghost tail = kept_from(entries, i as int);
            if let Some(ls) = self.entries[i] {
                assert(self.state().entries[i as int] == Some(ls));
                out.push(ls);
                assert(out@ + kept_from(entries, i + 1) =~= before + tail);
            }
            i += 1;
        }
        assert(out@ + Seq::<LineSegment<2>>::empty() =~= out@);
        out
    }

    /// Runs the stage over a whole input.
    pub fn run(self, input: &Vec<LineSegment<2>>) -> (out: Vec<LineSegment<2>>)
        requires
            self.wf(),
            forall|i: int| 0 <= i < input@.len() ==> (#[trigger] input@[i]).wf(),
        ensures
            out@ == kept_from(segment_run(self.state(), input@, 0).entries, 0),
            forall|i: int| 0 <= i < out@.len() ==> (#[trigger] out@[i]).wf(),
    {
        let mut merger = self;
        let mut i: usize = 0;
        while i < input.len()
            invariant
                i <= input.len(),
                merger.wf(),
                forall|j: int| 0 <= j < input@.len() ==> (#[trigger] input@[j]).wf(),
                segment_run(merger.state(), input@, i as int) == segment_run(
                    self.state(),
                    input@,
                    0,
                ),
            decreases input.len() - i,
        {
            merger.push(input[i]);
            i += 1;
        }
        merger.finish()
    }
}

} // verus!
