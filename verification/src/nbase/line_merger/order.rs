//! The second stage does not depend on the order of its input: two inputs
//! that hold the same segments leave, on every line, the same parameters
//! covered. Which of the two directions of a line the stage keeps depends
//! on the segment that arrives first; where the two inputs differ in that,
//! the parameters of one are the negated parameters of the other.
use crate::nbase::line_merger::coverage::{
    all_forward, built_from, built_line, file_all, file_spec, insert_all,
    lemma_backward_interval, lemma_built_all, lemma_find_same, lemma_insert_all_coverage,
    lemma_insert_order,
};
use crate::nbase::line_merger::merge_and_deduplicate::{
    add_all, backward_interval, bin_of, closed_cover, covers, direction, find_from,
    forward_interval, lemma_bin_of_reverse, lemma_forward_interval, opposite_key,
    AugmentedLineSegment, Bin, COALESCE_GAP,
};
use crate::nbase::line_segment::LineSegment;
use vstd::prelude::*;

verus! {

/// The index of the line of a segment.
pub open spec fn key_of(ls: LineSegment<2>, n_scale: int, p_scale: int) -> (int, int, int, int) {
    bin_of(direction(ls@), ls@.a, n_scale, p_scale)
}

/// The interval that the segment is filed as under the line with the given
/// index: its own interval if that is the index of its line, its interval
/// on the line described the other way round if that is the opposite index,
/// and nothing otherwise, or if the segment has no length.
pub open spec fn filed_as(ls: LineSegment<2>, key: (int, int, int, int), n_scale: int, p_scale: int)
    -> Option<AugmentedLineSegment<2>> {
    if ls@.a == ls@.b {
        None
    } else if key_of(ls, n_scale, p_scale) == key {
        Some(forward_interval(ls))
    } else if key_of(ls, n_scale, p_scale) == opposite_key(key) {
        Some(backward_interval(ls))
    } else {
        None
    }
}

/// The intervals that the first `n` segments of the input are filed as
/// under the line with the given index, in the order of the input.
pub open spec fn filed_on(
    input: Seq<LineSegment<2>>,
    key: (int, int, int, int),
    n: int,
    n_scale: int,
    p_scale: int,
) -> Seq<AugmentedLineSegment<2>>
    decreases n,
{
    if n <= 0 {
        Seq::empty()
    } else {
        match filed_as(input[n - 1], key, n_scale, p_scale) {
            Some(e) => filed_on(input, key, n - 1, n_scale, p_scale).push(e),
            None => filed_on(input, key, n - 1, n_scale, p_scale),
        }
    }
}

/// The record after the first `n` segments of the input.
pub open spec fn file_upto(input: Seq<LineSegment<2>>, n: int, n_scale: int, p_scale: int) -> Seq<
    Bin,
>
    decreases n,
{
    if n <= 0 {
        Seq::empty()
    } else {
        file_spec(file_upto(input, n - 1, n_scale, p_scale), input[n - 1], n_scale, p_scale)
    }
}

/// The record has a line for the index or for its opposite.
pub open spec fn has_line(raw: Seq<Bin>, key: (int, int, int, int)) -> bool {
    exists|j: int|
        0 <= j < raw.len() && ((#[trigger] raw[j]).key == key || raw[j].key == opposite_key(key))
}

/// One of the first `n` segments of the input has length and lies on the
/// line with exactly this index.
pub open spec fn opened_by(
    input: Seq<LineSegment<2>>,
    n: int,
    key: (int, int, int, int),
    n_scale: int,
    p_scale: int,
) -> bool {
    exists|i: int|
        0 <= i < n && (#[trigger] input[i])@.a != input[i]@.b && key_of(
            input[i],
            n_scale,
            p_scale,
        ) == key
}

/// No two lines of the record have the same index, and none has the
/// opposite of the index of any line.
pub open spec fn keys_apart(raw: Seq<Bin>) -> bool {
    forall|j: int, k: int|
        0 <= j < raw.len() && 0 <= k < raw.len() ==> (j != k ==> (#[trigger] raw[j]).key != (
        #[trigger] raw[k]).key) && raw[j].key != opposite_key(raw[k].key)
}

/// The record is the record of the first `n` segments of the input: under
/// every line stand the intervals that those segments are filed as under
/// it; the lines are apart; every segment with length has its line; and
/// every line was opened by a segment of exactly its index.
pub open spec fn record_ok(
    raw: Seq<Bin>,
    input: Seq<LineSegment<2>>,
    n: int,
    n_scale: int,
    p_scale: int,
) -> bool {
    &&& keys_apart(raw)
    &&& forall|j: int|
        0 <= j < raw.len() ==> (#[trigger] raw[j]).intervals == filed_on(
            input,
            raw[j].key,
            n,
            n_scale,
            p_scale,
        )
    &&& forall|i: int|
        0 <= i < n && (#[trigger] input[i])@.a != input[i]@.b ==> has_line(
            raw,
            key_of(input[i], n_scale, p_scale),
        )
    &&& forall|j: int|
        0 <= j < raw.len() ==> opened_by(input, n, (#[trigger] raw[j]).key, n_scale, p_scale)
}

/// Where a search finds nothing, no line has the index.
pub proof fn lemma_find_nothing(raw: Seq<Bin>, key: (int, int, int, int), i: int)
    requires
        0 <= i,
        find_from(raw, key, i) is None,
    ensures
        forall|j: int| i <= j < raw.len() ==> (#[trigger] raw[j]).key != key,
    decreases raw.len() - i,
{
    if i < raw.len() {
        lemma_find_nothing(raw, key, i + 1);
    }
}

/// Where a line has the index, a search finds a line.
pub proof fn lemma_find_something(raw: Seq<Bin>, key: (int, int, int, int), i: int, j: int)
    requires
        0 <= i <= j < raw.len(),
        raw[j].key == key,
    ensures
        find_from(raw, key, i) is Some,
    decreases raw.len() - i,
{
    if raw[i].key != key {
        lemma_find_something(raw, key, i + 1, j);
    }
}

/// Under a line that no segment is filed under stands nothing.
pub proof fn lemma_filed_nothing(
    input: Seq<LineSegment<2>>,
    key: (int, int, int, int),
    n: int,
    n_scale: int,
    p_scale: int,
)
    requires
        forall|i: int| 0 <= i < n ==> filed_as(#[trigger] input[i], key, n_scale, p_scale) is None,
    ensures
        filed_on(input, key, n, n_scale, p_scale) == Seq::<AugmentedLineSegment<2>>::empty(),
    decreases n,
{
    if n > 0 {
        assert(filed_as(input[n - 1], key, n_scale, p_scale) is None);
        lemma_filed_nothing(input, key, n - 1, n_scale, p_scale);
    }
}

/// Every interval under a line is what a segment of the input is filed as,
/// and what a segment of the input is filed as stands under the line.
pub proof fn lemma_filed_members(
    input: Seq<LineSegment<2>>,
    key: (int, int, int, int),
    n: int,
    n_scale: int,
    p_scale: int,
)
    requires
        0 <= n,
    ensures
        forall|k: int|
            0 <= k < filed_on(input, key, n, n_scale, p_scale).len() ==> exists|i: int|
                0 <= i < n && filed_as(#[trigger] input[i], key, n_scale, p_scale) == Some(
                    #[trigger] filed_on(input, key, n, n_scale, p_scale)[k],
                ),
        forall|i: int|
            0 <= i < n && filed_as(#[trigger] input[i], key, n_scale, p_scale) is Some ==> filed_on(
                input,
                key,
                n,
                n_scale,
                p_scale,
            ).contains(filed_as(input[i], key, n_scale, p_scale).unwrap()),
    decreases n,
{
    if n > 0 {
        lemma_filed_members(input, key, n - 1, n_scale, p_scale);
        let before = filed_on(input, key, n - 1, n_scale, p_scale);
        let now = filed_on(input, key, n, n_scale, p_scale);
        let last = filed_as(input[n - 1], key, n_scale, p_scale);
        assert forall|k: int| 0 <= k < now.len() implies exists|i: int|
            0 <= i < n && filed_as(#[trigger] input[i], key, n_scale, p_scale) == Some(
                #[trigger] now[k],
            ) by {
            if k < before.len() {
                assert(now[k] == before[k]);
                let i = choose|i: int|
                    0 <= i < n - 1 && filed_as(#[trigger] input[i], key, n_scale, p_scale) == Some(
                        before[k],
                    );
                assert(0 <= i < n && filed_as(input[i], key, n_scale, p_scale) == Some(now[k]));
            } else {
                assert(filed_as(input[n - 1], key, n_scale, p_scale) == Some(now[k]));
            }
        }
        assert forall|i: int|
            0 <= i < n && filed_as(#[trigger] input[i], key, n_scale, p_scale) is Some implies now.contains(
            filed_as(input[i], key, n_scale, p_scale).unwrap(),
        ) by {
            let e = filed_as(input[i], key, n_scale, p_scale).unwrap();
            if i < n - 1 {
                assert(before.contains(e));
                let k = choose|k: int| 0 <= k < before.len() && before[k] == e;
                assert(now[k] == e);
            } else {
                assert(now[now.len() - 1] == e);
            }
        }
    }
}

/// One more segment keeps the record the record of the input.
pub proof fn lemma_record_step(
    raw: Seq<Bin>,
    input: Seq<LineSegment<2>>,
    n: int,
    n_scale: int,
    p_scale: int,
)
    requires
        record_ok(raw, input, n, n_scale, p_scale),
        0 <= n < input.len(),
        n_scale >= 1,
    ensures
        record_ok(file_spec(raw, input[n], n_scale, p_scale), input, n + 1, n_scale, p_scale),
{
    let ls = input[n];
    let key = key_of(ls, n_scale, p_scale);
    let opp = opposite_key(key);
    let after = file_spec(raw, ls, n_scale, p_scale);
    assert(opposite_key(opp) == key);
    if ls@.a == ls@.b {
        assert forall|j: int| 0 <= j < after.len() implies (#[trigger] after[j]).intervals
            == filed_on(input, after[j].key, n + 1, n_scale, p_scale) by {
            assert(filed_as(ls, raw[j].key, n_scale, p_scale) is None);
        }
        assert forall|j: int| 0 <= j < after.len() implies opened_by(
            input,
            n + 1,
            (#[trigger] after[j]).key,
            n_scale,
            p_scale,
        ) by {
            lemma_opened_later(input, n, raw[j].key, n_scale, p_scale);
        }
    } else {
        lemma_bin_of_reverse(ls@.a, ls@.b, n_scale, p_scale);
        assert(key != opp);
        lemma_find_same(raw, raw, key, 0);
        lemma_find_same(raw, raw, opp, 0);
        if find_from(raw, key, 0) is None {
            lemma_find_nothing(raw, key, 0);
        }
        if find_from(raw, opp, 0) is None {
            lemma_find_nothing(raw, opp, 0);
        }
        let found = match find_from(raw, key, 0) {
            Some(j) => Some(j),
            None => find_from(raw, opp, 0),
        };
        match found {
            Some(j) => {
                assert(after.len() == raw.len());
                assert forall|k: int| 0 <= k < after.len() implies (#[trigger] after[k]).key
                    == raw[k].key by {}
                assert(keys_apart(after)) by {
                    assert forall|a: int, b: int|
                        0 <= a < after.len() && 0 <= b < after.len() implies (a != b ==> (
                    #[trigger] after[a]).key != (#[trigger] after[b]).key) && after[a].key
                        != opposite_key(after[b].key) by {
                        assert(after[a].key == raw[a].key && after[b].key == raw[b].key);
                    }
                }
                assert forall|k: int| 0 <= k < after.len() implies (#[trigger] after[k]).intervals
                    == filed_on(input, after[k].key, n + 1, n_scale, p_scale) by {
                    assert(raw[k].intervals == filed_on(input, raw[k].key, n, n_scale, p_scale));
                    if k != j {
                        assert(raw[k].key != raw[j].key);
                        assert(raw[k].key != opposite_key(raw[j].key));
                        assert(raw[j].key != opposite_key(raw[k].key));
                        assert(opposite_key(opposite_key(raw[k].key)) == raw[k].key);
                        assert(filed_as(ls, raw[k].key, n_scale, p_scale) is None);
                    }
                }
                assert forall|i: int|
                    0 <= i < n + 1 && (#[trigger] input[i])@.a != input[i]@.b implies has_line(
                    after,
                    key_of(input[i], n_scale, p_scale),
                ) by {
                    let want = key_of(input[i], n_scale, p_scale);
                    if i < n {
                        assert(has_line(raw, want));
                        let m = choose|m: int|
                            0 <= m < raw.len() && ((#[trigger] raw[m]).key == want || raw[m].key
                                == opposite_key(want));
                        assert(after[m].key == raw[m].key);
                    } else {
                        assert(after[j].key == raw[j].key);
                    }
                }
                assert forall|k: int| 0 <= k < after.len() implies opened_by(
                    input,
                    n + 1,
                    (#[trigger] after[k]).key,
                    n_scale,
                    p_scale,
                ) by {
                    lemma_opened_later(input, n, raw[k].key, n_scale, p_scale);
                }
            },
            None => {
                let last = raw.len() as int;
                assert(after == raw.push(Bin { key, intervals: seq![forward_interval(ls)] }));
                assert(keys_apart(after)) by {
                    assert forall|a: int, b: int|
                        0 <= a < after.len() && 0 <= b < after.len() implies (a != b ==> (
                    #[trigger] after[a]).key != (#[trigger] after[b]).key) && after[a].key
                        != opposite_key(after[b].key) by {
                        if a < last {
                            assert(after[a] == raw[a]);
                        }
                        if b < last {
                            assert(after[b] == raw[b]);
                            assert(opposite_key(opposite_key(raw[b].key)) == raw[b].key);
                        }
                    }
                }
                assert forall|i: int| 0 <= i < n implies filed_as(
                    #[trigger] input[i],
                    key,
                    n_scale,
                    p_scale,
                ) is None by {
                    if filed_as(input[i], key, n_scale, p_scale) is Some {
                        let want = key_of(input[i], n_scale, p_scale);
                        assert(has_line(raw, want));
                        let m = choose|m: int|
                            0 <= m < raw.len() && ((#[trigger] raw[m]).key == want || raw[m].key
                                == opposite_key(want));
                        assert(raw[m].key != key && raw[m].key != opp);
                        assert(false);
                    }
                }
                lemma_filed_nothing(input, key, n, n_scale, p_scale);
                assert forall|k: int| 0 <= k < after.len() implies (#[trigger] after[k]).intervals
                    == filed_on(input, after[k].key, n + 1, n_scale, p_scale) by {
                    if k < last {
                        assert(after[k] == raw[k]);
                        assert(raw[k].key != key && raw[k].key != opp);
                        assert(opposite_key(opposite_key(raw[k].key)) == raw[k].key);
                        assert(filed_as(ls, raw[k].key, n_scale, p_scale) is None);
                    } else {
                        assert(filed_on(input, key, n + 1, n_scale, p_scale) =~= seq![
                            forward_interval(ls),
                        ]);
                    }
                }
                assert forall|i: int|
                    0 <= i < n + 1 && (#[trigger] input[i])@.a != input[i]@.b implies has_line(
                    after,
                    key_of(input[i], n_scale, p_scale),
                ) by {
                    let want = key_of(input[i], n_scale, p_scale);
                    if i < n {
                        assert(has_line(raw, want));
                        let m = choose|m: int|
                            0 <= m < raw.len() && ((#[trigger] raw[m]).key == want || raw[m].key
                                == opposite_key(want));
                        assert(after[m] == raw[m]);
                    } else {
                        assert(after[last].key == key);
                    }
                }
                assert forall|k: int| 0 <= k < after.len() implies opened_by(
                    input,
                    n + 1,
                    (#[trigger] after[k]).key,
                    n_scale,
                    p_scale,
                ) by {
                    if k < last {
                        assert(after[k] == raw[k]);
                        lemma_opened_later(input, n, raw[k].key, n_scale, p_scale);
                    } else {
                        assert(input[n]@.a != input[n]@.b && key_of(input[n], n_scale, p_scale)
                            == key);
                    }
                }
            },
        }
    }
}

/// What opened a line among the first segments opened it among more.
pub proof fn lemma_opened_later(
    input: Seq<LineSegment<2>>,
    n: int,
    key: (int, int, int, int),
    n_scale: int,
    p_scale: int,
)
    requires
        opened_by(input, n, key, n_scale, p_scale),
    ensures
        opened_by(input, n + 1, key, n_scale, p_scale),
{
    let i = choose|i: int|
        0 <= i < n && (#[trigger] input[i])@.a != input[i]@.b && key_of(input[i], n_scale, p_scale)
            == key;
    assert(0 <= i < n + 1 && input[i]@.a != input[i]@.b && key_of(input[i], n_scale, p_scale)
        == key);
}

/// The record of any number of segments is the record of the input.
pub proof fn lemma_record_all(input: Seq<LineSegment<2>>, n: int, n_scale: int, p_scale: int)
    requires
        0 <= n <= input.len(),
        n_scale >= 1,
    ensures
        record_ok(file_upto(input, n, n_scale, p_scale), input, n, n_scale, p_scale),
    decreases n,
{
    if n > 0 {
        lemma_record_all(input, n - 1, n_scale, p_scale);
        lemma_record_step(
            file_upto(input, n - 1, n_scale, p_scale),
            input,
            n - 1,
            n_scale,
            p_scale,
        );
    }
}

/// Filing the rest of the input onto the record of its first segments gives
/// the record of the whole input.
pub proof fn lemma_file_all_upto(input: Seq<LineSegment<2>>, i: int, n_scale: int, p_scale: int)
    requires
        0 <= i <= input.len(),
    ensures
        file_all(file_upto(input, i, n_scale, p_scale), input, i, n_scale, p_scale) == file_upto(
            input,
            input.len() as int,
            n_scale,
            p_scale,
        ),
    decreases input.len() - i,
{
    if i < input.len() {
        lemma_file_all_upto(input, i + 1, n_scale, p_scale);
    }
}


/// The position of the line that has the given index or, failing that, the
/// opposite index; -1 if there is neither.
pub open spec fn partner(bins: Seq<Bin>, key: (int, int, int, int)) -> int {
    match find_from(bins, key, 0) {
        Some(m) => m,
        None => match find_from(bins, opposite_key(key), 0) {
            Some(m) => m,
            None => -1,
        },
    }
}

/// Every interval of `a` has its mirror image in `b`: an interval from the
/// negated end to the negated start.
pub open spec fn mirrored_in(a: Seq<AugmentedLineSegment<2>>, b: Seq<AugmentedLineSegment<2>>)
    -> bool {
    forall|i: int| 0 <= i < a.len() ==> has_mirror(b, #[trigger] a[i])
}

/// The sequence holds the mirror image of the interval.
pub open spec fn has_mirror(b: Seq<AugmentedLineSegment<2>>, e: AugmentedLineSegment<2>) -> bool {
    exists|k: int| 0 <= k < b.len() && (#[trigger] b[k]).t0 == -e.t1 && b[k].t1 == -e.t0
}

/// What the intervals cover, small gaps filled in, their mirror images
/// cover at the negated parameter.
pub proof fn lemma_mirror_cover(
    a: Seq<AugmentedLineSegment<2>>,
    b: Seq<AugmentedLineSegment<2>>,
    t: int,
)
    requires
        mirrored_in(a, b),
        closed_cover(a, t),
    ensures
        closed_cover(b, -t),
{
    if covers(a, t) {
        let i = choose|i: int| 0 <= i < a.len() && (#[trigger] a[i]).t0 <= t <= a[i].t1;
        assert(has_mirror(b, a[i]));
        let k = choose|k: int| 0 <= k < b.len() && (#[trigger] b[k]).t0 == -a[i].t1 && b[k].t1
            == -a[i].t0;
        assert(b[k].t0 <= -t <= b[k].t1);
    } else {
        let (i, j) = choose|i: int, j: int|
            0 <= i < a.len() && 0 <= j < a.len() && (#[trigger] a[i]).t1 < t < (#[trigger] a[j]).t0
                && a[j].t0 - a[i].t1 <= COALESCE_GAP;
        assert(has_mirror(b, a[i]));
        assert(has_mirror(b, a[j]));
        let x = choose|k: int| 0 <= k < b.len() && (#[trigger] b[k]).t0 == -a[i].t1 && b[k].t1
            == -a[i].t0;
        let y = choose|k: int| 0 <= k < b.len() && (#[trigger] b[k]).t0 == -a[j].t1 && b[k].t1
            == -a[j].t0;
        assert(b[y].t1 < -t < b[x].t0 && b[x].t0 - b[y].t1 <= COALESCE_GAP);
    }
}

/// What one input files under a line, an input that holds every segment of
/// it files under the same line.
pub proof fn lemma_filed_in_more(
    small: Seq<LineSegment<2>>,
    large: Seq<LineSegment<2>>,
    key: (int, int, int, int),
    n_scale: int,
    p_scale: int,
)
    requires
        forall|i: int| 0 <= i < small.len() ==> large.contains(#[trigger] small[i]),
    ensures
        forall|k: int|
            0 <= k < filed_on(small, key, small.len() as int, n_scale, p_scale).len()
                ==> filed_on(large, key, large.len() as int, n_scale, p_scale).contains(
                #[trigger] filed_on(small, key, small.len() as int, n_scale, p_scale)[k],
            ),
{
    let a = filed_on(small, key, small.len() as int, n_scale, p_scale);
    let b = filed_on(large, key, large.len() as int, n_scale, p_scale);
    lemma_filed_members(small, key, small.len() as int, n_scale, p_scale);
    lemma_filed_members(large, key, large.len() as int, n_scale, p_scale);
    assert forall|k: int| 0 <= k < a.len() implies b.contains(#[trigger] a[k]) by {
        let i = choose|i: int|
            0 <= i < small.len() && filed_as(#[trigger] small[i], key, n_scale, p_scale) == Some(
                a[k],
            );
        assert(large.contains(small[i]));
        let m = choose|m: int| 0 <= m < large.len() && large[m] == small[i];
        assert(filed_as(large[m], key, n_scale, p_scale) is Some);
    }
}

/// What one input files under a line, an input that holds every segment of
/// it files, mirrored, under the line with the opposite index.
pub proof fn lemma_filed_mirrored(
    small: Seq<LineSegment<2>>,
    large: Seq<LineSegment<2>>,
    key: (int, int, int, int),
    n_scale: int,
    p_scale: int,
)
    requires
        n_scale >= 1,
        forall|i: int| 0 <= i < small.len() ==> (#[trigger] small[i]).wf(),
        forall|i: int| 0 <= i < small.len() ==> large.contains(#[trigger] small[i]),
    ensures
        mirrored_in(
            filed_on(small, key, small.len() as int, n_scale, p_scale),
            filed_on(large, opposite_key(key), large.len() as int, n_scale, p_scale),
        ),
{
    let opp = opposite_key(key);
    let a = filed_on(small, key, small.len() as int, n_scale, p_scale);
    let b = filed_on(large, opp, large.len() as int, n_scale, p_scale);
    lemma_filed_members(small, key, small.len() as int, n_scale, p_scale);
    lemma_filed_members(large, opp, large.len() as int, n_scale, p_scale);
    assert(opposite_key(opp) == key);
    assert forall|k: int| 0 <= k < a.len() implies has_mirror(b, #[trigger] a[k]) by {
        let i = choose|i: int|
            0 <= i < small.len() && filed_as(#[trigger] small[i], key, n_scale, p_scale) == Some(
                a[k],
            );
        let ls = small[i];
        assert(ls.wf());
        assert(large.contains(ls));
        let m = choose|m: int| 0 <= m < large.len() && large[m] == ls;
        lemma_bin_of_reverse(ls@.a, ls@.b, n_scale, p_scale);
        lemma_forward_interval(ls);
        lemma_backward_interval(ls);
        let other = filed_as(large[m], opp, n_scale, p_scale);
        assert(other is Some);
        assert(b.contains(other.unwrap()));
        let q = choose|q: int| 0 <= q < b.len() && b[q] == other.unwrap();
        assert(b[q].t0 == -a[k].t1 && b[q].t1 == -a[k].t0);
    }
}

/// The second stage does not depend on the order of its input.
///
/// Of two inputs that hold the same segments, take any line that the stage
/// holds after the first. After the second the stage holds a line with the
/// same index or with the opposite one. In the first case the two lines
/// cover the same parameters; in the second, whatever the one covers the
/// other covers at the negated parameter, the line being described the
/// other way round.
pub proof fn lemma_order_independent(
    first: Seq<LineSegment<2>>,
    second: Seq<LineSegment<2>>,
    n_scale: int,
    p_scale: int,
    j: int,
    t: int,
)
    requires
        n_scale >= 1,
        forall|i: int| 0 <= i < first.len() ==> (#[trigger] first[i]).wf(),
        forall|i: int| 0 <= i < second.len() ==> (#[trigger] second[i]).wf(),
        forall|i: int| 0 <= i < first.len() ==> second.contains(#[trigger] first[i]),
        forall|i: int| 0 <= i < second.len() ==> first.contains(#[trigger] second[i]),
        0 <= j < add_all(Seq::empty(), first, 0, n_scale, p_scale).len(),
    ensures
        ({
            let one = add_all(Seq::empty(), first, 0, n_scale, p_scale);
            let two = add_all(Seq::empty(), second, 0, n_scale, p_scale);
            let m = partner(two, one[j].key);
            &&& 0 <= m < two.len()
            &&& two[m].key == one[j].key || two[m].key == opposite_key(one[j].key)
            &&& two[m].key == one[j].key ==> covers(two[m].intervals, t) == covers(
                one[j].intervals,
                t,
            )
            &&& two[m].key == opposite_key(one[j].key) ==> covers(two[m].intervals, -t) == covers(
                one[j].intervals,
                t,
            )
        }),
{
    let empty = Seq::<Bin>::empty();
    let one = add_all(empty, first, 0, n_scale, p_scale);
    let two = add_all(empty, second, 0, n_scale, p_scale);
    let n1 = first.len() as int;
    let n2 = second.len() as int;
    let r1 = file_upto(first, n1, n_scale, p_scale);
    let r2 = file_upto(second, n2, n_scale, p_scale);
    assert(built_from(empty, empty));
    lemma_built_all(empty, empty, first, 0, n_scale, p_scale);
    lemma_built_all(empty, empty, second, 0, n_scale, p_scale);
    assert(file_upto(first, 0, n_scale, p_scale) == empty);
    assert(file_upto(second, 0, n_scale, p_scale) == empty);
    lemma_file_all_upto(first, 0, n_scale, p_scale);
    lemma_file_all_upto(second, 0, n_scale, p_scale);
    lemma_record_all(first, n1, n_scale, p_scale);
    lemma_record_all(second, n2, n_scale, p_scale);
    assert(built_from(one, r1));
    assert(built_from(two, r2));
    assert(built_line(one[j], r1[j]));
    let key = one[j].key;
    let opp = opposite_key(key);
    // A segment that opened the line is in the second input, and has its
    // line there.
    assert(opened_by(first, n1, r1[j].key, n_scale, p_scale));
    let i0 = choose|i: int|
        0 <= i < n1 && (#[trigger] first[i])@.a != first[i]@.b && key_of(first[i], n_scale, p_scale)
            == key;
    assert(second.contains(first[i0]));
    let i2 = choose|i: int| 0 <= i < second.len() && second[i] == first[i0];
    assert(second[i2]@.a != second[i2]@.b);
    assert(has_line(r2, key_of(second[i2], n_scale, p_scale)));
    let mm = choose|mm: int|
        0 <= mm < r2.len() && ((#[trigger] r2[mm]).key == key || r2[mm].key == opp);
    assert forall|k: int| 0 <= k < two.len() implies (#[trigger] two[k]).key == r2[k].key by {
        assert(built_line(two[k], r2[k]));
    }
    lemma_find_same(two, r2, key, 0);
    lemma_find_same(two, r2, opp, 0);
    if find_from(two, key, 0) is None {
        lemma_find_nothing(two, key, 0);
        assert(two[mm].key == r2[mm].key);
        lemma_find_something(two, opp, 0, mm);
    }
    let m = partner(two, key);
    assert(0 <= m < two.len());
    assert(built_line(two[m], r2[m]));
    let l1 = r1[j].intervals;
    let l2 = r2[m].intervals;
    lemma_insert_all_coverage(l1, l1.len() as int, t);
    assert(l1.subrange(0, l1.len() as int) =~= l1);
    assert(l2.subrange(0, l2.len() as int) =~= l2);
    if two[m].key == key {
        lemma_filed_in_more(first, second, key, n_scale, p_scale);
        lemma_filed_in_more(second, first, key, n_scale, p_scale);
        lemma_insert_order(l1, l2, t);
    }
    if two[m].key == opp {
        assert(opposite_key(opp) == key);
        lemma_filed_mirrored(first, second, key, n_scale, p_scale);
        lemma_filed_mirrored(second, first, opp, n_scale, p_scale);
        lemma_insert_all_coverage(l2, l2.len() as int, -t);
        if closed_cover(l1, t) {
            lemma_mirror_cover(l1, l2, t);
        }
        if closed_cover(l2, -t) {
            lemma_mirror_cover(l2, l1, -t);
        }
    }
}

} // verus!
