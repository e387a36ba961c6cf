use gnarled::n2::point::p2;
use gnarled::nbase::line_merger::merge_and_deduplicate::{
    pack_index, AugmentedLineSegment, BinIndex, BinningLineMergerAndDeduplicator,
    DeduplicatorCore, IntervalSet, COALESCE_GAP,
};
use gnarled::nbase::line_segment::LineSegment;
use gnarled::nbase::point::{Point, UNIT};

fn seg(x0: i64, y0: i64, x1: i64, y1: i64) -> LineSegment<2> {
    LineSegment::new(p2(x0, y0), p2(x1, y1))
}

fn iv(t0: i64, t1: i64) -> AugmentedLineSegment<2> {
    AugmentedLineSegment { t0, t1, x0: p2(t0, 0), x1: p2(t1, 0) }
}

fn spans(set: &IntervalSet<2>) -> Vec<(i64, i64)> {
    set.intervals.iter().map(|i| (i.t0, i.t1)).collect()
}

fn ends(set: &IntervalSet<2>) -> Vec<(i64, i64)> {
    set.intervals.iter().map(|i| (i.x0.vs[0], i.x1.vs[0])).collect()
}

fn set_of(list: &[(i64, i64)]) -> IntervalSet<2> {
    let mut set = IntervalSet { intervals: Vec::new() };
    for &(t0, t1) in list {
        set.add_interval(iv(t0, t1));
    }
    set
}

#[test]
fn interval_into_an_empty_set() {
    let set = set_of(&[(5, 9)]);
    assert_eq!(spans(&set), vec![(5, 9)]);
    let one = IntervalSet::from_interval(iv(5, 9));
    assert_eq!(spans(&one), vec![(5, 9)]);
}

#[test]
fn interval_before_and_after_everything() {
    let set = set_of(&[(10_000, 20_000), (0, 5_000), (30_000, 40_000)]);
    assert_eq!(spans(&set), vec![(0, 5_000), (10_000, 20_000), (30_000, 40_000)]);
}

#[test]
fn interval_that_overlaps_is_united() {
    let set = set_of(&[(0, 10_000), (30_000, 40_000), (5_000, 20_000)]);
    assert_eq!(spans(&set), vec![(0, 20_000), (30_000, 40_000)]);
    assert_eq!(ends(&set), vec![(0, 20_000), (30_000, 40_000)]);
}

#[test]
fn interval_that_bridges_two_unites_all_three() {
    let set = set_of(&[(0, 10_000), (30_000, 40_000), (9_000, 31_000)]);
    assert_eq!(spans(&set), vec![(0, 40_000)]);
    assert_eq!(ends(&set), vec![(0, 40_000)]);
}

#[test]
fn interval_gap_is_closed_up_to_the_tolerance() {
    assert_eq!(COALESCE_GAP, 1_000);
    let near = set_of(&[(0, 10_000), (50_000, 60_000), (11_000, 20_000)]);
    assert_eq!(spans(&near), vec![(0, 20_000), (50_000, 60_000)]);
    let far = set_of(&[(0, 10_000), (50_000, 60_000), (11_001, 20_000)]);
    assert_eq!(spans(&far), vec![(0, 10_000), (11_001, 20_000), (50_000, 60_000)]);
    let near_after = set_of(&[(0, 10_000), (50_000, 60_000), (40_000, 49_000)]);
    assert_eq!(spans(&near_after), vec![(0, 10_000), (40_000, 60_000)]);
    let far_after = set_of(&[(0, 10_000), (50_000, 60_000), (40_000, 48_999)]);
    assert_eq!(spans(&far_after), vec![(0, 10_000), (40_000, 48_999), (50_000, 60_000)]);
}

#[test]
fn interval_next_to_either_end_of_the_set_is_united() {
    // The gap is closed at the ends of the set as it is in the middle.
    let set = set_of(&[(0, 10_000), (10_001, 20_000)]);
    assert_eq!(spans(&set), vec![(0, 20_000)]);
    assert_eq!(ends(&set), vec![(0, 20_000)]);
    let set = set_of(&[(10_001, 20_000), (0, 10_000)]);
    assert_eq!(spans(&set), vec![(0, 20_000)]);
    assert_eq!(ends(&set), vec![(0, 20_000)]);
    // A set that holds an interval from 1 to 2 takes one from 0 to 0.95.
    let set = set_of(&[(10_000, 20_000), (0, 9_500)]);
    assert_eq!(spans(&set), vec![(0, 20_000)]);
    assert_eq!(ends(&set), vec![(0, 20_000)]);
}

#[test]
fn interval_gap_at_the_ends_of_the_set_is_exact() {
    assert_eq!(spans(&set_of(&[(0, 10_000), (11_000, 20_000)])), vec![(0, 20_000)]);
    assert_eq!(spans(&set_of(&[(11_000, 20_000), (0, 10_000)])), vec![(0, 20_000)]);
    assert_eq!(
        spans(&set_of(&[(0, 10_000), (11_001, 20_000)])),
        vec![(0, 10_000), (11_001, 20_000)]
    );
    assert_eq!(
        spans(&set_of(&[(11_001, 20_000), (0, 10_000)])),
        vec![(0, 10_000), (11_001, 20_000)]
    );
}

#[test]
fn intervals_in_any_order_cover_the_same() {
    let inputs = [(0i64, 10_000i64), (10_500, 20_000), (30_000, 40_000)];
    let orders: [[usize; 3]; 6] =
        [[0, 1, 2], [0, 2, 1], [1, 0, 2], [1, 2, 0], [2, 0, 1], [2, 1, 0]];
    for order in orders.iter() {
        let list: Vec<(i64, i64)> = order.iter().map(|&i| inputs[i]).collect();
        assert_eq!(spans(&set_of(&list)), vec![(0, 20_000), (30_000, 40_000)]);
    }
    let inputs =
        [(0i64, 10_000i64), (20_000, 30_000), (10_500, 19_500), (50_000, 60_000), (29_000, 49_000)];
    let first = spans(&set_of(&inputs));
    assert_eq!(first, vec![(0, 60_000)]);
    let mut turned = inputs;
    turned.reverse();
    assert_eq!(spans(&set_of(&turned)), first);
    turned.swap(1, 3);
    assert_eq!(spans(&set_of(&turned)), first);
}

#[test]
fn interval_within_another_is_absorbed() {
    let set = set_of(&[(0, 10_000), (30_000, 40_000), (2_000, 3_000)]);
    assert_eq!(spans(&set), vec![(0, 10_000), (30_000, 40_000)]);
    assert_eq!(ends(&set), vec![(0, 10_000), (30_000, 40_000)]);
}

#[test]
fn interval_that_holds_others_absorbs_them_and_goes_on() {
    let set = set_of(&[(0, 10_000), (20_000, 30_000), (40_000, 50_000), (0, 25_000)]);
    assert_eq!(spans(&set), vec![(0, 30_000), (40_000, 50_000)]);
    let set = set_of(&[(1_000, 2_000), (3_000, 4_000), (9_000, 9_500), (0, 5_000)]);
    assert_eq!(spans(&set), vec![(0, 5_000), (9_000, 9_500)]);
}

#[test]
fn interval_set_stays_sorted_and_disjoint() {
    let set = set_of(&[
        (50_000, 60_000),
        (0, 10_000),
        (20_000, 30_000),
        (5_000, 22_000),
        (70_000, 80_000),
        (58_000, 72_000),
        (90_000, 95_000),
        (40_000, 41_000),
    ]);
    let got = spans(&set);
    assert_eq!(got, vec![(0, 30_000), (40_000, 41_000), (50_000, 80_000), (90_000, 95_000)]);
    for w in got.windows(2) {
        assert!(w[0].1 < w[1].0);
    }
}

#[test]
fn same_interval_again_changes_nothing() {
    let mut set = set_of(&[(0, 10_000)]);
    for _ in 0..5 {
        set.add_interval(iv(0, 10_000));
    }
    assert_eq!(spans(&set), vec![(0, 10_000)]);
}

#[test]
fn same_segment_many_times_gives_one() {
    let mut core: DeduplicatorCore<2> = DeduplicatorCore::new(600, 20);
    let s = seg(12_345, -6_789, 98_765, 43_210);
    for _ in 0..7 {
        core.add_linesegment(s);
    }
    let out = core.segments();
    assert_eq!(out.len(), 1);
    assert!(out[0].same(&s));
}

#[test]
fn segment_and_its_reverse_give_one() {
    let mut core: DeduplicatorCore<2> = DeduplicatorCore::new(600, 20);
    let s = seg(12_345, -6_789, 98_765, 43_210);
    core.add_linesegment(s);
    core.add_linesegment(s.reverse());
    assert_eq!(core.lines.len(), 1);
    assert_eq!(core.lines[0].intervals.len(), 1);
    let out = core.segments();
    assert_eq!(out.len(), 1);
    assert!(out[0].same(&s));
}

#[test]
fn reverse_first_then_forward_keeps_the_first_direction() {
    let mut core: DeduplicatorCore<2> = DeduplicatorCore::new(600, 20);
    let s = seg(0, 0, 30_000, 40_000);
    core.add_linesegment(s.reverse());
    core.add_linesegment(s);
    let out = core.segments();
    assert_eq!(out.len(), 1);
    assert!(out[0].same(&s.reverse()));
}

#[test]
fn oblique_pieces_in_any_order_give_the_whole() {
    let whole = seg(0, 0, 30_000, 40_000);
    let pieces = whole.nsplit(10);
    let order = [3usize, 9, 0, 5, 1, 8, 2, 7, 4, 6];
    let mut core: DeduplicatorCore<2> = DeduplicatorCore::new(600, 20);
    for &i in order.iter() {
        core.add_linesegment(pieces[i]);
    }
    let out = core.segments();
    assert_eq!(out.len(), 1);
    assert!(out[0].same(&whole));
}

#[test]
fn pieces_in_stream_order_give_the_whole() {
    let whole = seg(0, 0, 30_000, 40_000);
    let mut core: DeduplicatorCore<2> = DeduplicatorCore::new(600, 20);
    for s in whole.nsplit(10) {
        core.add_linesegment(s);
    }
    let out = core.segments();
    // Each piece starts where the one before ends, so each is strictly
    // beyond the set only by nothing: it touches, and is united.
    assert_eq!(out.len(), 1);
    assert!(out[0].same(&whole));
}

#[test]
fn segment_without_length_is_dropped() {
    let mut core: DeduplicatorCore<2> = DeduplicatorCore::new(600, 20);
    core.add_linesegment(seg(5, 5, 5, 5));
    core.add_linesegment(seg(5, 5, 5, 5));
    assert!(core.segments().is_empty());
}

#[test]
fn different_lines_are_kept_apart() {
    let mut core: DeduplicatorCore<2> = DeduplicatorCore::new(600, 20);
    let a = seg(0, 0, 100_000, 0);
    let b = seg(0, 5_000, 100_000, 5_000);
    let c = seg(0, 0, 0, 100_000);
    core.add_linesegment(a);
    core.add_linesegment(b);
    core.add_linesegment(c);
    let out = core.segments();
    assert_eq!(out.len(), 3);
    assert!(out[0].same(&a));
    assert!(out[1].same(&b));
    assert!(out[2].same(&c));
}

#[test]
fn canonical_form_of_a_segment() {
    // A segment along (3, 4), of length five units, whose line passes the
    // origin at a distance of two units.
    let s = seg(-16_000, 12_000, 14_000, 52_000);
    let (n, p, (t0, t1)) = DeduplicatorCore::<2>::linesegment_to_npt_form(s);
    assert_eq!(n.vs, [30_000, 40_000]);
    assert_eq!(p.vs, [-16_000, 12_000]);
    assert_eq!((t0, t1), (0, 50_000));
    let s = seg(-10_000, 20_000, 20_000, 60_000);
    let (n, p, (t0, t1)) = DeduplicatorCore::<2>::linesegment_to_npt_form(s);
    assert_eq!(n.vs, [30_000, 40_000]);
    assert_eq!(p.vs, [-16_000, 12_000]);
    assert_eq!((t0, t1), (10_000, 60_000));
}

#[test]
fn parameters_are_rounded_towards_zero() {
    // Along (1, 1) the parameter of (1, 0) is 0.707 and that of (3, 0) is 2.12.
    let (_, _, (t0, t1)) = DeduplicatorCore::<2>::linesegment_to_npt_form(seg(1, 0, 3, 2));
    assert_eq!((t0, t1), (0, 3));
    let (_, _, (t0, t1)) = DeduplicatorCore::<2>::linesegment_to_npt_form(seg(-3, 0, -1, 2));
    assert_eq!((t0, t1), (-2, 0));
}

#[test]
fn index_of_a_line() {
    let core: DeduplicatorCore<2> = DeduplicatorCore::new(600, 20);
    let b = core.np_to_bin_index(Point::from([30_000, 40_000]), Point::from([-16_000, 12_000]));
    // 0.6 and 0.8 times 600; -1.6 and 1.2 units times 20.
    assert_eq!(b.n, [360, 480]);
    assert_eq!(b.p, [-32, 24]);
    let b = core.np_to_bin_index(Point::from([-5, 5]), Point::from([UNIT / 40, -UNIT / 40]));
    // 600 / sqrt 2 is 424.26; half a bin rounds up, also below zero.
    assert_eq!(b.n, [-424, 424]);
    assert_eq!(b.p, [1, 0]);
    let b = core.np_to_bin_index(Point::from([0, -7]), Point::from([0, 0]));
    assert_eq!(b.n, [0, -600]);
}

#[test]
fn packed_indices_differ() {
    let a = BinIndex::<2> { n: [1, 2], p: [3, 4] };
    let b = BinIndex::<2> { n: [1, 2], p: [4, 3] };
    let c = BinIndex::<2> { n: [-1, -2], p: [3, 4] };
    assert_ne!(pack_index(&a), pack_index(&b));
    assert_ne!(pack_index(&a), pack_index(&c));
    assert_eq!(pack_index(&a), pack_index(&BinIndex::<2> { n: [1, 2], p: [3, 4] }));
    let zero = BinIndex::<2> { n: [0, 0], p: [0, 0] };
    assert_eq!(pack_index(&zero), 0x8000_0000_8000_0000_8000_0000_8000_0000u128);
}

#[test]
fn second_stage_over_a_stream() {
    let a = seg(0, 0, 100_000, 0);
    let input = vec![a, a.reverse(), seg(20_000, 0, 50_000, 0), a];
    let out = BinningLineMergerAndDeduplicator::new(600, 20).run(&input);
    assert_eq!(out.len(), 1);
    assert!(out[0].same(&a));
}

#[test]
fn second_stage_step_by_step() {
    let mut stage = BinningLineMergerAndDeduplicator::new(600, 20);
    stage.push(seg(0, 0, 0, 10_000));
    stage.push(seg(0, 5_000, 0, 30_000));
    let out = stage.finish();
    assert_eq!(out.len(), 1);
    assert!(out[0].same(&seg(0, 0, 0, 30_000)));
}

#[test]
fn insertion_loses_nothing_and_invents_nothing() {
    let before = [(0i64, 10_000i64), (20_000, 30_000), (50_000, 60_000)];
    let added = (9_500i64, 20_900i64);
    let mut set = set_of(&before);
    set.add_interval(iv(added.0, added.1));
    let after = spans(&set);
    assert_eq!(after, vec![(0, 30_000), (50_000, 60_000)]);
    let covered = |list: &[(i64, i64)], t: i64| list.iter().any(|&(a, b)| a <= t && t <= b);
    let reached =
        |list: &[(i64, i64)], t: i64| list.iter().any(|&(a, b)| a - 1_000 <= t && t <= b + 1_000);
    let mut t = -2_000;
    while t <= 62_000 {
        if covered(&before, t) || covered(&[added], t) {
            assert!(covered(&after, t));
        }
        if covered(&after, t) {
            assert!(reached(&before, t) || reached(&[added], t));
        }
        t += 100;
    }
}

#[test]
fn strokes_a_small_gap_apart_come_out_as_one() {
    let input = vec![seg(0, 0, 10_000, 0), seg(10_500, 0, 20_000, 0)];
    let out = BinningLineMergerAndDeduplicator::new(600, 20).run(&input);
    assert_eq!(out, vec![seg(0, 0, 20_000, 0)]);
    let input = vec![seg(10_500, 0, 20_000, 0), seg(0, 0, 10_000, 0)];
    let out = BinningLineMergerAndDeduplicator::new(600, 20).run(&input);
    assert_eq!(out, vec![seg(0, 0, 20_000, 0)]);
    let input = vec![seg(0, 0, 10_000, 0), seg(11_001, 0, 20_000, 0)];
    let out = BinningLineMergerAndDeduplicator::new(600, 20).run(&input);
    assert_eq!(out, vec![seg(0, 0, 10_000, 0), seg(11_001, 0, 20_000, 0)]);
}

#[test]
fn second_stage_does_not_depend_on_the_order_of_its_input() {
    let input = vec![
        seg(0, 0, 10_000, 0),
        seg(20_000, 0, 10_500, 0),
        seg(30_000, 0, 40_000, 0),
        seg(0, 5_000, 30_000, 45_000),
        seg(60_000, 85_000, 30_300, 45_400),
        seg(0, 0, 0, 70_000),
        seg(7, 7, 7, 7),
        seg(25_000, 0, 19_500, 0),
    ];
    let spans = |list: &[LineSegment<2>]| {
        let out = BinningLineMergerAndDeduplicator::new(600, 20).run(&list.to_vec());
        assert!(out.len() <= list.len());
        let mut all: Vec<[i64; 4]> = out
            .iter()
            .map(|s| {
                let (a, b) = (s.ps[0].vs, s.ps[1].vs);
                if a <= b {
                    [a[0], a[1], b[0], b[1]]
                } else {
                    [b[0], b[1], a[0], a[1]]
                }
            })
            .collect();
        all.sort();
        all
    };
    let expected = spans(&input);
    assert_eq!(
        expected,
        vec![[0, 0, 0, 70_000], [0, 0, 25_000, 0], [0, 5_000, 60_000, 85_000], [30_000, 0, 40_000, 0]]
    );
    let mut turned = input.clone();
    turned.reverse();
    assert_eq!(spans(&turned), expected);
    let mut mixed = input.clone();
    mixed.swap(0, 7);
    mixed.swap(1, 4);
    mixed.swap(2, 5);
    assert_eq!(spans(&mixed), expected);
    mixed.rotate_left(3);
    assert_eq!(spans(&mixed), expected);
}
