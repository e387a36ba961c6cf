use gnarled::n2::point::p2;
use gnarled::nbase::line_merger::{merge, LineMerger, JOIN_TOLERANCE_SQ};
use gnarled::nbase::line_segment::LineSegment;

fn seg(x0: i64, y0: i64, x1: i64, y1: i64) -> LineSegment<2> {
    LineSegment::new(p2(x0, y0), p2(x1, y1))
}

#[test]
fn merge_joins_a_segment_that_runs_on() {
    let joined = merge(&seg(0, 0, 10_000, 0), &seg(10_000, 0, 25_000, 0)).unwrap();
    assert!(joined.same(&seg(0, 0, 25_000, 0)));
}

#[test]
fn merge_accepts_a_start_within_the_tolerance() {
    // 500^2 + 300^2 = 340000 is within the tolerance of a million.
    let joined = merge(&seg(0, 0, 10_000, 0), &seg(10_500, 300, 25_000, 0)).unwrap();
    assert!(joined.same(&seg(0, 0, 25_000, 0)));
}

#[test]
fn merge_start_tolerance_is_exact() {
    assert_eq!(JOIN_TOLERANCE_SQ, 1_000_000);
    assert!(merge(&seg(0, 0, 10_000, 0), &seg(10_000, 1_000, 25_000, 0)).is_some());
    assert!(merge(&seg(0, 0, 10_000, 0), &seg(10_000, 1_001, 25_000, 0)).is_none());
}

#[test]
fn merge_puts_the_far_end_on_the_line_of_the_first() {
    let joined = merge(&seg(0, 0, 10_000, 0), &seg(10_000, 0, 25_000, 500)).unwrap();
    assert!(joined.same(&seg(0, 0, 25_000, 0)));
}

#[test]
fn merge_residual_tolerance_is_exact() {
    assert!(merge(&seg(0, 0, 10_000, 0), &seg(10_000, 0, 25_000, 1_000)).is_some());
    assert!(merge(&seg(0, 0, 10_000, 0), &seg(10_000, 0, 25_000, 1_001)).is_none());
}

#[test]
fn merge_rounds_the_extension_to_the_nearest_grid_point() {
    // The foot of (5, 3) on the line through (0, 0) and (3, 3) is (4, 4).
    let joined = merge(&seg(0, 0, 3, 3), &seg(3, 3, 5, 3)).unwrap();
    assert!(joined.same(&seg(0, 0, 4, 4)));
    // The foot of (10, 4) on the line through (0, 0) and (3, 1) is (10.2, 3.4).
    let joined = merge(&seg(0, 0, 3, 1), &seg(3, 1, 10, 4)).unwrap();
    assert!(joined.same(&seg(0, 0, 10, 3)));
}

#[test]
fn merge_never_goes_back() {
    assert!(merge(&seg(0, 0, 10_000, 0), &seg(10_000, 0, 5_000, 0)).is_none());
    // Not beyond the end of the first either.
    assert!(merge(&seg(0, 0, 10_000, 0), &seg(10_000, 0, 9_999, 0)).is_none());
    // The end of the first itself is far enough.
    let joined = merge(&seg(0, 0, 10_000, 0), &seg(10_000, 0, 10_000, 0)).unwrap();
    assert!(joined.same(&seg(0, 0, 10_000, 0)));
}

#[test]
fn merge_replaces_a_segment_without_length() {
    let second = seg(5, 5, 9, 9);
    let joined = merge(&seg(5, 5, 5, 5), &second).unwrap();
    assert!(joined.same(&second));
}

#[test]
fn merge_refuses_a_join_that_leaves_the_coordinate_range() {
    let max = gnarled::nbase::point::COORD_MAX;
    // The foot of the far end on the line of the first is 15 steps on in both
    // coordinates, five steps beyond the largest coordinate.
    assert!(merge(&seg(max - 10, -5, max - 6, -1), &seg(max - 6, -1, max, 15)).is_none());
    let joined = merge(&seg(max - 20, -5, max - 16, -1), &seg(max - 16, -1, max - 10, 15));
    assert!(joined.unwrap().same(&seg(max - 20, -5, max - 5, 10)));
}

#[test]
fn line_merger_joins_two_adjacent_segments_into_one() {
    let input = vec![seg(0, 0, 10_000, 0), seg(10_000, 0, 25_000, 0)];
    let out = LineMerger::new().run(&input);
    assert_eq!(out.len(), 1);
    assert!(out[0].same(&seg(0, 0, 25_000, 0)));
}

#[test]
fn line_merger_joins_a_run_of_pieces() {
    let whole = seg(0, 0, 30_000, 40_000);
    let input = whole.nsplit(10);
    let out = LineMerger::new().run(&input);
    assert_eq!(out.len(), 1);
    assert!(out[0].same(&whole));
}

#[test]
fn line_merger_sends_on_what_does_not_join() {
    let a = seg(0, 0, 10_000, 0);
    let b = seg(10_000, 0, 10_000, 10_000);
    let c = seg(50_000, 50_000, 60_000, 50_000);
    let out = LineMerger::new().run(&vec![a, b, c]);
    assert_eq!(out.len(), 3);
    assert!(out[0].same(&a));
    assert!(out[1].same(&b));
    assert!(out[2].same(&c));
}

#[test]
fn line_merger_depends_on_the_order_of_the_stream() {
    let a = seg(0, 0, 10_000, 0);
    let b = seg(10_000, 0, 20_000, 0);
    let out = LineMerger::new().run(&vec![b, a]);
    assert_eq!(out.len(), 2);
}

#[test]
fn line_merger_step_by_step() {
    let mut merger = LineMerger::new();
    assert!(merger.push(seg(0, 0, 10_000, 0)).is_none());
    assert!(merger.push(seg(10_000, 0, 20_000, 0)).is_none());
    let out = merger.push(seg(20_000, 0, 20_000, 10_000)).unwrap();
    assert!(out.same(&seg(0, 0, 20_000, 0)));
    let last = merger.finish().unwrap();
    assert!(last.same(&seg(20_000, 0, 20_000, 10_000)));
    assert!(merger.finish().is_none());
}

#[test]
fn line_merger_swallows_a_turn_that_is_shorter_than_the_tolerance() {
    // The far end of the second segment is 10 steps from the line of the
    // first, and not short of the first's far end: it joins, and its foot on
    // the line is the far end of the first.
    let mut merger = LineMerger::new();
    assert!(merger.push(seg(0, 0, 20, 0)).is_none());
    assert!(merger.push(seg(20, 0, 20, 10)).is_none());
    assert!(merger.finish().unwrap().same(&seg(0, 0, 20, 0)));
}

#[test]
fn line_merger_of_nothing_sends_nothing() {
    let out = LineMerger::new().run(&Vec::new());
    assert!(out.is_empty());
}

#[test]
fn join_is_no_shorter_than_the_first_and_ends_near_the_far_end_of_the_second() {
    let firsts = [seg(0, 0, 10_000, 0), seg(-3_000, 7_000, 4_000, -2_000), seg(5, 5, 12, 19)];
    let offsets = [(0, 0), (600, -800), (-999, 10), (0, 1_000)];
    let ends = [(25_000, 300), (9_000, -700), (10_400, 900), (-2_000, 0), (40_000, -40_000)];
    let mut joined = 0;
    for first in firsts.iter() {
        for off in offsets.iter() {
            for end in ends.iter() {
                let second = seg(
                    first.ps[1].vs[0] + off.0,
                    first.ps[1].vs[1] + off.1,
                    first.ps[1].vs[0] + end.0,
                    first.ps[1].vs[1] + end.1,
                );
                if let Some(r) = merge(first, &second) {
                    joined += 1;
                    assert_eq!(r.ps[0], first.ps[0]);
                    assert!(r.len2() >= first.len2());
                    assert!((r.ps[1].vs[0] - second.ps[1].vs[0]).abs() <= 1_000);
                    assert!((r.ps[1].vs[1] - second.ps[1].vs[1]).abs() <= 1_000);
                }
            }
        }
    }
    assert!(joined > 0);
}
