use gnarled::n2::point::p2;
use gnarled::nbase::line_merger::BinningLineMerger;
use gnarled::nbase::line_segment::LineSegment;

fn seg(x0: i64, y0: i64, x1: i64, y1: i64) -> LineSegment<2> {
    LineSegment::new(p2(x0, y0), p2(x1, y1))
}

fn run(input: &[LineSegment<2>]) -> Vec<LineSegment<2>> {
    BinningLineMerger::new().run(&input.to_vec())
}

#[test]
fn segments_on_one_line_join_in_any_order() {
    let out = run(&[seg(0, 0, 10_000, 0), seg(20_000, 0, 30_000, 0), seg(10_000, 0, 20_000, 0)]);
    assert_eq!(out, vec![seg(0, 0, 30_000, 0)]);
    let out = run(&[seg(20_000, 0, 30_000, 0), seg(10_000, 0, 20_000, 0), seg(0, 0, 10_000, 0)]);
    assert_eq!(out, vec![seg(0, 0, 30_000, 0)]);
}

#[test]
fn segments_that_turn_do_not_join() {
    let a = seg(0, 0, 10_000, 0);
    let b = seg(10_000, 0, 10_000, 10_000);
    assert_eq!(run(&[a, b]), vec![a, b]);
}

#[test]
fn stored_segment_is_turned_round_where_the_ends_ask_for_it() {
    // The stored segment starts where the new one starts: turned round, it
    // is continued by the new one.
    let out = run(&[seg(10_000, 0, 0, 0), seg(10_000, 0, 20_000, 0)]);
    assert_eq!(out, vec![seg(0, 0, 20_000, 0)]);
    // The stored segment ends where the new one ends: turned round, it
    // continues the new one.
    let out = run(&[seg(30_000, 0, 20_000, 0), seg(10_000, 0, 20_000, 0)]);
    assert_eq!(out, vec![seg(10_000, 0, 30_000, 0)]);
}

#[test]
fn joined_segments_leave_tombstones() {
    let mut merger = BinningLineMerger::new();
    merger.push(seg(0, 0, 10_000, 0));
    merger.push(seg(10_000, 0, 20_000, 0));
    assert_eq!(merger.entries, vec![None, Some(seg(0, 0, 20_000, 0))]);
    assert_eq!(merger.finish(), vec![seg(0, 0, 20_000, 0)]);
}

#[test]
fn segment_merger_of_nothing_gives_nothing() {
    assert!(run(&[]).is_empty());
}
