use gnarled::n2::point::p2;
use gnarled::nbase::line_merger::polyline_merger::{cell_key_of, close, CELL};
use gnarled::nbase::line_merger::{merge_pl, BinningPolyLineMerger, StartOrEnd};
use gnarled::nbase::line_segment::LineSegment;
use gnarled::nbase::polyline::PolyLine;

fn seg(x0: i64, y0: i64, x1: i64, y1: i64) -> LineSegment<2> {
    LineSegment::new(p2(x0, y0), p2(x1, y1))
}

fn chain(points: &[(i64, i64)]) -> PolyLine<2> {
    PolyLine { ps: points.iter().map(|&(x, y)| p2(x, y)).collect() }
}

fn coords(pl: &PolyLine<2>) -> Vec<(i64, i64)> {
    pl.ps.iter().map(|p| (p.vs[0], p.vs[1])).collect()
}

fn run(input: &[LineSegment<2>]) -> Vec<Vec<(i64, i64)>> {
    let out = BinningPolyLineMerger::new().run(&input.to_vec());
    out.iter().map(coords).collect()
}

#[test]
fn merge_pl_joins_chains_that_meet() {
    let a = chain(&[(0, 0), (10, 0), (10, 10)]);
    let b = chain(&[(10, 10), (20, 10), (20, 20)]);
    let joined = merge_pl(&a, &b).unwrap();
    assert_eq!(coords(&joined), vec![(0, 0), (10, 0), (10, 10), (20, 10), (20, 20)]);
}

#[test]
fn merge_pl_keeps_the_shared_point_of_the_first() {
    let a = chain(&[(0, 0), (10_000, 0)]);
    let b = chain(&[(10_600, 800), (20_000, 0)]);
    let joined = merge_pl(&a, &b).unwrap();
    assert_eq!(coords(&joined), vec![(0, 0), (10_000, 0), (20_000, 0)]);
}

#[test]
fn merge_pl_tolerance_is_exact() {
    let a = chain(&[(0, 0), (10_000, 0)]);
    assert!(merge_pl(&a, &chain(&[(11_000, 0), (20_000, 0)])).is_some());
    assert!(merge_pl(&a, &chain(&[(11_001, 0), (20_000, 0)])).is_none());
    assert!(close(&p2(0, 0), &p2(600, 800)));
    assert!(!close(&p2(0, 0), &p2(600, 801)));
}

#[test]
fn merge_pl_of_single_points() {
    let joined = merge_pl(&chain(&[(5, 5)]), &chain(&[(5, 5)])).unwrap();
    assert_eq!(coords(&joined), vec![(5, 5)]);
}

#[test]
fn cell_of_a_point() {
    assert_eq!(CELL, 100);
    assert_eq!(cell_key_of(&p2(0, 0)), 0);
    assert_eq!(cell_key_of(&p2(99, 99)), 0);
    assert_eq!(cell_key_of(&p2(100, 99)), 1u128 << 64);
    assert_eq!(cell_key_of(&p2(250, 1_234)), (2u128 << 64) + 12);
    // Everything below zero falls in cell zero.
    assert_eq!(cell_key_of(&p2(-1, -100_000)), 0);
    assert_eq!(cell_key_of(&p2(-5, 300)), 3);
}

#[test]
fn segments_in_a_row_become_one_chain() {
    let out = run(&[seg(0, 0, 10_000, 0), seg(10_000, 0, 10_000, 10_000), seg(10_000, 10_000, 0, 10_000)]);
    assert_eq!(out, vec![vec![(0, 0), (10_000, 0), (10_000, 10_000), (0, 10_000)]]);
}

#[test]
fn segment_is_spliced_in_front_of_a_chain_that_starts_at_its_end() {
    let out = run(&[seg(10_000, 0, 20_000, 0), seg(0, 0, 10_000, 0)]);
    assert_eq!(out, vec![vec![(0, 0), (10_000, 0), (20_000, 0)]]);
}

#[test]
fn stored_chain_is_reversed_where_the_ends_ask_for_it() {
    // The second segment ends where the first ends.
    let out = run(&[seg(0, 0, 10_000, 0), seg(10_000, 10_000, 10_000, 0)]);
    assert_eq!(out, vec![vec![(10_000, 10_000), (10_000, 0), (0, 0)]]);
    // The second segment starts where the first starts.
    let out = run(&[seg(0, 0, 10_000, 0), seg(0, 0, 0, 10_000)]);
    assert_eq!(out, vec![vec![(10_000, 0), (0, 0), (0, 10_000)]]);
}

#[test]
fn segment_joins_two_chains() {
    let out = run(&[
        seg(0, 0, 10_000, 0),
        seg(20_000, 0, 30_000, 0),
        seg(10_000, 0, 20_000, 0),
    ]);
    assert_eq!(out, vec![vec![(0, 0), (10_000, 0), (20_000, 0), (30_000, 0)]]);
}

#[test]
fn chains_that_do_not_meet_stay_apart() {
    let out = run(&[seg(0, 0, 10_000, 0), seg(0, 50_000, 10_000, 50_000)]);
    assert_eq!(out, vec![vec![(0, 0), (10_000, 0)], vec![(0, 50_000), (10_000, 50_000)]]);
}

#[test]
fn ends_in_the_same_cell_meet_only_within_the_tolerance() {
    // Both ends fall in cell zero, far from one another.
    let out = run(&[seg(-50_000, -50_000, 0, 500_000), seg(-900_000, -1, 77, 88_888)]);
    assert_eq!(out.len(), 2);
    // Two ends within the tolerance but in different cells do not meet.
    let out = run(&[seg(0, 0, 10_099, 0), seg(10_100, 0, 20_000, 0)]);
    assert_eq!(out.len(), 2);
    // Within the tolerance and in the same cell they do.
    let out = run(&[seg(0, 0, 10_001, 0), seg(10_099, 0, 20_000, 0)]);
    assert_eq!(out, vec![vec![(0, 0), (10_001, 0), (20_000, 0)]]);
}

#[test]
fn absorbed_chains_leave_tombstones() {
    let mut merger = BinningPolyLineMerger::new();
    merger.push(seg(0, 0, 10_000, 0));
    merger.push(seg(10_000, 0, 20_000, 0));
    merger.push(seg(20_000, 0, 30_000, 0));
    assert_eq!(merger.entries.len(), 3);
    assert!(merger.entries[0].is_none());
    assert!(merger.entries[1].is_none());
    assert_eq!(
        coords(merger.entries[2].as_ref().unwrap()),
        vec![(0, 0), (10_000, 0), (20_000, 0), (30_000, 0)]
    );
    // The registration through which a chain was found is a tombstone; the
    // registration of its other end stays, and refers to a tombstone.
    let at_ten = &merger.nodes[&cell_key_of(&p2(10_000, 0))];
    assert!(at_ten[0].is_none());
    let at_zero = &merger.nodes[&cell_key_of(&p2(0, 0))];
    assert!(matches!(at_zero[0], Some((StartOrEnd::Start, 0))));
    assert!(matches!(at_zero[2], Some((StartOrEnd::Start, 2))));
    let out = merger.finish();
    assert_eq!(out.len(), 1);
}

#[test]
fn every_segment_becomes_one_link() {
    let input = vec![
        seg(0, 0, 10_000, 0),
        seg(30_000, 0, 20_000, 0),
        seg(10_000, 0, 10_000, 10_000),
        seg(10_000, 0, 20_000, 0),
        seg(70_000, 70_000, 80_000, 70_000),
        seg(0, 0, 0, 10_000),
        seg(80_000, 70_000, 70_000, 70_000),
    ];
    let out = BinningPolyLineMerger::new().run(&input);
    let links: usize = out.iter().map(|pl| pl.ps.len() - 1).sum();
    assert_eq!(links, input.len());
}

#[test]
fn third_stage_of_nothing_gives_nothing() {
    assert!(run(&[]).is_empty());
}

#[test]
fn closed_square_becomes_one_chain() {
    let out = run(&[
        seg(0, 0, 10_000, 0),
        seg(10_000, 0, 10_000, 10_000),
        seg(10_000, 10_000, 0, 10_000),
        seg(0, 10_000, 0, 0),
    ]);
    assert_eq!(out.len(), 1);
    assert_eq!(out[0].len(), 5);
    assert_eq!(out[0][0], out[0][4]);
}

#[test]
fn every_chain_that_is_left_can_be_found_through_both_ends() {
    let mut merger = BinningPolyLineMerger::new();
    for s in [
        seg(0, 0, 10_000, 0),
        seg(30_000, 0, 20_000, 0),
        seg(10_000, 0, 10_000, 10_000),
        seg(10_000, 0, 20_000, 0),
        seg(70_000, 70_000, 80_000, 70_000),
    ] {
        merger.push(s);
    }
    for (idx, entry) in merger.entries.iter().enumerate() {
        if let Some(pl) = entry {
            let first = &merger.nodes[&cell_key_of(&pl.ps[0])];
            assert!(first.iter().any(|e| matches!(e, Some((StartOrEnd::Start, i)) if *i == idx)));
            let last = &merger.nodes[&cell_key_of(&pl.ps[pl.ps.len() - 1])];
            assert!(last.iter().any(|e| matches!(e, Some((StartOrEnd::End, i)) if *i == idx)));
        }
    }
}

#[test]
fn every_link_stands_for_a_segment_of_the_input() {
    let input = vec![
        seg(0, 0, 10_000, 0),
        seg(10_600, 800, 20_000, 5_000),
        seg(30_000, 0, 20_050, 5_020),
        seg(0, 0, -300, 9_000),
        seg(70_000, 70_000, 80_000, 70_000),
        seg(-350, 9_040, 40_000, 40_000),
    ];
    let out = BinningPolyLineMerger::new().run(&input);
    let near = |p: [i64; 2], q: [i64; 2]| {
        let (dx, dy) = (p[0] - q[0], p[1] - q[1]);
        dx * dx + dy * dy <= 1_000_000
    };
    let mut links = 0;
    for pl in out.iter() {
        let n = pl.ps.len();
        for w in pl.ps.windows(2) {
            links += 1;
            let (p, q) = (w[0].vs, w[1].vs);
            assert!(input.iter().any(|s| {
                let (a, b) = (s.ps[0].vs, s.ps[1].vs);
                (near(p, a) && near(q, b)) || (near(p, b) && near(q, a))
            }));
        }
        // The ends of a polyline are ends of segments of the input.
        assert!(input.iter().any(|s| s.ps[0] == pl.ps[0] || s.ps[1] == pl.ps[0]));
        assert!(input.iter().any(|s| s.ps[0] == pl.ps[n - 1] || s.ps[1] == pl.ps[n - 1]));
    }
    assert_eq!(links, input.len());
    assert!(out.len() < input.len());
}
