use gnarled::n2::point::p2;
use gnarled::nbase::line_merger::merge_and_deduplicate::DeduplicatorCore;
use gnarled::nbase::line_segment::LineSegment;
use gnarled::nbase::point::UNIT;

#[test]
pub fn decimate_linesegment_horiz() {
    let mut deduplicator: DeduplicatorCore<2> = DeduplicatorCore::new(600, 20);
    let linesegment = LineSegment { ps: [p2(50 * UNIT, 50 * UNIT), p2(51 * UNIT, 50 * UNIT)] };
    for l in linesegment.nsplit(10) {
        deduplicator.add_linesegment(l);
    }
    let linesegments = deduplicator.segments();
    assert_eq!(linesegments.len(), 1);
    assert_eq!(linesegments, vec![linesegment]);
}

#[test]
pub fn decimate_linesegment_vert() {
    let mut deduplicator: DeduplicatorCore<2> = DeduplicatorCore::new(600, 20);
    let linesegment = LineSegment { ps: [p2(50 * UNIT, 50 * UNIT), p2(50 * UNIT, 51 * UNIT)] };
    for l in linesegment.nsplit(10) {
        deduplicator.add_linesegment(l);
    }
    let linesegments = deduplicator.segments();
    assert_eq!(linesegments.len(), 1);
    assert_eq!(linesegments, vec![linesegment]);
}
