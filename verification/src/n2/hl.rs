//! Fields of numbers over the plane, for shading by hatching.
use crate::n2::point::Point;
use std::collections::hash_map::DefaultHasher;
use std::hash::Hasher;
use vstd::prelude::*;
use vstd::std_specs::hash::DefaultHasherAdditionalSpecFns;

verus! {

/// The number of values that a field distinguishes.
pub const FIELD_RESOLUTION: u64 = 4096;

/// A field that gives every point of the plane a value from 0 to 4095,
/// which stands for the fraction of 4095 that it is.
pub trait RandomField2D {
    /// The value at a point.
    spec fn value_at(&self, p: Point) -> u64;

    /// The value at a point.
    fn at(&self, p: Point) -> (v: u64)
        ensures
            v == self.value_at(p),
            v < FIELD_RESOLUTION,
    ;
}

/// The eight bytes of a coordinate, most significant first. The coordinate
/// is counted from the smallest coordinate there is, so that it is not
/// negative.
pub open spec fn coordinate_bytes(c: i64) -> Seq<u8> {
    let v = c + 0x8000_0000_0000_0000;
    seq![
        ((v / 0x100_0000_0000_0000) % 256) as u8,
        ((v / 0x1_0000_0000_0000) % 256) as u8,
        ((v / 0x100_0000_0000) % 256) as u8,
        ((v / 0x1_0000_0000) % 256) as u8,
        ((v / 0x100_0000) % 256) as u8,
        ((v / 0x1_0000) % 256) as u8,
        ((v / 0x100) % 256) as u8,
        (v % 256) as u8,
    ]
}

/// The eight bytes of a coordinate, most significant first.
fn coordinate_bytes_of(c: i64) -> (b: [u8; 8])
    ensures
        b@ == coordinate_bytes(c),
{
    let v: u64 = (c as i128 + 0x8000_0000_0000_0000) as u64;
    let b = [
        ((v / 0x100_0000_0000_0000) % 256) as u8,
        ((v / 0x1_0000_0000_0000) % 256) as u8,
        ((v / 0x100_0000_0000) % 256) as u8,
        ((v / 0x1_0000_0000) % 256) as u8,
        ((v / 0x100_0000) % 256) as u8,
        ((v / 0x1_0000) % 256) as u8,
        ((v / 0x100) % 256) as u8,
        (v % 256) as u8,
    ];
    assert(b@ =~= coordinate_bytes(c));
    b
}

/// The field whose value at a point is the hash of the coordinates of the
/// point.
pub struct DefaultHasherRandField2D {}

impl RandomField2D for DefaultHasherRandField2D {
    open spec fn value_at(&self, p: Point) -> u64 {
        (DefaultHasher::spec_finish(seq![coordinate_bytes(p.vs[0]), coordinate_bytes(p.vs[1])])
            % FIELD_RESOLUTION) as u64
    }

    fn at(&self, p: Point) -> (v: u64) {
        let mut h = DefaultHasher::new();
        let bx = coordinate_bytes_of(p.vs[0]);
        let by = coordinate_bytes_of(p.vs[1]);
        h.write(&bx);
        h.write(&by);
        let v = h.finish();
        assert(h@ =~= seq![coordinate_bytes(p.vs[0]), coordinate_bytes(p.vs[1])]);
        v % FIELD_RESOLUTION
    }
}

} // verus!
