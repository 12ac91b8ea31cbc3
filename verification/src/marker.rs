//! Half-open byte ranges over the segments of a byte stream.

use vstd::prelude::*;

verus! {

/// A half-open range over a possibly multi-segment byte stream: `pos1` is
/// the inclusive start, `pos2` the exclusive end, each a pair of segment
/// index and byte offset.
#[derive(Copy, Clone, Debug)]
pub struct Marker {
    pub pos1: (usize, usize),
    pub pos2: (usize, usize),
}

impl Marker {
    /// A marker from `pos1` (inclusive) to `pos2` (exclusive).
    pub fn new(pos1: (usize, usize), pos2: (usize, usize)) -> (r: Marker)
        ensures
            r.pos1 == pos1,
            r.pos2 == pos2,
    {
        Marker { pos1, pos2 }
    }
}

} // verus!
