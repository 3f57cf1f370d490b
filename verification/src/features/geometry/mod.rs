use vstd::prelude::*;

pub mod circle;

verus! {

/// A pixel location.
#[derive(Debug, Clone, Copy, PartialEq, Eq)]
pub struct Point<T> {
    pub x: T,
    pub y: T,
}

/// A signed displacement from a pixel location.
#[derive(Debug, Clone, Copy, PartialEq, Eq)]
pub struct Offset {
    pub x: isize,
    pub y: isize,
}

/// The offsets of a sequence as pairs of mathematical integers.
pub open spec fn offset_pairs(s: Seq<Offset>) -> Seq<(int, int)> {
    s.map_values(|o: Offset| (o.x as int, o.y as int))
}

} // verus!
