//! Two small reusable primitives: a lazy enumerator that yields every
//! unordered pair of distinct elements of an ordered sequence, and a 2D
//! circle with two provably interchangeable collision predicates (one via
//! a true distance with a square root, one via squared distance).

pub mod circle;
pub mod pairs;
