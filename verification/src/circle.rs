//! A 2D circle over fixed-point coordinates, with two mathematically
//! equivalent collision predicates: one through the true (floor) distance,
//! which takes a square root, and one through the squared distance, which
//! avoids it. The equivalence of the two is proved in
//! [`lemma_intersects_agree`].
//!
//! Coordinates and radii are integers in fixed-point units of one
//! thousandth, so that a circle of radius one half is written with
//! `r == 500`. Magnitudes are capped at [`COORD_LIMIT`] units; within that
//! cap every squared distance fits an `i64`.

use vstd::prelude::*;

use crate::pairs::index_pairs;
use crate::pairs::PairsIter;

verus! {

/// The number of fixed-point units in one whole unit of length.
pub const UNIT: i64 = 1000;

/// The largest magnitude a coordinate or radius may have: with every
/// coordinate in `[-COORD_LIMIT, COORD_LIMIT]`, a squared distance is at
/// most `8 * COORD_LIMIT^2 < i64::MAX`.
pub const COORD_LIMIT: i64 = 1_000_000_000;

/// The square of an integer.
pub open spec fn sq(n: int) -> int {
    n * n
}

/// `r` is the floor of the real square root of `d`: the greatest integer
/// whose square does not exceed `d`.
pub open spec fn is_sqrt_floor(r: int, d: int) -> bool {
    0 <= r && sq(r) <= d < sq(r + 1)
}

/// The floor of the real square root of `d`, for `d >= 0`.
pub open spec fn sqrt_floor(d: int) -> int {
    choose|r: int| is_sqrt_floor(r, d)
}

/// An immutable circle: a centre and a radius, freely copied, compared by
/// value. The radius is expected non-negative but not enforced; the
/// equivalence of the two collision predicates is stated for non-negative
/// radii only.
#[derive(Copy, Clone, PartialEq, Eq, Structural, Debug)]
pub struct Circle {
    pub x: i64,
    pub y: i64,
    pub r: i64,
}

/// The squared Euclidean distance between the centres of `a` and `b`.
pub open spec fn spec_dist_sq(a: Circle, b: Circle) -> int {
    sq(a.x - b.x) + sq(a.y - b.y)
}

/// The floor of the Euclidean distance between the centres of `a` and `b`.
pub open spec fn spec_dist(a: Circle, b: Circle) -> int {
    sqrt_floor(spec_dist_sq(a, b))
}

/// What `Circle::intersects` decides: the distance between the centres is
/// strictly below the sum of the radii. Circles that touch exactly do not
/// intersect.
pub open spec fn spec_intersects(a: Circle, b: Circle) -> bool {
    spec_dist(a, b) < a.r + b.r
}

/// What `Circle::intersects_sq` decides: the squared distance between the
/// centres is strictly below the square of the sum of the radii.
pub open spec fn spec_intersects_sq(a: Circle, b: Circle) -> bool {
    spec_dist_sq(a, b) < sq(a.r + b.r)
}

impl Circle {
    /// All three fields within [`COORD_LIMIT`] in magnitude, so that the
    /// distance arithmetic cannot overflow.
    pub open spec fn in_bounds(self) -> bool {
        &&& -COORD_LIMIT <= self.x <= COORD_LIMIT
        &&& -COORD_LIMIT <= self.y <= COORD_LIMIT
        &&& -COORD_LIMIT <= self.r <= COORD_LIMIT
    }

    /// A circle at `(x, y)` with radius `r`.
    pub fn new(x: i64, y: i64, r: i64) -> (c: Circle)
        ensures
            c == (Circle { x, y, r }),
    {
        Circle { x, y, r }
    }

    /// The squared distance between the centres; never negative.
    pub fn dist_sq(&self, other: &Circle) -> (d: i64)
        requires
            self.in_bounds(),
            other.in_bounds(),
        ensures
            d == spec_dist_sq(*self, *other),
            0 <= d <= 8_000_000_000_000_000_000,
    {
        let dx = self.x - other.x;
        let dy = self.y - other.y;
        proof {
            assert(0 <= dx * dx <= 4_000_000_000_000_000_000 && 0 <= dy * dy
                <= 4_000_000_000_000_000_000) by (nonlinear_arith)
                requires
                    -2_000_000_000 <= dx <= 2_000_000_000,
                    -2_000_000_000 <= dy <= 2_000_000_000,
            ;
        }
        (dx * dx) + (dy * dy)
    }

    /// The distance between the centres, rounded down to a whole number of
    /// fixed-point units.
    pub fn dist(&self, other: &Circle) -> (d: i64)
        requires
            self.in_bounds(),
            other.in_bounds(),
        ensures
            d == spec_dist(*self, *other),
            is_sqrt_floor(d as int, spec_dist_sq(*self, *other)),
    {
        let d2 = self.dist_sq(other);
        let root = isqrt(d2 as u64);
        proof {
            lemma_sqrt_floor_unique(root as int, sqrt_floor(d2 as int), d2 as int);
        }
        root as i64
    }

    /// Whether the two circles overlap in more than a single point,
    /// decided through the true (floor) distance.
    pub fn intersects(&self, other: &Circle) -> (b: bool)
        requires
            self.in_bounds(),
            other.in_bounds(),
        ensures
            b == spec_intersects(*self, *other),
    {
        self.dist(other) < self.r + other.r
    }

    /// Whether the two circles overlap in more than a single point,
    /// decided through the squared distance, with no square root taken.
    pub fn intersects_sq(&self, other: &Circle) -> (b: bool)
        requires
            self.in_bounds(),
            other.in_bounds(),
        ensures
            b == spec_intersects_sq(*self, *other),
    {
        let d2 = self.dist_sq(other);
        let s = self.r + other.r;
        proof {
            assert(-4_000_000_000_000_000_000 <= s * s <= 4_000_000_000_000_000_000)
                by (nonlinear_arith)
                requires
                    -2_000_000_000 <= s <= 2_000_000_000,
            ;
        }
        d2 < s * s
    }
}

/// The floor of the square root of `d`, found by binary search on the
/// answer.
pub fn isqrt(d: u64) -> (r: u64)
    ensures
        is_sqrt_floor(r as int, d as int),
        r <= 0xFFFF_FFFF,
{
    let mut lo: u64 = 0;
    let mut hi: u64 = 0x1_0000_0000;
    proof {
        assert(sq(0x1_0000_0000) == 0x1_0000_0000_0000_0000) by (nonlinear_arith);
    }
    while lo + 1 < hi
        invariant
            lo < hi <= 0x1_0000_0000,
            sq(lo as int) <= d as int,
            (d as int) < sq(hi as int),
        decreases hi - lo,
    {
        let mid = lo + (hi - lo) / 2;
        proof {
            assert(mid * mid < 0x1_0000_0000_0000_0000) by (nonlinear_arith)
                requires
                    mid < 0x1_0000_0000,
            ;
        }
        if mid * mid <= d {
            lo = mid;
        } else {
            hi = mid;
        }
    }
    lo
}

/// The floor square root of a number is unique.
proof fn lemma_sqrt_floor_unique(r1: int, r2: int, d: int) by (nonlinear_arith)
    requires
        is_sqrt_floor(r1, d),
        is_sqrt_floor(r2, d),
    ensures
        r1 == r2,
{
}

/// Every non-negative number has a floor square root, returned here as a
/// witness.
proof fn lemma_sqrt_floor_exists(d: int) -> (r: int)
    requires
        d >= 0,
    ensures
        is_sqrt_floor(r, d),
        sqrt_floor(d) == r,
    decreases d,
{
    let r = if d == 0 {
        0
    } else {
        let r0 = lemma_sqrt_floor_exists(d - 1);
        if sq(r0 + 1) <= d {
            assert(is_sqrt_floor(r0 + 1, d)) by (nonlinear_arith)
                requires
                    is_sqrt_floor(r0, d - 1),
                    sq(r0 + 1) <= d,
                    d == (d - 1) + 1,
            ;
            r0 + 1
        } else {
            r0
        }
    };
    lemma_sqrt_floor_unique(r, sqrt_floor(d), d);
    r
}

/// Squaring is monotonic on the non-negative integers.
proof fn lemma_sq_monotone(a: int, b: int) by (nonlinear_arith)
    requires
        0 <= a <= b,
    ensures
        sq(a) <= sq(b),
{
}

/// Law: for circles in bounds with non-negative radii, the two collision
/// predicates agree, because squaring is monotonic on non-negative
/// numbers. The squared form exists purely to avoid a square root in hot
/// loops while staying interchangeable for the intersection decision.
pub proof fn lemma_intersects_agree(a: Circle, b: Circle)
    requires
        a.in_bounds(),
        b.in_bounds(),
        a.r >= 0,
        b.r >= 0,
    ensures
        spec_intersects(a, b) == spec_intersects_sq(a, b),
{
    let d2 = spec_dist_sq(a, b);
    let s = a.r + b.r;
    let dx = a.x - b.x;
    let dy = a.y - b.y;
    assert(dx * dx >= 0 && dy * dy >= 0) by (nonlinear_arith);
    assert(d2 >= 0);
    let d = lemma_sqrt_floor_exists(d2);
    if d < s {
        lemma_sq_monotone(d + 1, s);
    } else {
        lemma_sq_monotone(s, d);
    }
}

/// Law: circles that touch exactly, the distance between the centres
/// equal to the sum of the radii, intersect under neither predicate: both
/// comparisons are strict.
pub proof fn lemma_touching_is_no_intersection(a: Circle, b: Circle)
    requires
        a.in_bounds(),
        b.in_bounds(),
        a.r >= 0,
        b.r >= 0,
        spec_dist_sq(a, b) == sq(a.r + b.r),
    ensures
        !spec_intersects(a, b),
        !spec_intersects_sq(a, b),
        spec_dist(a, b) == a.r + b.r,
{
    let s = a.r + b.r;
    assert(is_sqrt_floor(s, sq(s))) by (nonlinear_arith)
        requires
            s >= 0,
    ;
    let w = lemma_sqrt_floor_exists(sq(s));
    lemma_sqrt_floor_unique(s, w, sq(s));
}

/// Relies on rand::Rng::gen_range over an `i64` range: it panics on an
/// empty range and otherwise returns a uniformly drawn value inside it,
/// the upper bound excluded.
#[verifier::external_body]
fn sample_range(lo: i64, hi: i64) -> (v: i64)
    requires
        lo < hi,
    ensures
        lo <= v < hi,
{
    rand::Rng::gen_range(&mut rand::thread_rng(), lo..hi)
}

impl Circle {
    /// A random fixture circle: the centre uniform over the ten-by-ten
    /// unit square, the radius uniform between a tenth of a unit and a
    /// whole one.
    pub fn random() -> (c: Circle)
        ensures
            c.in_bounds(),
            0 <= c.x < 10 * UNIT,
            0 <= c.y < 10 * UNIT,
            UNIT / 10 <= c.r < UNIT,
    {
        Circle {
            x: sample_range(0, 10 * UNIT),
            y: sample_range(0, 10 * UNIT),
            r: sample_range(UNIT / 10, UNIT),
        }
    }
}

/// How many of the index pairs in `ps` name a pair of circles of `cs`
/// that intersect, decided through the true distance.
pub open spec fn spec_intersection_count(cs: Seq<Circle>, ps: Seq<(int, int)>) -> int
    decreases ps.len(),
{
    if ps.len() == 0 {
        0
    } else {
        (if spec_intersects(cs[ps[0].0], cs[ps[0].1]) {
            1int
        } else {
            0int
        }) + spec_intersection_count(cs, ps.drop_first())
    }
}

/// How many of the index pairs in `ps` name a pair of circles of `cs`
/// that intersect, decided through the squared distance.
pub open spec fn spec_intersection_count_sq(cs: Seq<Circle>, ps: Seq<(int, int)>) -> int
    decreases ps.len(),
{
    if ps.len() == 0 {
        0
    } else {
        (if spec_intersects_sq(cs[ps[0].0], cs[ps[0].1]) {
            1int
        } else {
            0int
        }) + spec_intersection_count_sq(cs, ps.drop_first())
    }
}

/// The number of intersecting pairs among all unordered pairs of
/// `circles`, each pair decided through the true (floor) distance.
pub fn count_intersections(circles: &[Circle]) -> (count: u64)
    requires
        circles@.len() <= 0xFFFF_FFFF,
        forall|i: int| 0 <= i < circles@.len() ==> (#[trigger] circles@[i]).in_bounds(),
    ensures
        count == spec_intersection_count(circles@, index_pairs(circles@.len() as int)),
{
    let ghost cs = circles@;
    let ghost total = index_pairs(cs.len() as int);
    proof {
        crate::pairs::lemma_index_pairs_complete(cs.len() as int);
        assert(cs.len() * (cs.len() - 1) / 2 < 0x8000_0000_0000_0000) by (nonlinear_arith)
            requires
                cs.len() <= 0xFFFF_FFFF,
        ;
    }
    let mut it = PairsIter::new(circles);
    let mut count: u64 = 0;
    loop
        invariant_except_break
            it.wf(),
            it.elts() == cs,
            it.remaining().len() <= total.len(),
            forall|i: int| 0 <= i < cs.len() ==> (#[trigger] cs[i]).in_bounds(),
            total == index_pairs(cs.len() as int),
            total.len() < 0x8000_0000_0000_0000,
            count <= total.len() - it.remaining().len(),
            count + spec_intersection_count(cs, it.remaining()) == spec_intersection_count(
                cs,
                total,
            ),
        ensures
            count == spec_intersection_count(cs, total),
        decreases it.remaining().len(),
    {
        match it.next() {
            None => {
                break ;
            },
            Some((a, b)) => {
                if a.intersects(b) {
                    count = count + 1;
                }
            },
        }
    }
    count
}

/// The number of intersecting pairs among all unordered pairs of
/// `circles`, each pair decided through the squared distance, with no
/// square root taken.
pub fn count_intersections_sq(circles: &[Circle]) -> (count: u64)
    requires
        circles@.len() <= 0xFFFF_FFFF,
        forall|i: int| 0 <= i < circles@.len() ==> (#[trigger] circles@[i]).in_bounds(),
    ensures
        count == spec_intersection_count_sq(circles@, index_pairs(circles@.len() as int)),
{
    let ghost cs = circles@;
    let ghost total = index_pairs(cs.len() as int);
    proof {
        crate::pairs::lemma_index_pairs_complete(cs.len() as int);
        assert(cs.len() * (cs.len() - 1) / 2 < 0x8000_0000_0000_0000) by (nonlinear_arith)
            requires
                cs.len() <= 0xFFFF_FFFF,
        ;
    }
    let mut it = PairsIter::new(circles);
    let mut count: u64 = 0;
    loop
        invariant_except_break
            it.wf(),
            it.elts() == cs,
            it.remaining().len() <= total.len(),
            forall|i: int| 0 <= i < cs.len() ==> (#[trigger] cs[i]).in_bounds(),
            total == index_pairs(cs.len() as int),
            total.len() < 0x8000_0000_0000_0000,
            count <= total.len() - it.remaining().len(),
            count + spec_intersection_count_sq(cs, it.remaining()) == spec_intersection_count_sq(
                cs,
                total,
            ),
        ensures
            count == spec_intersection_count_sq(cs, total),
        decreases it.remaining().len(),
    {
        match it.next() {
            None => {
                break ;
            },
            Some((a, b)) => {
                if a.intersects_sq(b) {
                    count = count + 1;
                }
            },
        }
    }
    count
}

proof fn lemma_counts_agree_on(cs: Seq<Circle>, ps: Seq<(int, int)>)
    requires
        forall|k: int|
            0 <= k < ps.len() ==> 0 <= (#[trigger] ps[k]).0 < cs.len() && 0 <= ps[k].1 < cs.len(),
        forall|i: int|
            0 <= i < cs.len() ==> (#[trigger] cs[i]).in_bounds() && cs[i].r >= 0,
    ensures
        spec_intersection_count(cs, ps) == spec_intersection_count_sq(cs, ps),
    decreases ps.len(),
{
    if ps.len() > 0 {
        lemma_intersects_agree(cs[ps[0].0], cs[ps[0].1]);
        assert(forall|k: int|
            0 <= k < ps.drop_first().len() ==> #[trigger] ps.drop_first()[k] == ps[k + 1]);
        lemma_counts_agree_on(cs, ps.drop_first());
    }
}

/// Law: over any sequence of in-bounds circles with non-negative radii,
/// the two predicates count exactly the same number of intersecting
/// pairs, whichever way every single pair is decided.
pub proof fn lemma_counts_agree(cs: Seq<Circle>)
    requires
        cs.len() <= 0xFFFF_FFFF,
        forall|i: int|
            0 <= i < cs.len() ==> (#[trigger] cs[i]).in_bounds() && cs[i].r >= 0,
    ensures
        spec_intersection_count(cs, index_pairs(cs.len() as int)) == spec_intersection_count_sq(
            cs,
            index_pairs(cs.len() as int),
        ),
{
    crate::pairs::lemma_index_pairs_complete(cs.len() as int);
    lemma_counts_agree_on(cs, index_pairs(cs.len() as int));
}

/// Law: both distances and both collision predicates are symmetric in
/// their two circles.
pub proof fn lemma_symmetry(a: Circle, b: Circle)
    ensures
        spec_dist_sq(a, b) == spec_dist_sq(b, a),
        spec_dist(a, b) == spec_dist(b, a),
        spec_intersects(a, b) == spec_intersects(b, a),
        spec_intersects_sq(a, b) == spec_intersects_sq(b, a),
{
    assert(spec_dist_sq(a, b) == spec_dist_sq(b, a)) by (nonlinear_arith);
}

} // verus!
