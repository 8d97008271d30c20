//! Lazy enumeration of all unordered pairs of distinct positions of a
//! borrowed slice, in lexicographic order of the index pair `(i, j)` with
//! `i < j`.

use vstd::prelude::*;

verus! {

/// The row of index pairs `(i, lo), (i, lo + 1), ..., (i, n - 1)`.
pub open spec fn pair_row(i: int, lo: int, n: int) -> Seq<(int, int)> {
    if lo <= n {
        Seq::new((n - lo) as nat, |k: int| (i, lo + k))
    } else {
        Seq::empty()
    }
}

/// All index pairs `(a, b)` with `i <= a < b < n`, in lexicographic order:
/// first the whole row of `a == i`, then the rows of the larger `a`.
pub open spec fn index_pairs_from(i: int, n: int) -> Seq<(int, int)>
    decreases n - i,
{
    if i >= n - 1 {
        Seq::empty()
    } else {
        pair_row(i, i + 1, n) + index_pairs_from(i + 1, n)
    }
}

/// All index pairs `(a, b)` with `0 <= a < b < n`, in lexicographic order.
/// This is the whole sequence that a fresh enumerator over a slice of
/// length `n` yields.
pub open spec fn index_pairs(n: int) -> Seq<(int, int)> {
    index_pairs_from(0, n)
}

/// The number of unordered pairs of `n` distinct positions, written as a
/// recurrence; `lemma_choose2_closed_form` relates it to `n * (n - 1) / 2`.
pub open spec fn choose2(n: int) -> int
    decreases n,
{
    if n <= 1 {
        0
    } else {
        (n - 1) + choose2(n - 1)
    }
}

/// Strict lexicographic order on index pairs.
pub open spec fn lex_lt(p: (int, int), q: (int, int)) -> bool {
    p.0 < q.0 || (p.0 == q.0 && p.1 < q.1)
}

proof fn lemma_index_pairs_from_len(i: int, n: int)
    ensures
        index_pairs_from(i, n).len() == choose2(n - i),
    decreases n - i,
{
    if i >= n - 1 {
    } else {
        lemma_index_pairs_from_len(i + 1, n);
    }
}

proof fn lemma_choose2_doubled(n: int)
    ensures
        2 * choose2(n) == if n >= 0 { n * (n - 1) } else { 0 },
    decreases n,
{
    if n <= 1 {
        assert(n >= 0 ==> n * (n - 1) == 0) by (nonlinear_arith)
            requires
                n <= 1,
        ;
    } else {
        lemma_choose2_doubled(n - 1);
        assert(2 * ((n - 1) + choose2(n - 1)) == n * (n - 1)) by (nonlinear_arith)
            requires
                2 * choose2(n - 1) == (n - 1) * (n - 2),
        ;
    }
}

proof fn lemma_choose2_closed_form(n: int)
    requires
        n >= 0,
    ensures
        choose2(n) == n * (n - 1) / 2,
{
    lemma_choose2_doubled(n);
}

proof fn lemma_index_pairs_from_props(i: int, n: int)
    requires
        0 <= i,
    ensures
        forall|k: int|
            0 <= k < index_pairs_from(i, n).len() ==> i <= #[trigger] index_pairs_from(i, n)[k].0
                < index_pairs_from(i, n)[k].1 < n,
        forall|k1: int, k2: int|
            0 <= k1 < k2 < index_pairs_from(i, n).len() ==> lex_lt(
                index_pairs_from(i, n)[k1],
                index_pairs_from(i, n)[k2],
            ),
    decreases n - i,
{
    if i >= n - 1 {
    } else {
        lemma_index_pairs_from_props(i + 1, n);
        let row = pair_row(i, i + 1, n);
        let tail = index_pairs_from(i + 1, n);
        assert forall|k: int| 0 <= k < index_pairs_from(i, n).len() implies i
            <= #[trigger] index_pairs_from(i, n)[k].0 < index_pairs_from(i, n)[k].1 < n by {
            if k >= row.len() {
                assert(index_pairs_from(i, n)[k] == tail[k - row.len()]);
            }
        }
        assert forall|k1: int, k2: int|
            0 <= k1 < k2 < index_pairs_from(i, n).len() implies lex_lt(
            index_pairs_from(i, n)[k1],
            index_pairs_from(i, n)[k2],
        ) by {
            if k1 >= row.len() {
                assert(index_pairs_from(i, n)[k1] == tail[k1 - row.len()]);
                assert(index_pairs_from(i, n)[k2] == tail[k2 - row.len()]);
            } else if k2 >= row.len() {
                assert(index_pairs_from(i, n)[k2] == tail[k2 - row.len()]);
                assert(index_pairs_from(i, n)[k2].0 >= i + 1);
            }
        }
    }
}

proof fn lemma_index_pairs_from_contains(i: int, n: int, a: int, b: int)
    requires
        i <= a < b < n,
    ensures
        index_pairs_from(i, n).contains((a, b)),
    decreases n - i,
{
    let row = pair_row(i, i + 1, n);
    let tail = index_pairs_from(i + 1, n);
    if a == i {
        assert(row[b - i - 1] == (a, b));
        assert(index_pairs_from(i, n)[b - i - 1] == (a, b));
    } else {
        lemma_index_pairs_from_contains(i + 1, n, a, b);
        let k = choose|k: int| 0 <= k < tail.len() && tail[k] == (a, b);
        assert(index_pairs_from(i, n)[row.len() + k] == (a, b));
    }
}

/// Law: over a sequence of length `n` the enumerator yields exactly
/// `n * (n - 1) / 2` index pairs, each with its first index below its
/// second, in strictly increasing lexicographic order (so without a
/// duplicate), and every pair of distinct positions is among them.
pub proof fn lemma_index_pairs_complete(n: int)
    requires
        n >= 0,
    ensures
        index_pairs(n).len() == n * (n - 1) / 2,
        forall|k: int|
            0 <= k < index_pairs(n).len() ==> 0 <= #[trigger] index_pairs(n)[k].0 < index_pairs(
                n,
            )[k].1 < n,
        forall|k1: int, k2: int|
            0 <= k1 < k2 < index_pairs(n).len() ==> lex_lt(index_pairs(n)[k1], index_pairs(n)[k2]),
        forall|a: int, b: int| 0 <= a < b < n ==> index_pairs(n).contains((a, b)),
{
    lemma_index_pairs_from_len(0, n);
    lemma_choose2_closed_form(n);
    lemma_index_pairs_from_props(0, n);
    assert forall|a: int, b: int| 0 <= a < b < n implies index_pairs(n).contains((a, b)) by {
        lemma_index_pairs_from_contains(0, n, a, b);
    }
}

/// Law: for a sequence of length 0 or 1 the enumerator yields no pairs at
/// all.
pub proof fn lemma_no_pairs_below_two(n: int)
    requires
        0 <= n <= 1,
    ensures
        index_pairs(n).len() == 0,
{
}

/// A lazy, finite, non-restartable enumerator of every unordered pair of
/// distinct positions of a borrowed slice. It holds a shared borrow of the
/// slice for its whole lifetime, so the slice cannot be mutated while an
/// enumeration is live.
///
/// The cursors name the pair yielded last; a fresh enumerator stands at
/// `(0, 0)`, one position before the first pair `(0, 1)`.
pub struct PairsIter<'a, T> {
    x: usize,
    y: usize,
    slice: &'a [T],
}

impl<'a, T> PairsIter<'a, T> {
    /// The elements the enumerator draws its pairs from.
    pub closed spec fn elts(self) -> Seq<T> {
        self.slice@
    }

    /// The length of the underlying slice.
    pub closed spec fn n(self) -> int {
        self.slice@.len() as int
    }

    /// A fresh enumerator that has yielded nothing yet.
    pub closed spec fn fresh(self) -> bool {
        self.x == 0 && self.y == 0
    }

    /// Every state the enumerator can reach: fresh, or past the yield of
    /// the pair `(x, y)`; `(n - 1, n)` is the exhausted resting state.
    pub closed spec fn wf(self) -> bool {
        ||| self.fresh()
        ||| (2 <= self.n() && self.x < self.y < self.n())
        ||| (2 <= self.n() && self.x == self.n() - 1 && self.y == self.n())
    }

    /// The index pairs still to be yielded, in order.
    pub closed spec fn remaining(self) -> Seq<(int, int)> {
        if self.fresh() {
            index_pairs(self.n())
        } else {
            pair_row(self.x as int, self.y + 1, self.n()) + index_pairs_from(self.x + 1, self.n())
        }
    }

    /// A fresh enumerator over `slice`, with the whole of `index_pairs`
    /// ahead of it.
    pub fn new(slice: &'a [T]) -> (it: Self)
        ensures
            it.wf(),
            it.elts() == slice@,
            it.remaining() == index_pairs(slice@.len() as int),
    {
        Self { x: 0, y: 0, slice }
    }

    /// Yields the next pair of element references, in lexicographic order
    /// of their index pair, or `None` once every pair is out. Each call
    /// takes exactly the head of `remaining()` off.
    pub fn next(&mut self) -> (r: Option<(&'a T, &'a T)>)
        requires
            old(self).wf(),
        ensures
            final(self).wf(),
            final(self).elts() == old(self).elts(),
            old(self).remaining().len() == 0 ==> r is None && final(self).remaining().len() == 0,
            old(self).remaining().len() > 0 ==> {
                &&& final(self).remaining() == old(self).remaining().drop_first()
                &&& 0 <= old(self).remaining()[0].0 < old(self).remaining()[0].1 < old(
                    self,
                ).elts().len()
                &&& r matches Some(p) && *p.0 == old(self).elts()[old(self).remaining()[0].0]
                    && *p.1 == old(self).elts()[old(self).remaining()[0].1]
            },
    {
        let n = self.slice.len();
        if n < 2 {
            return None;
        }
        if self.x == 0 && self.y == 0 {
            // fresh: step onto the first pair (0, 1)
            self.y = 1;
        } else if self.x >= n - 1 {
            // exhausted resting state
            return None;
        } else if self.y + 1 == n {
            // the row of x is out; open the next row
            self.x = self.x + 1;
            self.y = self.x + 1;
            if self.x >= n - 1 {
                return None;
            }
        } else {
            self.y = self.y + 1;
        }
        proof {
            assert(old(self).remaining() =~= seq![(self.x as int, self.y as int)]
                + self.remaining());
        }
        let a = vstd::slice::slice_index_get(self.slice, self.x);
        let b = vstd::slice::slice_index_get(self.slice, self.y);
        Some((a, b))
    }
}

} // verus!
