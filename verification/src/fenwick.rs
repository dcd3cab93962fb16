//! Binary indexed tree over `isize` values: each cell covers the block of
//! indices sharing its trailing-ones run, prefix sums and point updates walk
//! those blocks.

use vstd::prelude::*;

verus! {

/// The lower end of the block cell `k` covers: `k` with its trailing ones
/// cleared.
pub open spec fn blk(k: usize) -> usize {
    k & ((k + 1) as usize)
}

/// The sum of `vals[a..b)`.
pub open spec fn rsum(vals: Seq<int>, a: int, b: int) -> int
    decreases b - a,
{
    if a >= b {
        0
    } else {
        rsum(vals, a, b - 1) + vals[b - 1]
    }
}

/// Every range sum of the represented array fits in `isize`.
pub open spec fn sums_ok(vals: Seq<int>) -> bool {
    forall|a: int, b: int|
        0 <= a <= b <= vals.len() ==> isize::MIN <= #[trigger] rsum(vals, a, b) <= isize::MAX
}

/// The view of an `isize` vector as a sequence of integers.
pub open spec fn int_view(v: Seq<isize>) -> Seq<int> {
    v.map_values(|x: isize| x as int)
}

/// Adjacent ranges add up.
pub proof fn lemma_rsum_split(vals: Seq<int>, a: int, b: int, c: int)
    requires
        a <= b <= c,
    ensures
        rsum(vals, a, c) == rsum(vals, a, b) + rsum(vals, b, c),
    decreases c - b,
{
    if b < c {
        lemma_rsum_split(vals, a, b, c - 1);
    }
}

/// A range sum over unchanged entries is unchanged.
pub proof fn lemma_rsum_unchanged(v1: Seq<int>, v2: Seq<int>, a: int, b: int)
    requires
        v1.len() == v2.len(),
        0 <= a <= b <= v1.len(),
        forall|j: int| a <= j < b ==> v1[j] == v2[j],
    ensures
        rsum(v1, a, b) == rsum(v2, a, b),
    decreases b - a,
{
    if a < b {
        lemma_rsum_unchanged(v1, v2, a, b - 1);
    }
}

/// A range sum over a range containing one changed entry moves by the
/// change.
pub proof fn lemma_rsum_update(v1: Seq<int>, i: int, d: int, a: int, b: int)
    requires
        0 <= a <= b <= v1.len(),
        0 <= i < v1.len(),
    ensures
        a <= i < b ==> rsum(v1.update(i, v1[i] + d), a, b) == rsum(v1, a, b) + d,
        !(a <= i < b) ==> rsum(v1.update(i, v1[i] + d), a, b) == rsum(v1, a, b),
    decreases b - a,
{
    if a < b {
        lemma_rsum_update(v1, i, d, a, b - 1);
    }
}

pub struct FenwickTree {
    bits: Vec<isize>,
    vals: Ghost<Seq<int>>,
}

impl FenwickTree {
    /// The represented array.
    pub closed spec fn view_vals(self) -> Seq<int> {
        self.vals@
    }

    /// Every cell holds the sum of the block it covers.
    pub closed spec fn wf(self) -> bool {
        &&& self.vals@.len() == self.bits@.len()
        &&& sums_ok(self.vals@)
        &&& forall|k: usize|
            k < self.bits@.len() ==> #[trigger] self.bits@[k as int] as int == rsum(
                self.vals@,
                blk(k) as int,
                k + 1,
            )
    }

    /// Builds the tree in one left-to-right pass: each cell accumulates its
    /// own entry and then pushes its finished block sum up to the next cell
    /// whose block covers it.
    pub fn new(vec: &Vec<isize>) -> (t: Self)
        requires
            sums_ok(int_view(vec@)),
        ensures
            t.wf(),
            t.view_vals() == int_view(vec@),
    {
        let n = vec.len();
        let ghost vals = int_view(vec@);
        let mut mybits: Vec<isize> = vec![0; n];
        let ghost mut e: Seq<int> = Seq::new(n as nat, |k: int| blk(k as usize) as int);
        proof {
            assert forall|k: usize| k < n implies blk(k) <= #[trigger] e[k as int] <= k + 1 by {
                assert((k & ((k + 1) as usize)) <= k) by (bit_vector)
                    requires
                        (k + 1) as usize == k + 1,
                ;
            }
        }
        let mut i: usize = 0;
        while i < n
            invariant
                n == vec@.len(),
                vals == int_view(vec@),
                vals.len() == n,
                sums_ok(vals),
                mybits@.len() == n,
                i <= n,
                e.len() == n,
                forall|k: usize|
                    k < n ==> #[trigger] mybits@[k as int] as int == rsum(
                        vals,
                        blk(k) as int,
                        e[k as int],
                    ),
                forall|k: usize| k < n ==> blk(k) <= #[trigger] e[k as int] <= k + 1,
                forall|k: usize| k < i && k < n ==> #[trigger] e[k as int] == k + 1,
                forall|k: usize|
                    i <= k < n ==> (#[trigger] e[k as int] == blk(k) || ((((e[k as int]
                        - 1) as usize) | (e[k as int] as usize)) == k && e[k as int] <= i)),
                forall|k: usize, q: usize|
                    i <= k < n && q < i && #[trigger] (q | ((q + 1) as usize)) == k ==> q
                        < #[trigger] e[k as int],
            decreases n - i,
        {
            proof {
                assert((i & ((i + 1) as usize)) <= i) by (bit_vector)
                    requires
                        (i + 1) as usize == i + 1,
                ;
                if blk(i) != i {
                    assert(i >= 1 && (((i - 1) as usize) | i) == i && ((i - 1) as usize) | ((((i
                        - 1) + 1) as usize)) == i) by (bit_vector)
                        requires
                            (i + 1) as usize == i + 1,
                            (i & ((i + 1) as usize)) != i,
                    ;
                    assert(((i - 1) as usize) < e[i as int]);
                    assert(e[i as int] == i as int);
                } else {
                    if e[i as int] != blk(i) {
                        let q = (e[i as int] - 1) as usize;
                        assert((q | ((q + 1) as usize)) == i && e[i as int] <= i);
                        assert(!((q | ((q + 1) as usize)) == i && (i & ((i + 1) as usize))
                            == i)) by (bit_vector)
                            requires
                                (q + 1) as usize == q + 1,
                        ;
                    }
                    assert(e[i as int] == i as int);
                }
            }
            let x = mybits[i];
            proof {
                assert(rsum(vals, blk(i) as int, i + 1) == rsum(vals, blk(i) as int, i as int)
                    + vals[i as int]);
                assert(isize::MIN <= rsum(vals, blk(i) as int, i + 1) <= isize::MAX);
                assert(vals[i as int] == vec@[i as int] as int);
            }
            let x2 = x + vec[i];
            mybits.set(i, x2);
            proof {
                e = e.update(i as int, i + 1);
            }
            let r = i | (i + 1);
            proof {
                assert(r > i && (r & ((r + 1) as usize)) <= (i & ((i + 1) as usize)))
                    by (bit_vector)
                    requires
                        r == (i | ((i + 1) as usize)),
                        (i + 1) as usize == i + 1,
                ;
            }
            if r < n {
                proof {
                    let er = e[r as int];
                    if er == blk(r) as int {
                        if blk(i) != blk(r) {
                            assert((i & ((i + 1) as usize)) >= 1 && ((((i & ((i
                                + 1) as usize)) - 1) as usize) | (i & ((i + 1) as usize)))
                                == r) by (bit_vector)
                                requires
                                    r == (i | ((i + 1) as usize)),
                                    (i + 1) as usize == i + 1,
                                    (r + 1) as usize == r + 1,
                                    (i & ((i + 1) as usize)) != (r & ((r + 1) as usize)),
                            ;
                            let q0 = (blk(i) - 1) as usize;
                            assert(q0 < i);
                            assert((q0 | ((q0 + 1) as usize)) == r);
                            assert(q0 < e[r as int]);
                            assert(false);
                        }
                        assert(er == blk(i) as int);
                    } else {
                        let q = (er - 1) as usize;
                        assert((q | ((q + 1) as usize)) == r && er <= i);
                        assert(q < i);
                        assert(!((i | ((i + 1) as usize)) == r && (q | ((q + 1) as usize)) == r
                            && (i & ((i + 1) as usize)) <= q && q < i)) by (bit_vector)
                            requires
                                (i + 1) as usize == i + 1,
                                (q + 1) as usize == q + 1,
                        ;
                        assert(q < blk(i));
                        assert(er <= blk(i) as int);
                        if er < blk(i) as int {
                            assert(blk(i) != blk(r)) by {
                                assert(blk(r) <= er);
                            }
                            assert((i & ((i + 1) as usize)) >= 1 && ((((i & ((i
                                + 1) as usize)) - 1) as usize) | (i & ((i + 1) as usize)))
                                == r) by (bit_vector)
                                requires
                                    r == (i | ((i + 1) as usize)),
                                    (i + 1) as usize == i + 1,
                                    (r + 1) as usize == r + 1,
                                    (i & ((i + 1) as usize)) != (r & ((r + 1) as usize)),
                            ;
                            let q0 = (blk(i) - 1) as usize;
                            assert(q0 < i);
                            assert((q0 | ((q0 + 1) as usize)) == r);
                            assert(q0 < e[r as int]);
                            assert(false);
                        }
                        assert(er == blk(i) as int);
                    }
                    lemma_rsum_split(vals, blk(r) as int, blk(i) as int, i + 1);
                    assert(isize::MIN <= rsum(vals, blk(r) as int, i + 1) <= isize::MAX);
                }
                let y = mybits[r];
                let y2 = y + mybits[i];
                mybits.set(r, y2);
                proof {
                    e = e.update(r as int, i + 1);
                }
            }
            proof {
                assert forall|k: usize, q: usize|
                    i + 1 <= k < n && q < i + 1 && #[trigger] (q | ((q + 1) as usize)) == k
                    implies q < #[trigger] e[k as int] by {
                    if q == i {
                        assert(k == r);
                    } else {
                        assert(q < i);
                        if (r < n && k == r) {
                            assert(e[k as int] == i + 1);
                        }
                    }
                }
            }
            i = i + 1;
        }
        proof {
            assert forall|k: usize| k < n implies #[trigger] mybits@[k as int] as int == rsum(
                vals,
                blk(k) as int,
                k + 1,
            ) by {
                assert(e[k as int] == k + 1);
            }
        }
        Self { bits: mybits, vals: Ghost(vals) }
    }

    /// The prefix sum of the first `idx + 1` represented entries, walking
    /// down the chain of blocks that tile the prefix.
    pub fn get_sum(&self, idx: usize) -> (s: isize)
        requires
            self.wf(),
            idx < self.view_vals().len(),
        ensures
            s as int == rsum(self.view_vals(), 0, idx + 1),
    {
        let ghost idx0 = idx;
        let n = self.bits.len();
        let mut idx = idx;
        let mut sum: isize = 0;
        loop
            invariant_except_break
                sum as int == rsum(self.view_vals(), idx + 1, idx0 + 1),
            invariant
                self.wf(),
                n == self.bits@.len(),
                idx < n,
                idx0 < n,
                n == self.view_vals().len(),
                idx <= idx0,
            ensures
                sum as int == rsum(self.view_vals(), 0, idx0 + 1),
            decreases idx,
        {
            let ghost prev = idx;
            proof {
                assert((idx & ((idx + 1) as usize)) <= idx) by (bit_vector)
                    requires
                        (idx + 1) as usize == idx + 1,
                ;
                lemma_rsum_split(self.view_vals(), blk(idx) as int, idx + 1, idx0 + 1);
                assert(isize::MIN <= rsum(self.view_vals(), blk(idx) as int, idx0 + 1)
                    <= isize::MAX);
            }
            sum = sum + self.bits[idx];
            proof {
                assert(sum as int == rsum(self.view_vals(), blk(prev) as int, idx0 + 1));
            }
            idx = idx & (idx + 1);
            if idx == 0 {
                break ;
            }
            idx = idx - 1;
        }
        sum
    }

    /// The sum of the represented entries from `lt` to `rt` inclusive, or
    /// nothing for a reversed range.
    pub fn get_sum_range(&self, lt: usize, rt: usize) -> (r: Option<isize>)
        requires
            self.wf(),
            lt <= rt ==> rt < self.view_vals().len(),
        ensures
            lt <= rt ==> r == Some((rsum(self.view_vals(), lt as int, rt + 1) as isize)),
            lt > rt ==> r is None,
    {
        if rt >= lt {
            let lt_sum: isize = if lt > 0 {
                self.get_sum(lt - 1)
            } else {
                0
            };
            let rt_sum = self.get_sum(rt);
            proof {
                lemma_rsum_split(self.view_vals(), 0, lt as int, rt + 1);
                assert(isize::MIN <= rsum(self.view_vals(), lt as int, rt + 1) <= isize::MAX);
            }
            Some(rt_sum - lt_sum)
        } else {
            None
        }
    }

    /// Adds `delta` to one represented entry, updating every block that
    /// covers it; an index past the end touches nothing.
    pub fn update(&mut self, idx: usize, delta: isize)
        requires
            old(self).wf(),
            idx < old(self).view_vals().len() ==> sums_ok(
                old(self).view_vals().update(
                    idx as int,
                    old(self).view_vals()[idx as int] + delta as int,
                ),
            ),
        ensures
            final(self).wf(),
            idx < old(self).view_vals().len() ==> final(self).view_vals() == old(
                self,
            ).view_vals().update(idx as int, old(self).view_vals()[idx as int] + delta as int),
            idx >= old(self).view_vals().len() ==> *final(self) == *old(self),
    {
        let n = self.bits.len();
        if idx >= n {
            return ;
        }
        let ghost oldvals = self.vals@;
        let ghost newvals = oldvals.update(idx as int, oldvals[idx as int] + delta as int);
        self.vals = Ghost(newvals);
        let mut j = idx;
        proof {
            assert((idx & ((idx + 1) as usize)) <= idx) by (bit_vector)
                requires
                    (idx + 1) as usize == idx + 1,
            ;
        }
        while j < n
            invariant
                self.vals@ == newvals,
                oldvals.len() == n,
                newvals.len() == n,
                newvals == oldvals.update(idx as int, oldvals[idx as int] + delta as int),
                idx < n,
                n == self.bits@.len(),
                sums_ok(oldvals),
                sums_ok(newvals),
                blk(j) <= idx <= j,
                forall|k: usize|
                    k < n ==> #[trigger] self.bits@[k as int] as int == (if blk(k) <= idx <= k
                        && k < j {
                        rsum(newvals, blk(k) as int, k + 1)
                    } else {
                        rsum(oldvals, blk(k) as int, k + 1)
                    }),
            decreases 2 * n - j,
        {
            proof {
                lemma_rsum_update(oldvals, idx as int, delta as int, blk(j) as int, j + 1);
                assert(isize::MIN <= rsum(newvals, blk(j) as int, j + 1) <= isize::MAX);
            }
            let ghost jold = j;
            let x = self.bits[j];
            self.bits.set(j, x + delta);
            j = j | (j + 1);
            proof {
                assert(j > jold && j <= jold + jold + 1 && (j & ((j + 1) as usize)) <= (jold
                    & ((jold + 1) as usize))) by (bit_vector)
                    requires
                        j == (jold | ((jold + 1) as usize)),
                        (jold + 1) as usize == jold + 1,
                ;
                assert forall|k: usize|
                    jold < k < j && #[trigger] blk(k) <= idx <= k implies false by {
                    assert(
                        !((jold & ((jold + 1) as usize)) <= idx && idx <= jold && jold < k && k
                            < (jold | ((jold + 1) as usize)) && (k & ((k + 1) as usize)) <= idx
                            && idx <= k)) by (bit_vector)
                        requires
                            (jold + 1) as usize == jold + 1,
                            (k + 1) as usize == k + 1,
                    ;
                }
            }
        }
        proof {
            assert forall|k: usize| k < n implies #[trigger] self.bits@[k as int] as int == rsum(
                newvals,
                blk(k) as int,
                k + 1,
            ) by {
                assert((k & ((k + 1) as usize)) <= k) by (bit_vector)
                    requires
                        (k + 1) as usize == k + 1,
                ;
                if !(blk(k) <= idx <= k) {
                    lemma_rsum_update(oldvals, idx as int, delta as int, blk(k) as int, k + 1);
                }
            }
        }
    }
}

} // verus!
