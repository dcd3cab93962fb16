//! Character-level edit cost between two non-empty strings, computed by
//! dynamic programming over a cost matrix.

use vstd::prelude::*;

verus! {

use vstd::string::StrSliceExecFns;

pub open spec fn min3(x: int, y: int, z: int) -> int {
    if x <= y && x <= z {
        x
    } else if y <= x && y <= z {
        y
    } else {
        z
    }
}

/// The cost recurrence: the first row and column accumulate from the corner,
/// which is free exactly when the first characters agree, and every inner
/// cell takes the cheapest of a step down, a step right, or a diagonal step
/// whose cost is 1 when the two characters agree and 0 otherwise.
pub open spec fn dist_spec(a: Seq<char>, b: Seq<char>, i: int, j: int) -> int
    decreases i + j,
    when 0 <= i && 0 <= j
{
    if i <= 0 && j <= 0 {
        if a[0] == b[0] {
            0
        } else {
            1
        }
    } else if i <= 0 {
        1 + dist_spec(a, b, i, j - 1)
    } else if j <= 0 {
        1 + dist_spec(a, b, i - 1, j)
    } else {
        let bcost: int = if a[i] == b[j] {
            1
        } else {
            0
        };
        min3(
            1 + dist_spec(a, b, i - 1, j),
            1 + dist_spec(a, b, i, j - 1),
            bcost + dist_spec(a, b, i - 1, j - 1),
        )
    }
}

/// Each cell's cost is bounded by its coordinates.
pub proof fn lemma_dist_bounds(a: Seq<char>, b: Seq<char>, i: int, j: int)
    requires
        0 <= i,
        0 <= j,
    ensures
        0 <= dist_spec(a, b, i, j) <= i + j + 1,
    decreases i + j,
{
    if i == 0 && j == 0 {
    } else if i == 0 {
        lemma_dist_bounds(a, b, i, j - 1);
    } else if j == 0 {
        lemma_dist_bounds(a, b, i - 1, j);
    } else {
        lemma_dist_bounds(a, b, i - 1, j);
        lemma_dist_bounds(a, b, i, j - 1);
        lemma_dist_bounds(a, b, i - 1, j - 1);
    }
}

/// The edit cost of the two strings under the recurrence above.
pub fn ldistance(str1: &str, str2: &str) -> (d: u32)
    requires
        str1@.len() >= 1,
        str2@.len() >= 1,
        str1@.len() + str2@.len() < u32::MAX,
    ensures
        d as int == dist_spec(str1@, str2@, str1@.len() - 1, str2@.len() - 1),
{
    let n: usize = str1.unicode_len();
    let m: usize = str2.unicode_len();
    let ghost a = str1@;
    let ghost b = str2@;

    let mut c1: Vec<char> = Vec::new();
    let mut i: usize = 0;
    while i < n
        invariant
            n == a.len(),
            a == str1@,
            i <= n,
            c1@ =~= a.take(i as int),
        decreases n - i,
    {
        c1.push(str1.get_char(i));
        proof {
            assert(c1@ =~= a.take(i + 1));
        }
        i = i + 1;
    }
    proof {
        assert(c1@ =~= a);
    }
    let mut c2: Vec<char> = Vec::new();
    let mut j: usize = 0;
    while j < m
        invariant
            m == b.len(),
            b == str2@,
            j <= m,
            c2@ =~= b.take(j as int),
        decreases m - j,
    {
        c2.push(str2.get_char(j));
        proof {
            assert(c2@ =~= b.take(j + 1));
        }
        j = j + 1;
    }
    proof {
        assert(c2@ =~= b);
    }

    let mut dist: Vec<Vec<u32>> = Vec::new();
    let mut i: usize = 0;
    while i < n
        invariant
            n == a.len(),
            m == b.len(),
            n >= 1,
            m >= 1,
            n + m < u32::MAX,
            c1@ == a,
            c2@ == b,
            i <= n,
            dist@.len() == i,
            forall|p: int|
                0 <= p < i as int ==> (#[trigger] dist@[p])@.len() == m,
            forall|p: int, q: int|
                0 <= p < i as int && 0 <= q < m as int ==> #[trigger] (dist@[p])@[q] as int
                    == dist_spec(a, b, p, q),
        decreases n - i,
    {
        let c = c1[i];
        let mut row: Vec<u32> = Vec::new();
        let mut j: usize = 0;
        while j < m
            invariant
                n == a.len(),
                m == b.len(),
                n >= 1,
                m >= 1,
                n + m < u32::MAX,
                c1@ == a,
                c2@ == b,
                i < n,
                c == a[i as int],
                j <= m,
                dist@.len() == i,
                forall|p: int|
                    0 <= p < i as int ==> (#[trigger] dist@[p])@.len() == m,
                forall|p: int, q: int|
                    0 <= p < i as int && 0 <= q < m as int ==> #[trigger] (dist@[p])@[q] as int
                        == dist_spec(a, b, p, q),
                row@.len() == j,
                forall|q: int|
                    0 <= q < j as int ==> #[trigger] row@[q] as int == dist_spec(
                        a,
                        b,
                        i as int,
                        q,
                    ),
            decreases m - j,
        {
            let d = c2[j];
            proof {
                lemma_dist_bounds(a, b, i as int, j as int);
                if i > 0 {
                    lemma_dist_bounds(a, b, i - 1, j as int);
                }
                if j > 0 {
                    lemma_dist_bounds(a, b, i as int, j - 1);
                }
                if i > 0 && j > 0 {
                    lemma_dist_bounds(a, b, i - 1, j - 1);
                }
            }
            let cell: u32;
            if i == 0 && j == 0 {
                if c == d {
                    cell = 0;
                } else {
                    cell = 1;
                }
            } else if i == 0 {
                cell = 1 + row[j - 1];
            } else if j == 0 {
                cell = 1 + dist[i - 1][j];
            } else {
                let bcost: u32 = if c == d {
                    1
                } else {
                    0
                };
                let x: u32 = 1 + dist[i - 1][j];
                let y: u32 = 1 + row[j - 1];
                let z: u32 = bcost + dist[i - 1][j - 1];
                if x <= y && x <= z {
                    cell = x;
                } else if y <= x && y <= z {
                    cell = y;
                } else {
                    cell = z;
                }
            }
            row.push(cell);
            j = j + 1;
        }
        dist.push(row);
        i = i + 1;
    }
    dist[n - 1][m - 1]
}

} // verus!
