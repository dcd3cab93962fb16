//! Probabilistic ordered index: a skip list over `i64` values carrying
//! positional identifiers, built on an append-only node arena addressed by
//! integer ids, with a geometric level sampler.

use vstd::prelude::*;

verus! {

use vstd::arithmetic::power2::pow2;

/// Draws one tower height for each inserted element, according to a
/// geometric-decay distribution held as a cumulative-weight table that a
/// binary search consults on a uniform draw.
pub struct WeightedSample {
    samples: Vec<usize>,
    cumulative_sums: Vec<u64>,
}

/// Relies on rand::Rng::gen_range on the thread-local generator: the result
/// lies in the half-open range `0..bound`.
#[verifier::external_body]
fn draw_below(bound: u64) -> (r: u64)
    requires
        bound >= 1,
    ensures
        r < bound,
{
    rand::Rng::gen_range(&mut rand::thread_rng(), 0..bound)
}

impl WeightedSample {
    /// The cumulative table is the sequence of partial sums of the weights.
    pub closed spec fn wf(self) -> bool {
        &&& self.samples@.len() >= 1
        &&& self.cumulative_sums@.len() == self.samples@.len()
        &&& forall|i: int, j: int|
            0 <= i <= j < self.cumulative_sums@.len() ==> self.cumulative_sums@[i]
                <= self.cumulative_sums@[j]
    }

    pub closed spec fn spec_samples(self) -> Seq<usize> {
        self.samples@
    }

    /// The total weight: the last entry of the cumulative table.
    pub closed spec fn total(self) -> u64 {
        self.cumulative_sums@.last()
    }

    pub fn new(samples: Vec<usize>, weights: Vec<u64>) -> (s: Self)
        requires
            samples@.len() >= 1,
            weights@.len() == samples@.len(),
            sum_of(weights@) <= u64::MAX,
        ensures
            s.wf(),
            s.spec_samples() == samples@,
            s.total() == sum_of(weights@),
    {
        let n = samples.len();
        let mut cum_sum: Vec<u64> = Vec::new();
        let mut i: usize = 0;
        let mut running: u64 = 0;
        while i < n
            invariant
                0 <= i <= n,
                n == weights@.len(),
                cum_sum@.len() == i,
                running == sum_of(weights@.take(i as int)),
                forall|a: int, b: int| 0 <= a <= b < i ==> cum_sum@[a] <= cum_sum@[b],
                forall|a: int| 0 <= a < i ==> cum_sum@[a] == sum_of(weights@.take(a + 1)),
                sum_of(weights@) <= u64::MAX,
            decreases n - i,
        {
            proof {
                lemma_sum_of_take_step(weights@, i as int);
                lemma_sum_of_take_monotonic(weights@, i + 1, weights@.len() as int);
                assert(weights@.take(weights@.len() as int) =~= weights@);
                assert forall|a: int| 0 <= a < i implies #[trigger] sum_of(weights@.take(a + 1))
                    <= sum_of(weights@.take(i + 1)) by {
                    lemma_sum_of_take_monotonic(weights@, a + 1, i + 1);
                }
            }
            running = running + weights[i];
            cum_sum.push(running);
            i = i + 1;
        }
        proof {
            assert(weights@.take(n as int) =~= weights@);
        }
        Self { samples, cumulative_sums: cum_sum }
    }
}

impl WeightedSample {
    /// The smallest index whose cumulative weight exceeds the draw; the
    /// table is consulted by binary search, ties resolving leftmost.
    fn pick(&self, u: u64) -> (k: usize)
        requires
            self.wf(),
            u < self.total(),
        ensures
            0 <= k < self.cumulative_sums@.len(),
            u < self.cumulative_sums@[k as int],
            forall|j: int| 0 <= j < k ==> self.cumulative_sums@[j] <= u,
    {
        let n = self.cumulative_sums.len();
        let mut index: usize = n;
        let mut lt: usize = 0;
        let mut rt: usize = n - 1;

        while lt <= rt
            invariant_except_break
                self.wf(),
                u < self.total(),
                n == self.cumulative_sums@.len(),
                lt <= n,
                rt < n,
                index == n || (index < n && u < self.cumulative_sums@[index as int]),
                index == n || index == rt + 1,
                index == n ==> rt == n - 1,
                forall|j: int| 0 <= j < lt ==> self.cumulative_sums@[j] <= u,
                forall|j: int| rt < j < n ==> u < self.cumulative_sums@[j],
            ensures
                index < n,
                u < self.cumulative_sums@[index as int],
                forall|j: int| 0 <= j < index ==> self.cumulative_sums@[j] <= u,
            decreases rt + 1 - lt,
        {
            let mid = lt + (rt - lt) / 2;
            if self.cumulative_sums[mid] > u {
                index = mid;
                if mid == 0 {
                    break ;
                }
                rt = mid - 1;
            } else {
                lt = mid + 1;
                if lt > rt {
                    proof {
                        assert(self.cumulative_sums@.last() > u);
                        assert(index < n);
                    }
                    break ;
                }
            }
        }
        index
    }

    /// Draws one value: a uniform draw against the cumulative table; a
    /// degenerate (all-zero) table yields the last sample deterministically.
    pub fn sample(&self) -> (r: usize)
        requires
            self.wf(),
        ensures
            exists|k: int| 0 <= k < self.spec_samples().len() && r == self.spec_samples()[k],
            self.total() == 0 ==> r == self.spec_samples().last(),
    {
        let n = self.samples.len();
        let total = self.cumulative_sums[n - 1];
        if total == 0 {
            let r = self.samples[n - 1];
            proof {
                assert(r == self.spec_samples()[n - 1]);
            }
            r
        } else {
            let u = draw_below(total);
            let k = self.pick(u);
            let r = self.samples[k];
            proof {
                assert(r == self.spec_samples()[k as int]);
            }
            r
        }
    }
}

/// The sum of a sequence of weights, as an unbounded integer.
pub open spec fn sum_of(s: Seq<u64>) -> int
    decreases s.len(),
{
    if s.len() == 0 {
        0
    } else {
        sum_of(s.drop_last()) + s.last()
    }
}

proof fn lemma_sum_of_take_step(s: Seq<u64>, i: int)
    requires
        0 <= i < s.len(),
    ensures
        sum_of(s.take(i + 1)) == sum_of(s.take(i)) + s[i],
{
    assert(s.take(i + 1).drop_last() =~= s.take(i));
    assert(s.take(i + 1).last() == s[i]);
}

proof fn lemma_sum_of_take_monotonic(s: Seq<u64>, i: int, j: int)
    requires
        0 <= i <= j <= s.len(),
    ensures
        sum_of(s.take(i)) <= sum_of(s.take(j)),
    decreases j - i,
{
    if i < j {
        lemma_sum_of_take_monotonic(s, i, j - 1);
        lemma_sum_of_take_step(s, j - 1);
        assert(sum_of(s.take(j)) == sum_of(s.take(j - 1)) + s[j - 1]);
    }
}

/// The explicit "none" sentinel of the forward pointers.
pub const NIL: usize = usize::MAX;

/// One element of the arena: a value, the external position it stands for,
/// its tower height, and one successor id per level of its tower.
pub struct Node {
    pub id: usize,
    pub val: i64,
    pub index: usize,
    pub level: usize,
    pub next_pointers: Vec<usize>,
}

impl Node {
    pub fn new(id: usize, val: &i64, index: usize, level: usize) -> (n: Node)
        ensures
            n.id == id,
            n.val == *val,
            n.index == index,
            n.level == level,
            n.next_pointers@ =~= Seq::<usize>::empty(),
    {
        Node { id, val: *val, index, level, next_pointers: Vec::new() }
    }
}

/// Whether `x` reaches the bound `v`: at or past it when `incl` is set,
/// strictly past it otherwise.
pub open spec fn above(x: i64, v: i64, incl: bool) -> bool {
    if incl {
        x >= v
    } else {
        x > v
    }
}

/// The first index of `s` whose value reaches the bound, or `s.len()`.
pub open spec fn first_above(s: Seq<i64>, v: i64, incl: bool) -> int
    decreases s.len(),
{
    if s.len() == 0 {
        0
    } else if above(s[0], v, incl) {
        0
    } else {
        1 + first_above(s.drop_first(), v, incl)
    }
}

/// Everything before `first_above` misses the bound; the entry there, if
/// any, reaches it.
pub proof fn lemma_first_above_bounds(s: Seq<i64>, v: i64, incl: bool)
    ensures
        0 <= first_above(s, v, incl) <= s.len(),
        forall|k: int| 0 <= k < first_above(s, v, incl) ==> !above(s[k], v, incl),
        first_above(s, v, incl) < s.len() ==> above(s[first_above(s, v, incl)], v, incl),
    decreases s.len(),
{
    let j = first_above(s, v, incl);
    if s.len() > 0 && !above(s[0], v, incl) {
        lemma_first_above_bounds(s.drop_first(), v, incl);
        assert forall|k: int| 0 <= k < j implies !above(s[k], v, incl) by {
            if k > 0 {
                assert(s.drop_first()[k - 1] == s[k]);
            }
        }
        if j < s.len() {
            assert(s.drop_first()[j - 1] == s[j]);
        }
    }
}

/// `first_above` is the unique boundary: a prefix that misses the bound
/// followed by an entry that reaches it pins the index.
pub proof fn lemma_first_above_is(s: Seq<i64>, v: i64, incl: bool, j: int)
    requires
        0 <= j <= s.len(),
        forall|k: int| 0 <= k < j ==> !above(s[k], v, incl),
        j < s.len() ==> above(s[j], v, incl),
    ensures
        first_above(s, v, incl) == j,
{
    lemma_first_above_bounds(s, v, incl);
    let f = first_above(s, v, incl);
    if f < j {
        assert(!above(s[f], v, incl));
        assert(above(s[f], v, incl));
    } else if j < f {
        assert(!above(s[j], v, incl));
        assert(above(s[j], v, incl));
    }
}

/// A filter whose matches form one contiguous block equals that block.
proof fn lemma_filter_is_range(s: Seq<(i64, usize)>, pred: spec_fn((i64, usize)) -> bool, lo: int, hi: int)
    requires
        0 <= lo <= hi <= s.len(),
        forall|k: int| 0 <= k < lo ==> !pred(s[k]),
        forall|k: int| lo <= k < hi ==> pred(s[k]),
        forall|k: int| hi <= k < s.len() ==> !pred(s[k]),
    ensures
        s.filter(pred) == s.subrange(lo, hi),
    decreases s.len(),
{
    reveal(Seq::filter);
    if s.len() == 0 {
        assert(s.filter(pred) =~= s.subrange(lo, hi));
    } else {
        let d = s.drop_last();
        if hi == s.len() && lo < hi {
            lemma_filter_is_range(d, pred, lo, hi - 1);
            assert(s.filter(pred) == d.filter(pred).push(s.last()));
            assert(d.subrange(lo, hi - 1).push(s.last()) =~= s.subrange(lo, hi));
        } else if hi == s.len() {
            lemma_filter_is_range(d, pred, d.len() as int, d.len() as int);
            assert(s.filter(pred) == d.filter(pred));
            assert(s.filter(pred) =~= s.subrange(lo, hi));
        } else {
            lemma_filter_is_range(d, pred, lo, hi);
            assert(s.filter(pred) == d.filter(pred));
            assert(d.subrange(lo, hi) =~= s.subrange(lo, hi));
        }
    }
}

/// An entry that satisfies the filter's test stays in the filtered sequence.
proof fn lemma_filter_keeps(s: Seq<(i64, usize)>, pred: spec_fn((i64, usize)) -> bool, k: int)
    requires
        0 <= k < s.len(),
        pred(s[k]),
    ensures
        s.filter(pred).contains(s[k]),
    decreases s.len(),
{
    reveal(Seq::filter);
    if k == s.len() - 1 {
        assert(s.filter(pred).last() == s[k]);
        assert(s.filter(pred).contains(s[k]));
    } else {
        lemma_filter_keeps(s.drop_last(), pred, k);
        assert(s.drop_last()[k] == s[k]);
        let d = s.drop_last().filter(pred);
        let kf = choose|kf: int| 0 <= kf < d.len() && d[kf] == s[k];
        if pred(s.last()) {
            assert(s.filter(pred)[kf] == s[k]);
        } else {
            assert(s.filter(pred) == d);
        }
    }
}

/// Bulk-load law: loading a sorted sequence gives each element its index as
/// position, and an exact search for any loaded value returns, among its
/// results, that value's original position.
pub proof fn lemma_bulk_load_roundtrip(s: Seq<i64>, j: int)
    requires
        sorted_values(s),
        0 <= j < s.len(),
    ensures
        ({
            let view = Seq::new(s.len(), |i: int| (s[i], i as usize));
            view.filter(|e: (i64, usize)| e.0 == s[j]).map_values(
                |e: (i64, usize)| e.1,
            ).contains(j as usize)
        }),
{
    let view = Seq::new(s.len(), |i: int| (s[i], i as usize));
    let pred = |e: (i64, usize)| e.0 == s[j];
    assert(pred(view[j]));
    lemma_filter_keeps(view, pred, j);
    let f = view.filter(pred);
    let kf = choose|kf: int| 0 <= kf < f.len() && f[kf] == view[j];
    assert(f.map_values(|e: (i64, usize)| e.1)[kf] == j as usize);
}

/// Empty-delete law: a value absent from the structure misses the deletion
/// boundary, so delete leaves the view - and with it every search result -
/// unchanged.
pub proof fn lemma_delete_absent(view: Seq<(i64, usize)>, v: i64)
    requires
        forall|k: int| 0 <= k < view.len() ==> #[trigger] view[k].0 != v,
    ensures
        ({
            let j = first_above(values_of(view), v, true);
            !(j < view.len() && view[j].0 == v)
        }),
{
    lemma_first_above_bounds(values_of(view), v, true);
    let j = first_above(values_of(view), v, true);
    if 0 <= j < view.len() {
        assert(view[j].0 != v);
    }
}

/// Non-decreasing order of a value sequence.
pub open spec fn sorted_values(s: Seq<i64>) -> bool {
    forall|i: int, j: int| 0 <= i <= j < s.len() ==> s[i] <= s[j]
}

/// The values of a sequence of (value, position) pairs.
pub open spec fn values_of(view: Seq<(i64, usize)>) -> Seq<i64> {
    view.map_values(|e: (i64, usize)| e.0)
}

/// `1 + floor(log2(n))` for `n >= 1`, the tower-height budget a capacity
/// hint buys.
pub open spec fn log2_floor(n: int) -> int
    decreases n,
{
    if n < 2 {
        0
    } else {
        1 + log2_floor(n / 2)
    }
}

/// The probabilistic ordered index: an arena of tombstone-able nodes wired
/// into one sorted chain per level, walked from a permanent head sentinel.
pub struct SkipList {
    num_levels: usize,
    head_id: usize,
    sample_obj: WeightedSample,
    curr_id: usize,
    node_vec: Vec<Option<Node>>,
    chains: Ghost<Seq<Seq<usize>>>,
}

impl View for SkipList {
    type V = Seq<(i64, usize)>;

    /// The (value, position) pairs of the live nodes, in level-0 chain
    /// order: non-decreasing by value.
    closed spec fn view(&self) -> Seq<(i64, usize)> {
        Seq::new(
            self.chains@[0].len(),
            |k: int|
                (
                    self.node_vec@[self.chains@[0][k] as int].unwrap().val,
                    self.node_vec@[self.chains@[0][k] as int].unwrap().index,
                ),
        )
    }
}

impl SkipList {
    /// How many levels the structure was built with.
    pub closed spec fn levels(self) -> int {
        self.num_levels as int
    }

    spec fn nodes(self) -> Seq<Option<Node>> {
        self.node_vec@
    }

    /// The ids along the forward chain of one level, head excluded.
    pub closed spec fn chain(self, l: int) -> Seq<usize> {
        self.chains@[l]
    }

    spec fn is_live(self, id: int) -> bool {
        &&& 0 <= id < self.nodes().len()
        &&& self.nodes()[id] is Some
    }

    spec fn node_at(self, id: int) -> Node {
        self.nodes()[id].unwrap()
    }

    spec fn val_at(self, id: int) -> i64 {
        self.node_at(id).val
    }

    spec fn lvl_at(self, id: int) -> int {
        self.node_at(id).level as int
    }

    spec fn nxt(self, id: int, l: int) -> usize {
        self.node_at(id).next_pointers@[l]
    }

    /// The values along the forward chain of one level, head excluded.
    pub closed spec fn level_values(self, l: int) -> Seq<i64> {
        self.chain(l).map_values(|id: usize| self.node_vec@[id as int].unwrap().val)
    }

    /// The index in the level-0 chain at which a live id stands.
    spec fn rank(self, id: usize) -> int {
        self.chain(0).index_of(id)
    }

    spec fn link_ok(self, l: int, k: int) -> bool {
        let id = self.chain(l)[k] as int;
        &&& 1 <= id < self.nodes().len()
        &&& self.is_live(id)
        &&& l < self.lvl_at(id)
        &&& self.nxt(id, l) == (if k + 1 < self.chain(l).len() {
            self.chain(l)[k + 1]
        } else {
            NIL
        })
    }

    spec fn chain_ok(self, l: int) -> bool {
        &&& self.nxt(0, l) == (if self.chain(l).len() == 0 {
            NIL
        } else {
            self.chain(l)[0]
        })
        &&& forall|k: int| 0 <= k < self.chain(l).len() ==> self.link_ok(l, k)
    }

    spec fn node_ok(self, id: int) -> bool {
        &&& self.node_at(id).id == id
        &&& 1 <= self.lvl_at(id) <= self.num_levels
        &&& self.node_at(id).next_pointers@.len() == self.lvl_at(id)
        &&& forall|l: int| 0 <= l < self.lvl_at(id) ==> self.chain(l).contains(id as usize)
    }

    spec fn sorted0(self) -> bool {
        forall|k1: int, k2: int|
            0 <= k1 <= k2 < self.chain(0).len() ==> self.val_at(self.chain(0)[k1] as int)
                <= self.val_at(self.chain(0)[k2] as int)
    }

    spec fn nodup(self) -> bool {
        forall|l: int, k1: int, k2: int|
            0 <= l < self.num_levels && 0 <= k1 < k2 < self.chain(l).len() ==> self.chain(l)[k1]
                != self.chain(l)[k2]
    }

    spec fn ranks_ok(self) -> bool {
        forall|l: int, k1: int, k2: int|
            1 <= l < self.num_levels && 0 <= k1 < k2 < self.chain(l).len() ==> self.rank(
                self.chain(l)[k1],
            ) < self.rank(self.chain(l)[k2])
    }

    /// Well-formedness: the head is permanent with the full tower, every
    /// chain is stitched through the arena's forward pointers, every live
    /// node stands in exactly the chains below its tower height, the level-0
    /// chain is sorted by value and the higher chains respect its order.
    pub closed spec fn wf(self) -> bool {
        &&& 1 <= self.num_levels <= 64
        &&& self.sample_obj.wf()
        &&& self.sample_obj.spec_samples() == Seq::new(
            self.num_levels as nat,
            |i: int| (i + 1) as usize,
        )
        &&& self.head_id == 0
        &&& 1 <= self.nodes().len()
        &&& self.nodes().len() < usize::MAX
        &&& self.curr_id + 1 == self.nodes().len()
        &&& self.is_live(0)
        &&& self.node_at(0).id == 0
        &&& self.node_at(0).level == self.num_levels
        &&& self.node_at(0).next_pointers@.len() == self.num_levels
        &&& self.chains@.len() == self.num_levels
        &&& forall|l: int| 0 <= l < self.num_levels ==> self.chain_ok(l)
        &&& forall|id: int| 1 <= id < self.nodes().len() && self.is_live(id) ==> self.node_ok(id)
        &&& self.sorted0()
        &&& self.nodup()
        &&& self.ranks_ok()
    }

    /// Builds an empty index whose number of levels is `1 + floor(log2(max_size))`,
    /// at least 1, with the geometric weight table and the head sentinel in place.
    pub fn new(max_size: usize, default_value: i64) -> (s: Self)
        ensures
            s.wf(),
            s@ =~= Seq::<(i64, usize)>::empty(),
            s.node_count() == 1,
            s.levels() == if max_size >= 1 {
                1 + log2_floor(max_size as int)
            } else {
                1
            },
    {
        proof {
            vstd::arithmetic::power2::lemma2_to64();
            assert(pow2(0) == 1);
            assert(max_size as int * pow2(0) == max_size as int) by (nonlinear_arith)
                requires
                    pow2(0) == 1,
            ;
        }
        let mut num_levels: usize = 1;
        let mut x: usize = max_size;
        while x >= 2
            invariant
                1 <= num_levels <= 64,
                max_size >= 1 ==> log2_floor(max_size as int) == num_levels - 1 + log2_floor(
                    x as int,
                ),
                max_size >= 1 ==> x >= 1,
                max_size == 0 ==> num_levels == 1,
                x as int * pow2((num_levels - 1) as nat) <= max_size as int,
            decreases x,
        {
            proof {
                vstd::arithmetic::power2::lemma_pow2_unfold(num_levels as nat);
                vstd::arithmetic::power2::lemma2_to64();
                vstd::arithmetic::power2::lemma_pow2_pos((num_levels - 1) as nat);
                assert((x / 2) as int * pow2(num_levels as nat) <= max_size as int) by (nonlinear_arith)
                    requires
                        x as int * pow2((num_levels - 1) as nat) <= max_size as int,
                        pow2(num_levels as nat) == 2 * pow2((num_levels - 1) as nat),
                        x >= 2,
                        pow2((num_levels - 1) as nat) >= 1,
                ;
                if num_levels == 64 {
                    vstd::arithmetic::power2::lemma2_to64();
                    vstd::arithmetic::power2::lemma2_to64_rest();
                    assert(pow2(64) == 2 * pow2(63));
                    assert(pow2(64) <= x as int * pow2(63)) by (nonlinear_arith)
                        requires
                            x >= 2,
                            pow2(63) >= 1,
                            pow2(64) == 2 * pow2(63),
                    ;
                    assert((max_size as int) < pow2(64));
                    assert(false);
                }
            }
            x = x / 2;
            num_levels = num_levels + 1;
        }

        proof {
            if max_size >= 1 {
                assert(x == 1);
                assert(log2_floor(1) == 0);
                assert(num_levels - 1 == log2_floor(max_size as int));
            }
        }
        let mut samples: Vec<usize> = Vec::new();
        let mut level: usize = 1;
        while level <= num_levels
            invariant
                1 <= level <= num_levels + 1,
                num_levels <= 64,
                samples@ =~= Seq::new((level - 1) as nat, |i: int| (i + 1) as usize),
            decreases num_levels + 1 - level,
        {
            samples.push(level);
            proof {
                assert(samples@ =~= Seq::new(level as nat, |i: int| (i + 1) as usize));
            }
            level = level + 1;
        }

        proof {
            vstd::arithmetic::power2::lemma2_to64();
        }
        let mut wt: u64 = 1;
        let mut j: usize = 0;
        while j < num_levels - 1
            invariant
                0 <= j <= num_levels - 1,
                num_levels <= 64,
                wt == pow2(j as nat),
            decreases num_levels - 1 - j,
        {
            proof {
                vstd::arithmetic::power2::lemma_pow2_unfold((j + 1) as nat);
                vstd::arithmetic::power2::lemma2_to64_rest();
                if j + 1 < 63 {
                    vstd::arithmetic::power2::lemma_pow2_strictly_increases((j + 1) as nat, 63);
                }
            }
            wt = wt * 2;
            j = j + 1;
        }

        let mut weights: Vec<u64> = Vec::new();
        let mut i: usize = 0;
        while i < num_levels
            invariant
                0 <= i <= num_levels,
                1 <= num_levels <= 64,
                weights@.len() == i,
                i < num_levels ==> wt == pow2((num_levels - 1 - i) as nat),
                sum_of(weights@) == pow2(num_levels as nat) - pow2((num_levels - i) as nat),
            decreases num_levels - i,
        {
            proof {
                vstd::arithmetic::power2::lemma_pow2_unfold((num_levels - i) as nat);
                assert(weights@.push(wt).drop_last() =~= weights@);
            }
            weights.push(wt);
            wt = wt / 2;
            proof {
                if i + 1 < num_levels {
                    vstd::arithmetic::power2::lemma_pow2_unfold((num_levels - 1 - i) as nat);
                }
            }
            i = i + 1;
        }
        proof {
            vstd::arithmetic::power2::lemma2_to64_rest();
            if num_levels < 64 {
                vstd::arithmetic::power2::lemma_pow2_strictly_increases(num_levels as nat, 64);
            }
        }

        let sample = WeightedSample::new(samples, weights);
        let mut head = Node::new(0, &default_value, NIL, num_levels);
        let mut t: usize = 0;
        while t < num_levels
            invariant
                head.next_pointers@.len() == t,
                t <= num_levels,
                head.id == 0,
                head.val == default_value,
                head.level == num_levels,
                forall|l: int| 0 <= l < t ==> head.next_pointers@[l] == NIL,
            decreases num_levels - t,
        {
            head.next_pointers.push(NIL);
            t = t + 1;
        }
        let mut node_vector: Vec<Option<Node>> = Vec::new();
        node_vector.push(Some(head));

        let s = Self {
            num_levels,
            head_id: 0,
            sample_obj: sample,
            curr_id: 0,
            node_vec: node_vector,
            chains: Ghost(Seq::new(num_levels as nat, |l: int| Seq::<usize>::empty())),
        };
        proof {
            assert forall|l: int| 0 <= l < s.num_levels implies s.chain_ok(l) by {
                assert(s.chain(l).len() == 0);
            }
            assert(s@ =~= Seq::<(i64, usize)>::empty());
        }
        s
    }
}

impl SkipList {
    /// Every chain is sorted: the level-0 chain by its own invariant, the
    /// higher chains because they respect the level-0 order.
    proof fn lemma_level_sorted(self, l: int)
        requires
            self.wf(),
            0 <= l < self.levels(),
        ensures
            forall|k1: int, k2: int|
                0 <= k1 <= k2 < self.chain(l).len() ==> self.val_at(self.chain(l)[k1] as int)
                    <= self.val_at(self.chain(l)[k2] as int),
    {
        if l >= 1 {
            assert forall|k1: int, k2: int|
                0 <= k1 <= k2 < self.chain(l).len() implies self.val_at(self.chain(l)[k1] as int)
                <= self.val_at(self.chain(l)[k2] as int) by {
                if k1 < k2 {
                    let id1 = self.chain(l)[k1];
                    let id2 = self.chain(l)[k2];
                    assert(self.chain_ok(l));
                    assert(self.link_ok(l, k1));
                    assert(self.link_ok(l, k2));
                    assert(self.node_ok(id1 as int));
                    assert(self.node_ok(id2 as int));
                    assert(self.chain(0).contains(id1));
                    assert(self.chain(0).contains(id2));
                    let r1 = self.rank(id1);
                    let r2 = self.rank(id2);
                    assert(0 <= r1 < self.chain(0).len() && self.chain(0)[r1] == id1);
                    assert(0 <= r2 < self.chain(0).len() && self.chain(0)[r2] == id2);
                    assert(r1 < r2);
                }
            }
        }
    }

    /// The membership invariant read off for one node: a live node stands in
    /// every chain below its tower height.
    proof fn lemma_member(self, id: usize, l: int)
        requires
            self.wf(),
            1 <= id < self.nodes().len(),
            self.is_live(id as int),
            0 <= l < self.lvl_at(id as int),
        ensures
            self.chain(l).contains(id),
            exists|k: int| 0 <= k < self.chain(l).len() && self.chain(l)[k] == id,
    {
        assert(self.node_ok(id as int));
        let k = choose|k: int| 0 <= k < self.chain(l).len() && self.chain(l)[k] == id;
        assert(self.chain(l)[k] == id);
    }

    /// Walks the tower from the top level down, advancing at each level
    /// while the next node's value misses the bound, and records at each
    /// level the last id before the bound (the head where none precedes it).
    fn descend(&self, val: i64, incl: bool) -> (prevs: Vec<usize>)
        requires
            self.wf(),
        ensures
            prevs@.len() == self.levels(),
            forall|l: int| 0 <= l < self.levels() ==> self.prev_ok(l, prevs@[l], val, incl),
    {
        let nl = self.num_levels;
        let mut prevs: Vec<usize> = vec![0; nl];
        let mut curr: usize = 0;
        let mut l: usize = nl;
        while l > 0
            invariant
                self.wf(),
                nl == self.num_levels,
                prevs@.len() == nl,
                l <= nl,
                curr == 0 || (1 <= curr < self.nodes().len() && self.is_live(curr as int)
                    && !above(self.val_at(curr as int), val, incl) && l <= self.lvl_at(
                    curr as int,
                )),
                forall|ll: int| l <= ll < nl ==> self.prev_ok(ll, prevs@[ll], val, incl),
            decreases l,
        {
            l = l - 1;
            let ghost mut kpos: int = -1;
            proof {
                if curr != 0 {
                    self.lemma_member(curr, l as int);
                    kpos = choose|k: int|
                        0 <= k < self.chain(l as int).len() && self.chain(l as int)[k] == curr;
                    self.lemma_level_sorted(l as int);
                    assert forall|k: int| 0 <= k <= kpos implies !above(
                        self.val_at(self.chain(l as int)[k] as int),
                        val,
                        incl,
                    ) by {
                        assert(self.val_at(self.chain(l as int)[k] as int) <= self.val_at(
                            curr as int,
                        ));
                    }
                }
            }
            loop
                invariant
                    self.wf(),
                    nl == self.num_levels,
                    (l as int) < nl,
                    (curr == 0 && kpos == -1) || (0 <= kpos < self.chain(l as int).len()
                        && self.chain(l as int)[kpos] == curr && 1 <= curr
                        < self.nodes().len()),
                    forall|k: int|
                        0 <= k <= kpos ==> !above(
                            self.val_at(self.chain(l as int)[k] as int),
                            val,
                            incl,
                        ),
                ensures
                    first_above(self.level_values(l as int), val, incl) == kpos + 1,
                decreases self.chain(l as int).len() - kpos,
            {
                proof {
                    assert(self.chain_ok(l as int));
                    if curr != 0 {
                        assert(self.link_ok(l as int, kpos));
                        assert(self.node_ok(curr as int));
                    }
                }
                let nxt_id = self.node_vec[curr].as_ref().unwrap().next_pointers[l];
                if nxt_id == NIL {
                    proof {
                        if kpos + 1 < self.chain(l as int).len() {
                            assert(self.link_ok(l as int, kpos + 1));
                            assert(false);
                        }
                        assert(kpos + 1 == self.chain(l as int).len());
                        lemma_first_above_is(
                            self.level_values(l as int),
                            val,
                            incl,
                            kpos + 1,
                        );
                    }
                    break ;
                }
                proof {
                    if kpos + 1 >= self.chain(l as int).len() {
                        assert(false);
                    }
                    assert(self.link_ok(l as int, kpos + 1));
                }
                let nv = self.node_vec[nxt_id].as_ref().unwrap().val;
                let reached = if incl {
                    nv >= val
                } else {
                    nv > val
                };
                if reached {
                    proof {
                        lemma_first_above_is(
                            self.level_values(l as int),
                            val,
                            incl,
                            kpos + 1,
                        );
                    }
                    break ;
                }
                curr = nxt_id;
                proof {
                    kpos = kpos + 1;
                }
            }
            prevs.set(l, curr);
            proof {
                let j = first_above(self.level_values(l as int), val, incl);
                if curr == 0 {
                    assert(j == 0);
                    assert(self.prev_ok(l as int, curr, val, incl));
                } else {
                    assert(j == kpos + 1 && self.chain(l as int)[j - 1] == curr);
                    assert(self.prev_ok(l as int, curr, val, incl));
                    assert(self.chain_ok(l as int));
                    assert(self.link_ok(l as int, kpos));
                }
            }
        }
        prevs
    }

    /// Where a prev id stands relative to the bound at one level: the entry
    /// just before the first chain entry reaching the bound, or the head.
    pub closed spec fn prev_ok(self, l: int, p: usize, val: i64, incl: bool) -> bool {
        let j = first_above(self.level_values(l), val, incl);
        if j == 0 {
            p == 0
        } else {
            p == self.chain(l)[j - 1]
        }
    }

    /// The arena's size: the count of slots, holes included.
    pub closed spec fn node_count(self) -> int {
        self.node_vec@.len() as int
    }

    /// The state right after the splice loop: the new node pushed with its
    /// tower of recorded successors, every boundary prev rewired to it, and
    /// the chains extended at each spliced level's boundary.
    spec fn insert_splice_state(
        self,
        old0: Self,
        prevs: Seq<usize>,
        succs: Seq<usize>,
        v: i64,
        idx: usize,
        h: usize,
        new_id: usize,
    ) -> bool {
        &&& old0.wf()
        &&& old0.node_count() < usize::MAX - 1
        &&& 1 <= h <= old0.levels()
        &&& new_id == old0.node_count()
        &&& prevs.len() == old0.levels()
        &&& (forall|ll: int| 0 <= ll < old0.levels() ==> old0.prev_ok(ll, prevs[ll], v, true))
        &&& succs.len() == old0.levels()
        &&& (forall|ll: int|
            0 <= ll < old0.levels() ==> succs[ll] == old0.spec_succ(ll, v, true))
        &&& self.num_levels == old0.num_levels
        &&& self.head_id == old0.head_id
        &&& self.sample_obj == old0.sample_obj
        &&& self.curr_id == new_id
        &&& self.node_vec@.len() == old0.node_vec@.len() + 1
        &&& self.node_vec@[new_id as int] is Some
        &&& self.node_at(new_id as int).id == new_id
        &&& self.node_at(new_id as int).val == v
        &&& self.node_at(new_id as int).index == idx
        &&& self.node_at(new_id as int).level == h
        &&& self.node_at(new_id as int).next_pointers@ == succs.take(h as int)
        &&& (forall|id: int|
            0 <= id < old0.node_vec@.len() ==> (self.node_vec@[id] is Some
                <==> old0.node_vec@[id] is Some))
        &&& (forall|id: int|
            0 <= id < old0.node_vec@.len() && self.node_vec@[id] is Some ==> {
                &&& self.node_at(id).id == old0.node_at(id).id
                &&& self.node_at(id).val == old0.node_at(id).val
                &&& self.node_at(id).index == old0.node_at(id).index
                &&& self.node_at(id).level == old0.node_at(id).level
                &&& self.node_at(id).next_pointers@.len() == old0.node_at(
                    id,
                ).next_pointers@.len()
            })
        &&& (forall|id: int, t2: int|
            0 <= id < old0.node_vec@.len() && self.node_vec@[id] is Some && 0 <= t2
                < self.node_at(id).next_pointers@.len() ==> self.nxt(id, t2) == (if t2 < h
                && prevs[t2] == id {
                new_id
            } else {
                old0.nxt(id, t2)
            }))
        &&& self.chains@ == Seq::new(
            old0.levels() as nat,
            |ll: int|
                if ll < h {
                    old0.chain(ll).insert(first_above(old0.level_values(ll), v, true), new_id)
                } else {
                    old0.chain(ll)
                },
        )
    }

    /// After the splice loop, the structure with the new node wired in at
    /// every level of its tower is well-formed again, and its level-0 chain
    /// gained exactly the new pair at the boundary.
    #[verifier::rlimit(100)]
    proof fn lemma_insert_restore(
        self,
        old0: Self,
        prevs: Seq<usize>,
        succs: Seq<usize>,
        v: i64,
        idx: usize,
        h: usize,
        new_id: usize,
    )
        requires
            self.insert_splice_state(old0, prevs, succs, v, idx, h, new_id),
        ensures
            self.wf(),
            self@ == old0@.insert(first_above(old0.level_values(0), v, true), (v, idx)),
            self.levels() == old0.levels(),
            self.node_count() == old0.node_count() + 1,
    {
        let nl = old0.levels();
        let j0 = first_above(old0.level_values(0), v, true);
        assert forall|ll: int| 0 <= ll < nl implies #[trigger] old0.chain_ok(ll) by {}
        assert forall|ll: int| 0 <= ll < nl implies 0 <= #[trigger] first_above(
            old0.level_values(ll),
            v,
            true,
        ) <= old0.chain(ll).len() by {
            lemma_first_above_bounds(old0.level_values(ll), v, true);
        }
        // The boundary prev at each level is the head exactly when the
        // boundary is the chain start, and chain ids never collide with the
        // head or the fresh id.
        assert forall|ll: int, k: int|
            0 <= ll < nl && 0 <= k < old0.chain(ll).len() implies 1 <= #[trigger] old0.chain(
                ll,
            )[k] < old0.node_vec@.len() by {
            assert(old0.chain_ok(ll));
            assert(old0.link_ok(ll, k));
        }
        // Index bookkeeping for each spliced level.
        assert forall|ll: int| 0 <= ll < h implies self.chain(ll) == old0.chain(ll).insert(
            first_above(old0.level_values(ll), v, true),
            new_id,
        ) by {}
        assert forall|ll: int| h <= ll < nl implies self.chain(ll) == old0.chain(ll) by {}
        // Liveness in the new state.
        assert forall|id: int|
            0 <= id < old0.node_vec@.len() implies (self.is_live(id) <==> old0.is_live(id)) by {}
        assert(self.is_live(new_id as int));

        self.lemma_insert_chain_ok(old0, prevs, succs, v, idx, h, new_id);
        self.lemma_insert_node_ok(old0, prevs, succs, v, idx, h, new_id);
        self.lemma_insert_vals(old0, prevs, succs, v, idx, h, new_id);
        self.lemma_insert_ranks(old0, prevs, succs, v, idx, h, new_id);
        self.lemma_insert_view(old0, prevs, succs, v, idx, h, new_id);
    }

    /// Every chain of the spliced structure is stitched through the arena.
    #[verifier::rlimit(100)]
    proof fn lemma_insert_chain_ok(
        self,
        old0: Self,
        prevs: Seq<usize>,
        succs: Seq<usize>,
        v: i64,
        idx: usize,
        h: usize,
        new_id: usize,
    )
        requires
            self.insert_splice_state(old0, prevs, succs, v, idx, h, new_id),
        ensures
            forall|ll: int| 0 <= ll < old0.levels() ==> self.chain_ok(ll),
    {
        let nl = old0.levels();
        let j0 = first_above(old0.level_values(0), v, true);
        assert forall|ll: int| 0 <= ll < nl implies #[trigger] old0.chain_ok(ll) by {}
        assert forall|ll: int| 0 <= ll < nl implies 0 <= #[trigger] first_above(
            old0.level_values(ll),
            v,
            true,
        ) <= old0.chain(ll).len() by {
            lemma_first_above_bounds(old0.level_values(ll), v, true);
        }
        // The boundary prev at each level is the head exactly when the
        // boundary is the chain start, and chain ids never collide with the
        // head or the fresh id.
        assert forall|ll: int, k: int|
            0 <= ll < nl && 0 <= k < old0.chain(ll).len() implies 1 <= #[trigger] old0.chain(
                ll,
            )[k] < old0.node_vec@.len() by {
            assert(old0.chain_ok(ll));
            assert(old0.link_ok(ll, k));
        }
        // Index bookkeeping for each spliced level.
        assert forall|ll: int| 0 <= ll < h implies self.chain(ll) == old0.chain(ll).insert(
            first_above(old0.level_values(ll), v, true),
            new_id,
        ) by {}
        assert forall|ll: int| h <= ll < nl implies self.chain(ll) == old0.chain(ll) by {}
        // Liveness in the new state.
        assert forall|id: int|
            0 <= id < old0.node_vec@.len() implies (self.is_live(id) <==> old0.is_live(id)) by {}
        assert(self.is_live(new_id as int));

        // chain_ok at every level.
        assert forall|ll: int| 0 <= ll < nl implies self.chain_ok(ll) by {
            let j = first_above(old0.level_values(ll), v, true);
            let c = old0.chain(ll);
            let c2 = self.chain(ll);
            assert(old0.chain_ok(ll));
            lemma_first_above_bounds(old0.level_values(ll), v, true);
            if ll < h {
                old0.chain(ll).insert_ensures(j, new_id);
                // the head pointer
                if j == 0 {
                    assert(prevs[ll] == 0);
                    assert(self.nxt(0, ll) == new_id);
                    assert(c2[0] == new_id);
                } else {
                    assert(prevs[ll] == c[j - 1]);
                    assert(old0.link_ok(ll, j - 1));
                    assert(prevs[ll] != 0);
                    assert(self.nxt(0, ll) == old0.nxt(0, ll));
                    assert(c2[0] == c[0]);
                }
                // every link
                assert forall|k: int| 0 <= k < c2.len() implies self.link_ok(ll, k) by {
                    if k < j {
                        assert(c2[k] == c[k]);
                        assert(old0.link_ok(ll, k));
                        let x = c[k] as int;
                        if j >= 1 && c[k] == c[j - 1] {
                            assert(k == j - 1) by {
                                if k < j - 1 {
                                    assert(old0.nodup());
                                    assert(c[k] != c[j - 1]);
                                }
                            }
                        }
                        if k == j - 1 {
                            assert(prevs[ll] == c[k]);
                            assert(self.nxt(x, ll) == new_id);
                            assert(c2[k + 1] == new_id);
                        } else {
                            assert(j == 0 || prevs[ll] == c[j - 1]);
                            assert(prevs[ll] != c[k]) by {
                                if j >= 1 {
                                    assert(c[k] != c[j - 1]);
                                }
                            }
                            assert(self.nxt(x, ll) == old0.nxt(x, ll));
                            assert(k + 1 < j);
                            assert(c2[k + 1] == c[k + 1]);
                        }
                    } else if k == j {
                        assert(c2[k] == new_id);
                        assert((ll as int) < h as int);
                        assert(self.node_at(new_id as int).next_pointers@.len() == h);
                        assert(self.nxt(new_id as int, ll) == succs.take(h as int)[ll]);
                        assert(succs[ll] == old0.spec_succ(ll, v, true));
                        if j < c.len() {
                            assert(succs[ll] == c[j]);
                            assert(c2[k + 1] == c[j]);
                        } else {
                            assert(succs[ll] == NIL);
                            assert(k + 1 == c2.len());
                        }
                    } else {
                        assert(c2[k] == c[k - 1]);
                        assert(old0.link_ok(ll, k - 1));
                        let x = c[k - 1] as int;
                        assert(prevs[ll] != c[k - 1]) by {
                            if j >= 1 && k - 1 != j - 1 {
                                assert(old0.nodup());
                                assert(c[k - 1] != c[j - 1]);
                            }
                        }
                        assert(self.nxt(x, ll) == old0.nxt(x, ll));
                        if k < c2.len() - 1 {
                            assert(c2[k + 1] == c[k]);
                        }
                    }
                }
            } else {
                assert(self.nxt(0, ll) == old0.nxt(0, ll));
                assert forall|k: int| 0 <= k < c2.len() implies self.link_ok(ll, k) by {
                    assert(old0.link_ok(ll, k));
                    let x = c[k] as int;
                    assert(self.nxt(x, ll) == old0.nxt(x, ll)) by {
                        if ll < h && prevs[ll] == c[k] {
                        }
                    }
                }
            }
        }

    }

    /// Every live node of the spliced structure stands in the chains below its tower.
    #[verifier::rlimit(100)]
    proof fn lemma_insert_node_ok(
        self,
        old0: Self,
        prevs: Seq<usize>,
        succs: Seq<usize>,
        v: i64,
        idx: usize,
        h: usize,
        new_id: usize,
    )
        requires
            self.insert_splice_state(old0, prevs, succs, v, idx, h, new_id),
        ensures
            forall|id: int|
                1 <= id < self.node_vec@.len() && self.is_live(id) ==> self.node_ok(id),
    {
        let nl = old0.levels();
        let j0 = first_above(old0.level_values(0), v, true);
        assert forall|ll: int| 0 <= ll < nl implies #[trigger] old0.chain_ok(ll) by {}
        assert forall|ll: int| 0 <= ll < nl implies 0 <= #[trigger] first_above(
            old0.level_values(ll),
            v,
            true,
        ) <= old0.chain(ll).len() by {
            lemma_first_above_bounds(old0.level_values(ll), v, true);
        }
        // The boundary prev at each level is the head exactly when the
        // boundary is the chain start, and chain ids never collide with the
        // head or the fresh id.
        assert forall|ll: int, k: int|
            0 <= ll < nl && 0 <= k < old0.chain(ll).len() implies 1 <= #[trigger] old0.chain(
                ll,
            )[k] < old0.node_vec@.len() by {
            assert(old0.chain_ok(ll));
            assert(old0.link_ok(ll, k));
        }
        // Index bookkeeping for each spliced level.
        assert forall|ll: int| 0 <= ll < h implies self.chain(ll) == old0.chain(ll).insert(
            first_above(old0.level_values(ll), v, true),
            new_id,
        ) by {}
        assert forall|ll: int| h <= ll < nl implies self.chain(ll) == old0.chain(ll) by {}
        // Liveness in the new state.
        assert forall|id: int|
            0 <= id < old0.node_vec@.len() implies (self.is_live(id) <==> old0.is_live(id)) by {}
        assert(self.is_live(new_id as int));

        // node_ok for every live node.
        assert forall|id: int|
            1 <= id < self.node_vec@.len() && self.is_live(id) implies self.node_ok(id) by {
            if id < old0.node_vec@.len() {
                assert(old0.node_ok(id));
                assert forall|t2: int| 0 <= t2 < self.lvl_at(id) implies self.chain(t2).contains(
                    self.node_at(id).id as usize,
                ) by {
                    assert(old0.chain(t2).contains(id as usize));
                    let k = choose|k: int|
                        0 <= k < old0.chain(t2).len() && old0.chain(t2)[k] == id as usize;
                    if t2 < h {
                        let j = first_above(old0.level_values(t2), v, true);
                        old0.chain(t2).insert_ensures(j, new_id);
                        if k < j {
                            assert(self.chain(t2)[k] == id as usize);
                        } else {
                            assert(self.chain(t2)[k + 1] == id as usize);
                        }
                    } else {
                        assert(self.chain(t2)[k] == id as usize);
                    }
                }
            } else {
                assert(id == new_id);
                assert forall|t2: int| 0 <= t2 < h implies self.chain(t2).contains(
                    new_id,
                ) by {
                    let j = first_above(old0.level_values(t2), v, true);
                    lemma_first_above_bounds(old0.level_values(t2), v, true);
                    old0.chain(t2).insert_ensures(j, new_id);
                    assert(self.chain(t2)[j] == new_id);
                }
            }
        }

    }

    /// The spliced level-0 chain is sorted and no chain repeats an id.
    #[verifier::rlimit(100)]
    proof fn lemma_insert_vals(
        self,
        old0: Self,
        prevs: Seq<usize>,
        succs: Seq<usize>,
        v: i64,
        idx: usize,
        h: usize,
        new_id: usize,
    )
        requires
            self.insert_splice_state(old0, prevs, succs, v, idx, h, new_id),
        ensures
            self.sorted0(),
            self.nodup(),
    {
        let nl = old0.levels();
        let j0 = first_above(old0.level_values(0), v, true);
        assert forall|ll: int| 0 <= ll < nl implies #[trigger] old0.chain_ok(ll) by {}
        assert forall|ll: int| 0 <= ll < nl implies 0 <= #[trigger] first_above(
            old0.level_values(ll),
            v,
            true,
        ) <= old0.chain(ll).len() by {
            lemma_first_above_bounds(old0.level_values(ll), v, true);
        }
        // The boundary prev at each level is the head exactly when the
        // boundary is the chain start, and chain ids never collide with the
        // head or the fresh id.
        assert forall|ll: int, k: int|
            0 <= ll < nl && 0 <= k < old0.chain(ll).len() implies 1 <= #[trigger] old0.chain(
                ll,
            )[k] < old0.node_vec@.len() by {
            assert(old0.chain_ok(ll));
            assert(old0.link_ok(ll, k));
        }
        // Index bookkeeping for each spliced level.
        assert forall|ll: int| 0 <= ll < h implies self.chain(ll) == old0.chain(ll).insert(
            first_above(old0.level_values(ll), v, true),
            new_id,
        ) by {}
        assert forall|ll: int| h <= ll < nl implies self.chain(ll) == old0.chain(ll) by {}
        // Liveness in the new state.
        assert forall|id: int|
            0 <= id < old0.node_vec@.len() implies (self.is_live(id) <==> old0.is_live(id)) by {}
        assert(self.is_live(new_id as int));

        // values along the new level-0 chain
        let c0 = old0.chain(0);
        let c02 = self.chain(0);
        old0.chain(0).insert_ensures(j0, new_id);
        lemma_first_above_bounds(old0.level_values(0), v, true);
        assert forall|k: int| 0 <= k < c02.len() implies self.val_at(c02[k] as int) == (if k < j0 {
            old0.val_at(c0[k] as int)
        } else if k == j0 {
            v
        } else {
            old0.val_at(c0[k - 1] as int)
        }) by {
            assert(old0.chain_ok(0));
            if k < j0 {
                assert(old0.link_ok(0, k));
            } else if k > j0 {
                assert(old0.link_ok(0, k - 1));
            }
        }

        // sortedness of the new level-0 chain
        assert(self.sorted0()) by {
            assert forall|k1: int, k2: int|
                0 <= k1 <= k2 < c02.len() implies self.val_at(c02[k1] as int) <= self.val_at(
                c02[k2] as int,
            ) by {
                let w1 = self.val_at(c02[k1] as int);
                let w2 = self.val_at(c02[k2] as int);
                if k1 < j0 {
                    assert(!above(old0.level_values(0)[k1], v, true));
                    assert(w1 < v);
                }
                if k2 > j0 {
                    if k2 - 1 >= j0 && j0 < c0.len() {
                        assert(above(old0.level_values(0)[j0], v, true));
                        assert(old0.val_at(c0[j0] as int) >= v);
                        assert(old0.val_at(c0[j0] as int) <= old0.val_at(c0[k2 - 1] as int));
                    }
                    assert(w2 >= v);
                }
            }
        }

        // no duplicate ids anywhere
        assert(self.nodup()) by {
            assert forall|ll: int, k1: int, k2: int|
                0 <= ll < nl && 0 <= k1 < k2 < self.chain(ll).len() implies self.chain(ll)[k1]
                != self.chain(ll)[k2] by {
                if ll < h {
                    let j = first_above(old0.level_values(ll), v, true);
                    old0.chain(ll).insert_ensures(j, new_id);
                    assert(old0.nodup());
                } else {
                    assert(old0.nodup());
                }
            }
        }

    }

    /// The spliced higher chains still respect the level-0 order.
    #[verifier::rlimit(100)]
    proof fn lemma_insert_ranks(
        self,
        old0: Self,
        prevs: Seq<usize>,
        succs: Seq<usize>,
        v: i64,
        idx: usize,
        h: usize,
        new_id: usize,
    )
        requires
            self.insert_splice_state(old0, prevs, succs, v, idx, h, new_id),
        ensures
            self.ranks_ok(),
    {
        let nl = old0.levels();
        let j0 = first_above(old0.level_values(0), v, true);
        assert forall|ll: int| 0 <= ll < nl implies #[trigger] old0.chain_ok(ll) by {}
        assert forall|ll: int| 0 <= ll < nl implies 0 <= #[trigger] first_above(
            old0.level_values(ll),
            v,
            true,
        ) <= old0.chain(ll).len() by {
            lemma_first_above_bounds(old0.level_values(ll), v, true);
        }
        // The boundary prev at each level is the head exactly when the
        // boundary is the chain start, and chain ids never collide with the
        // head or the fresh id.
        assert forall|ll: int, k: int|
            0 <= ll < nl && 0 <= k < old0.chain(ll).len() implies 1 <= #[trigger] old0.chain(
                ll,
            )[k] < old0.node_vec@.len() by {
            assert(old0.chain_ok(ll));
            assert(old0.link_ok(ll, k));
        }
        // Index bookkeeping for each spliced level.
        assert forall|ll: int| 0 <= ll < h implies self.chain(ll) == old0.chain(ll).insert(
            first_above(old0.level_values(ll), v, true),
            new_id,
        ) by {}
        assert forall|ll: int| h <= ll < nl implies self.chain(ll) == old0.chain(ll) by {}
        // Liveness in the new state.
        assert forall|id: int|
            0 <= id < old0.node_vec@.len() implies (self.is_live(id) <==> old0.is_live(id)) by {}
        assert(self.is_live(new_id as int));

        self.lemma_insert_vals(old0, prevs, succs, v, idx, h, new_id);
        let c0 = old0.chain(0);
        old0.chain(0).insert_ensures(j0, new_id);
        lemma_first_above_bounds(old0.level_values(0), v, true);
        // rank bookkeeping: old ids keep their order, the new id stands at
        // the boundary.
        assert(self.rank(new_id) == j0) by {
            self.lemma_rank_is(new_id, j0);
        }
        assert forall|k: int| 0 <= k < c0.len() implies self.rank(c0[k]) == (if k < j0 {
            k
        } else {
            k + 1
        }) by {
            if k < j0 {
                self.lemma_rank_is(c0[k], k);
            } else {
                self.lemma_rank_is(c0[k], k + 1);
            }
        }
        assert forall|k: int| 0 <= k < c0.len() implies old0.rank(c0[k]) == k by {
            old0.lemma_rank_is(c0[k], k);
        }

        assert(self.ranks_ok()) by {
            assert forall|ll: int, k1: int, k2: int|
                1 <= ll < nl && 0 <= k1 < k2 < self.chain(ll).len() implies self.rank(
                self.chain(ll)[k1],
            ) < self.rank(self.chain(ll)[k2]) by {
                let c = old0.chain(ll);
                let c2 = self.chain(ll);
                let j = first_above(old0.level_values(ll), v, true);
                lemma_first_above_bounds(old0.level_values(ll), v, true);
                if ll < h {
                    old0.chain(ll).insert_ensures(j, new_id);
                } else {
                    assert(c2 == c);
                }
                // each old entry's new rank relates to its old rank
                assert forall|k: int| 0 <= k < c.len() implies {
                    &&& old0.chain(0).contains(c[k])
                    &&& self.rank(c[k]) == (if old0.rank(c[k]) < j0 {
                        old0.rank(c[k])
                    } else {
                        old0.rank(c[k]) + 1
                    })
                } by {
                    assert(old0.chain_ok(ll));
                    assert(old0.link_ok(ll, k));
                    assert(old0.node_ok(c[k] as int));
                    assert(old0.chain(0).contains(c[k]));
                    let r = old0.rank(c[k]);
                    assert(0 <= r < c0.len() && c0[r] == c[k]);
                }
                if ll < h {
                    if k1 < j && k2 < j {
                        assert(old0.ranks_ok());
                        assert(old0.rank(c[k1]) < old0.rank(c[k2]));
                    } else if k1 < j && k2 == j {
                        // old entry before the new node: its value misses the bound
                        assert(!above(old0.level_values(ll)[k1], v, true));
                        assert(old0.chain(0).contains(c[k1])) by {
                            assert(old0.chain_ok(ll));
                            assert(old0.link_ok(ll, k1));
                            assert(old0.node_ok(c[k1] as int));
                        }
                        old0.lemma_rank_vs_boundary(c[k1], v, true);
                        assert(old0.rank(c[k1]) < j0);
                    } else if k1 < j && k2 > j {
                        assert(!above(old0.level_values(ll)[k1], v, true));
                        old0.lemma_rank_vs_boundary(c[k1], v, true);
                        assert(above(old0.level_values(ll)[k2 - 1], v, true));
                        old0.lemma_rank_vs_boundary(c[k2 - 1], v, true);
                        assert(old0.rank(c[k1]) < j0 <= old0.rank(c[k2 - 1]));
                    } else if k1 == j {
                        assert(k2 > j);
                        assert(above(old0.level_values(ll)[k2 - 1], v, true));
                        old0.lemma_rank_vs_boundary(c[k2 - 1], v, true);
                        assert(old0.rank(c[k2 - 1]) >= j0);
                    } else {
                        assert(k1 > j && k2 > j);
                        assert(old0.ranks_ok());
                        assert(old0.rank(c[k1 - 1]) < old0.rank(c[k2 - 1]));
                    }
                } else {
                    assert(old0.ranks_ok());
                    assert(old0.rank(c[k1]) < old0.rank(c[k2]));
                }
            }
        }

    }

    /// The view gained exactly the new pair at the boundary.
    #[verifier::rlimit(100)]
    proof fn lemma_insert_view(
        self,
        old0: Self,
        prevs: Seq<usize>,
        succs: Seq<usize>,
        v: i64,
        idx: usize,
        h: usize,
        new_id: usize,
    )
        requires
            self.insert_splice_state(old0, prevs, succs, v, idx, h, new_id),
        ensures
            self@ == old0@.insert(first_above(old0.level_values(0), v, true), (v, idx)),
    {
        let nl = old0.levels();
        let j0 = first_above(old0.level_values(0), v, true);
        assert forall|ll: int| 0 <= ll < nl implies #[trigger] old0.chain_ok(ll) by {}
        assert forall|ll: int| 0 <= ll < nl implies 0 <= #[trigger] first_above(
            old0.level_values(ll),
            v,
            true,
        ) <= old0.chain(ll).len() by {
            lemma_first_above_bounds(old0.level_values(ll), v, true);
        }
        // The boundary prev at each level is the head exactly when the
        // boundary is the chain start, and chain ids never collide with the
        // head or the fresh id.
        assert forall|ll: int, k: int|
            0 <= ll < nl && 0 <= k < old0.chain(ll).len() implies 1 <= #[trigger] old0.chain(
                ll,
            )[k] < old0.node_vec@.len() by {
            assert(old0.chain_ok(ll));
            assert(old0.link_ok(ll, k));
        }
        // Index bookkeeping for each spliced level.
        assert forall|ll: int| 0 <= ll < h implies self.chain(ll) == old0.chain(ll).insert(
            first_above(old0.level_values(ll), v, true),
            new_id,
        ) by {}
        assert forall|ll: int| h <= ll < nl implies self.chain(ll) == old0.chain(ll) by {}
        // Liveness in the new state.
        assert forall|id: int|
            0 <= id < old0.node_vec@.len() implies (self.is_live(id) <==> old0.is_live(id)) by {}
        assert(self.is_live(new_id as int));

        let c0 = old0.chain(0);
        let c02 = self.chain(0);
        old0.chain(0).insert_ensures(j0, new_id);
        lemma_first_above_bounds(old0.level_values(0), v, true);
        assert(old0.chain_ok(0));
        // the view gained exactly the new pair at the boundary
        assert(self@ == old0@.insert(j0, (v, idx))) by {
            old0@.insert_ensures(j0, (v, idx));
            assert forall|k: int| 0 <= k < c02.len() implies self@[k] == old0@.insert(
                j0,
                (v, idx),
            )[k] by {
                if k < j0 {
                    assert(old0.link_ok(0, k));
                    assert(self@[k] == (self.val_at(c02[k] as int), self.node_at(c02[k] as int).index));
                } else if k > j0 {
                    assert(old0.link_ok(0, k - 1));
                }
            }
            assert(self@ =~= old0@.insert(j0, (v, idx)));
        }

    }

    /// Rewires one forward pointer in the arena, leaving every other slot,
    /// field and the ghost chains as they were.
    fn set_forward(&mut self, id: usize, l: usize, target: usize)
        requires
            old(self).is_live(id as int),
            (l as int) < old(self).node_at(id as int).next_pointers@.len(),
        ensures
            final(self).node_vec@.len() == old(self).node_vec@.len(),
            forall|j: int|
                0 <= j < old(self).node_vec@.len() && j != id ==> final(self).node_vec@[j] == old(
                    self,
                ).node_vec@[j],
            final(self).is_live(id as int),
            final(self).node_at(id as int).id == old(self).node_at(id as int).id,
            final(self).node_at(id as int).val == old(self).node_at(id as int).val,
            final(self).node_at(id as int).index == old(self).node_at(id as int).index,
            final(self).node_at(id as int).level == old(self).node_at(id as int).level,
            final(self).node_at(id as int).next_pointers@ == old(self).node_at(
                id as int,
            ).next_pointers@.update(l as int, target),
            final(self).num_levels == old(self).num_levels,
            final(self).head_id == old(self).head_id,
            final(self).sample_obj == old(self).sample_obj,
            final(self).curr_id == old(self).curr_id,
            final(self).chains == old(self).chains,
    {
        let mut slot: Option<Node> = None;
        core::mem::swap(&mut slot, &mut self.node_vec[id]);
        let mut node = slot.unwrap();
        node.next_pointers.set(l, target);
        self.node_vec.set(id, Some(node));
    }

    /// Reads one forward pointer.
    fn get_forward(&self, id: usize, l: usize) -> (r: usize)
        requires
            self.is_live(id as int),
            (l as int) < self.node_at(id as int).next_pointers@.len(),
        ensures
            r == self.nxt(id as int, l as int),
    {
        self.node_vec[id].as_ref().unwrap().next_pointers[l]
    }

    /// The id after the boundary at one level: the first chain entry
    /// reaching the bound, or the none sentinel.
    pub closed spec fn spec_succ(self, l: int, val: i64, incl: bool) -> usize {
        let j = first_above(self.level_values(l), val, incl);
        if j < self.chain(l).len() {
            self.chain(l)[j]
        } else {
            NIL
        }
    }

    /// Reads, at every level, the id that will follow the boundary the
    /// descent found.
    fn collect_succs(&self, prevs: &Vec<usize>, val: i64, incl: bool) -> (succs: Vec<usize>)
        requires
            self.wf(),
            prevs@.len() == self.levels(),
            forall|l: int| 0 <= l < self.levels() ==> self.prev_ok(l, prevs@[l], val, incl),
        ensures
            succs@.len() == self.levels(),
            forall|l: int| 0 <= l < self.levels() ==> succs@[l] == self.spec_succ(l, val, incl),
    {
        let nl = self.num_levels;
        let mut succs: Vec<usize> = Vec::new();
        let mut l: usize = 0;
        while l < nl
            invariant
                self.wf(),
                nl == self.num_levels,
                prevs@.len() == nl,
                forall|ll: int| 0 <= ll < nl ==> self.prev_ok(ll, prevs@[ll], val, incl),
                succs@.len() == l,
                l <= nl,
                forall|ll: int| 0 <= ll < l ==> succs@[ll] == self.spec_succ(ll, val, incl),
            decreases nl - l,
        {
            let p = prevs[l];
            proof {
                let jl = first_above(self.level_values(l as int), val, incl);
                lemma_first_above_bounds(self.level_values(l as int), val, incl);
                assert(self.chain_ok(l as int));
                assert(self.prev_ok(l as int, p, val, incl));
                if jl != 0 {
                    assert(self.link_ok(l as int, jl - 1));
                    assert(self.node_ok(p as int));
                }
            }
            let s = self.get_forward(p, l);
            succs.push(s);
            l = l + 1;
        }
        succs
    }

    /// An element with a value below the bound stands before the boundary
    /// in the level-0 chain; one at or past it stands at or after.
    proof fn lemma_rank_vs_boundary(self, id: usize, val: i64, incl: bool)
        requires
            self.wf(),
            self.chain(0).contains(id),
        ensures
            !above(self.val_at(id as int), val, incl) ==> self.rank(id) < first_above(
                self.level_values(0),
                val,
                incl,
            ),
            above(self.val_at(id as int), val, incl) ==> self.rank(id) >= first_above(
                self.level_values(0),
                val,
                incl,
            ),
    {
        let r = self.rank(id);
        assert(0 <= r < self.chain(0).len() && self.chain(0)[r] == id);
        let j = first_above(self.level_values(0), val, incl);
        lemma_first_above_bounds(self.level_values(0), val, incl);
        if !above(self.val_at(id as int), val, incl) {
            if r >= j {
                assert(j < self.chain(0).len());
                assert(above(self.level_values(0)[j], val, incl));
                assert(self.val_at(self.chain(0)[j] as int) <= self.val_at(
                    self.chain(0)[r] as int,
                ));
            }
        } else {
            if r < j {
                assert(!above(self.level_values(0)[r], val, incl));
            }
        }
    }

    /// Point insert: samples a tower height, walks the tower from the top
    /// level down to find each level's splice point, and wires the new node
    /// in just before the first chain entry whose value is not below the
    /// new one; equal values therefore land before their duplicates.
    pub fn insert(&mut self, val: &i64, index: usize)
        requires
            old(self).wf(),
            old(self).node_count() < usize::MAX - 1,
        ensures
            final(self).wf(),
            final(self).levels() == old(self).levels(),
            final(self).node_count() == old(self).node_count() + 1,
            final(self)@ == old(self)@.insert(
                first_above(values_of(old(self)@), *val, true),
                (*val, index),
            ),
    {
        proof {
            assert(values_of(self@) =~= self.level_values(0));
        }
        let level = self.sample_obj.sample();
        proof {
            let k = choose|k: int|
                0 <= k < self.sample_obj.spec_samples().len() && level
                    == self.sample_obj.spec_samples()[k];
            assert(self.sample_obj.spec_samples()[k] == (k + 1) as usize);
        }
        let h = level;
        let prevs = self.descend(*val, true);
        let succs = self.collect_succs(&prevs, *val, true);

        let new_id = self.curr_id + 1;
        let mut new_node = Node::new(new_id, val, index, h);
        let mut t: usize = 0;
        while t < h
            invariant
                t <= h,
                h <= succs@.len(),
                new_node.id == new_id,
                new_node.val == *val,
                new_node.index == index,
                new_node.level == h,
                new_node.next_pointers@ == succs@.take(t as int),
            decreases h - t,
        {
            new_node.next_pointers.push(succs[t]);
            proof {
                assert(new_node.next_pointers@ =~= succs@.take(t + 1));
            }
            t = t + 1;
        }
        self.node_vec.push(Some(new_node));
        self.curr_id = new_id;

        let ghost v = *val;
        let ghost nl = old(self).levels();

        let mut l2: usize = 0;
        while l2 < h
            invariant
                old(self).wf(),
                old(self).node_count() < usize::MAX - 1,
                v == *val,
                nl == old(self).levels(),
                1 <= h <= nl,
                l2 <= h,
                new_id == old(self).node_count(),
                prevs@.len() == nl,
                forall|ll: int| 0 <= ll < nl ==> old(self).prev_ok(ll, prevs@[ll], v, true),
                succs@.len() == nl,
                forall|ll: int| 0 <= ll < nl ==> succs@[ll] == old(self).spec_succ(ll, v, true),
                self.num_levels == old(self).num_levels,
                self.head_id == old(self).head_id,
                self.sample_obj == old(self).sample_obj,
                self.curr_id == new_id,
                self.chains == old(self).chains,
                self.node_vec@.len() == old(self).node_vec@.len() + 1,
                self.node_vec@[new_id as int] is Some,
                self.node_at(new_id as int).id == new_id,
                self.node_at(new_id as int).val == v,
                self.node_at(new_id as int).index == index,
                self.node_at(new_id as int).level == h,
                self.node_at(new_id as int).next_pointers@ == succs@.take(h as int),
                forall|id: int|
                    0 <= id < old(self).node_vec@.len() ==> (self.node_vec@[id] is Some <==> old(
                        self,
                    ).node_vec@[id] is Some),
                forall|id: int|
                    0 <= id < old(self).node_vec@.len() && self.node_vec@[id] is Some ==> {
                        &&& self.node_at(id).id == old(self).node_at(id).id
                        &&& self.node_at(id).val == old(self).node_at(id).val
                        &&& self.node_at(id).index == old(self).node_at(id).index
                        &&& self.node_at(id).level == old(self).node_at(id).level
                        &&& self.node_at(id).next_pointers@.len() == old(self).node_at(
                            id,
                        ).next_pointers@.len()
                    },
                forall|id: int, t2: int|
                    0 <= id < old(self).node_vec@.len() && self.node_vec@[id] is Some && 0 <= t2
                        < self.node_at(id).next_pointers@.len() ==> self.nxt(id, t2) == (if t2 < l2
                        && prevs@[t2] == id {
                        new_id
                    } else {
                        old(self).nxt(id, t2)
                    }),
            decreases h - l2,
        {
            let p = prevs[l2];
            proof {
                let jl = first_above(old(self).level_values(l2 as int), v, true);
                lemma_first_above_bounds(old(self).level_values(l2 as int), v, true);
                assert(old(self).chain_ok(l2 as int));
                assert(old(self).prev_ok(l2 as int, p, v, true));
                if jl != 0 {
                    assert(old(self).link_ok(l2 as int, jl - 1));
                    assert(old(self).node_ok(p as int));
                    assert(p < old(self).node_vec@.len());
                } else {
                    assert(p == 0);
                }
                assert(self.node_vec@[p as int] is Some);
                assert((l2 as int) < self.node_at(p as int).next_pointers@.len());
            }
            let ghost mid = *self;
            self.set_forward(p, l2, new_id);
            proof {
                assert forall|id: int, t2: int|
                    0 <= id < old(self).node_vec@.len() && self.node_vec@[id] is Some && 0 <= t2
                        < self.node_at(id).next_pointers@.len() implies self.nxt(id, t2) == (if t2
                    <= l2 && prevs@[t2] == id {
                    new_id
                } else {
                    old(self).nxt(id, t2)
                }) by {
                    if id == p as int {
                        assert(self.node_at(id).next_pointers@ == mid.node_at(
                            id,
                        ).next_pointers@.update(l2 as int, new_id));
                        if t2 == l2 {
                            assert(self.nxt(id, t2) == new_id);
                            assert(prevs@[t2] == id);
                        } else {
                            assert(self.nxt(id, t2) == mid.nxt(id, t2));
                            assert(mid.nxt(id, t2) == (if t2 < l2 && prevs@[t2] == id {
                                new_id
                            } else {
                                old(self).nxt(id, t2)
                            }));
                        }
                    } else {
                        assert(self.node_vec@[id] == mid.node_vec@[id]);
                        assert(self.nxt(id, t2) == mid.nxt(id, t2));
                        assert(mid.nxt(id, t2) == (if t2 < l2 && prevs@[t2] == id {
                            new_id
                        } else {
                            old(self).nxt(id, t2)
                        }));
                    }
                }
            }
            l2 = l2 + 1;
        }

        let ghost newchains = Seq::new(
            nl as nat,
            |ll: int|
                if ll < h {
                    old(self).chain(ll).insert(
                        first_above(old(self).level_values(ll), v, true),
                        new_id,
                    )
                } else {
                    old(self).chain(ll)
                },
        );
        let ghost sloop = *self;
        self.chains = Ghost(newchains);

        proof {
            assert(self.node_vec@ == sloop.node_vec@);
            assert forall|id: int, t2: int|
                0 <= id < old(self).node_vec@.len() && self.node_vec@[id] is Some && 0 <= t2
                    < self.node_at(id).next_pointers@.len() implies self.nxt(id, t2) == (if t2 < h
                && prevs@[t2] == id {
                new_id
            } else {
                old(self).nxt(id, t2)
            }) by {
                assert(self.nxt(id, t2) == sloop.nxt(id, t2));
            }
            self.lemma_insert_restore(*old(self), prevs@, succs@, v, index, h, new_id);
            assert(values_of(old(self)@) =~= old(self).level_values(0));
        }
    }

    /// Delete: walks the tower from the top level down with the same
    /// boundary rule as insert, and if the node at the level-0 boundary
    /// carries the value, re-splices every level of its tower around it and
    /// tombstones its arena slot; otherwise the call is a no-op. With
    /// duplicates only the first node of the level-0 chain is removed.
    pub fn delete(&mut self, val: &i64)
        requires
            old(self).wf(),
        ensures
            final(self).wf(),
            final(self).levels() == old(self).levels(),
            final(self).node_count() == old(self).node_count(),
            ({
                let j = first_above(values_of(old(self)@), *val, true);
                if j < old(self)@.len() && old(self)@[j].0 == *val {
                    final(self)@ == old(self)@.remove(j)
                } else {
                    final(self)@ == old(self)@
                }
            }),
    {
        proof {
            assert(values_of(self@) =~= self.level_values(0));
            lemma_first_above_bounds(self.level_values(0), *val, true);
        }
        let ghost v = *val;
        let ghost nl = old(self).levels();
        let ghost j0 = first_above(old(self).level_values(0), v, true);
        let prevs = self.descend(*val, true);
        let p0 = prevs[0];
        proof {
            assert(self.chain_ok(0));
            assert(self.prev_ok(0, p0, v, true));
            if j0 != 0 {
                assert(self.link_ok(0, j0 - 1));
                assert(self.node_ok(p0 as int));
            }
        }
        let cand = self.get_forward(p0, 0);
        proof {
            if j0 < self.chain(0).len() {
                assert(self.link_ok(0, j0));
                assert(cand == self.chain(0)[j0]);
            } else {
                assert(cand == NIL);
            }
        }
        if cand == NIL {
            proof {
                assert(j0 == old(self)@.len());
            }
            return ;
        }
        let cv = self.node_vec[cand].as_ref().unwrap().val;
        if cv != *val {
            proof {
                assert(old(self)@[j0].0 == self.val_at(cand as int));
            }
            return ;
        }
        let m = self.node_vec[cand].as_ref().unwrap().level;
        proof {
            assert(self.node_ok(cand as int));
            assert(1 <= m <= nl);
            assert forall|t: int| 0 <= t < nl implies prevs@[t] != cand by {
                assert(self.prev_ok(t, prevs@[t], v, true));
                let jt = first_above(self.level_values(t), v, true);
                lemma_first_above_bounds(self.level_values(t), v, true);
                if jt != 0 {
                    assert(self.chain_ok(t));
                    assert(self.link_ok(t, jt - 1));
                    assert(!above(self.level_values(t)[jt - 1], v, true));
                    assert(self.val_at(prevs@[t] as int) < v);
                }
            }
        }

        let mut l: usize = 0;
        while l < m
            invariant
                old(self).wf(),
                v == *val,
                nl == old(self).levels(),
                j0 == first_above(old(self).level_values(0), v, true),
                0 <= j0 < old(self).chain(0).len(),
                cand == old(self).chain(0)[j0],
                old(self).val_at(cand as int) == v,
                1 <= cand < old(self).node_vec@.len(),
                m == old(self).lvl_at(cand as int),
                1 <= m <= nl,
                l <= m,
                prevs@.len() == nl,
                forall|ll: int| 0 <= ll < nl ==> old(self).prev_ok(ll, prevs@[ll], v, true),
                forall|t: int| 0 <= t < nl ==> prevs@[t] != cand,
                self.num_levels == old(self).num_levels,
                self.head_id == old(self).head_id,
                self.sample_obj == old(self).sample_obj,
                self.curr_id == old(self).curr_id,
                self.chains == old(self).chains,
                self.node_vec@.len() == old(self).node_vec@.len(),
                forall|id: int|
                    0 <= id < old(self).node_vec@.len() ==> (self.node_vec@[id] is Some <==> old(
                        self,
                    ).node_vec@[id] is Some),
                forall|id: int|
                    0 <= id < old(self).node_vec@.len() && self.node_vec@[id] is Some ==> {
                        &&& self.node_at(id).id == old(self).node_at(id).id
                        &&& self.node_at(id).val == old(self).node_at(id).val
                        &&& self.node_at(id).index == old(self).node_at(id).index
                        &&& self.node_at(id).level == old(self).node_at(id).level
                        &&& self.node_at(id).next_pointers@.len() == old(self).node_at(
                            id,
                        ).next_pointers@.len()
                    },
                forall|id: int, t2: int|
                    0 <= id < old(self).node_vec@.len() && self.node_vec@[id] is Some && 0 <= t2
                        < self.node_at(id).next_pointers@.len() ==> self.nxt(id, t2) == (if t2 < l
                        && prevs@[t2] == id {
                        old(self).nxt(cand as int, t2)
                    } else {
                        old(self).nxt(id, t2)
                    }),
            decreases m - l,
        {
            proof {
                assert(old(self).chain_ok(0));
                assert(old(self).link_ok(0, j0));
                assert(old(self).node_ok(cand as int));
                assert(self.node_vec@[cand as int] is Some);
                assert((l as int) < self.node_at(cand as int).next_pointers@.len());
            }
            let cn = self.get_forward(cand, l);
            let p = prevs[l];
            proof {
                let jl = first_above(old(self).level_values(l as int), v, true);
                lemma_first_above_bounds(old(self).level_values(l as int), v, true);
                assert(old(self).chain_ok(l as int));
                assert(old(self).prev_ok(l as int, p, v, true));
                if jl != 0 {
                    assert(old(self).link_ok(l as int, jl - 1));
                    assert(old(self).node_ok(p as int));
                    assert(p < old(self).node_vec@.len());
                } else {
                    assert(p == 0);
                }
                assert(self.node_vec@[p as int] is Some);
                assert((l as int) < self.node_at(p as int).next_pointers@.len());
                assert(cn == old(self).nxt(cand as int, l as int));
            }
            let ghost mid = *self;
            self.set_forward(p, l, cn);
            proof {
                assert forall|id: int, t2: int|
                    0 <= id < old(self).node_vec@.len() && self.node_vec@[id] is Some && 0 <= t2
                        < self.node_at(id).next_pointers@.len() implies self.nxt(id, t2) == (if t2
                    <= l && prevs@[t2] == id {
                    old(self).nxt(cand as int, t2)
                } else {
                    old(self).nxt(id, t2)
                }) by {
                    if id == p as int {
                        assert(self.node_at(id).next_pointers@ == mid.node_at(
                            id,
                        ).next_pointers@.update(l as int, cn));
                        if t2 == l {
                            assert(self.nxt(id, t2) == cn);
                        } else {
                            assert(self.nxt(id, t2) == mid.nxt(id, t2));
                        }
                    } else {
                        assert(self.node_vec@[id] == mid.node_vec@[id]);
                        assert(self.nxt(id, t2) == mid.nxt(id, t2));
                    }
                }
            }
            l = l + 1;
        }

        let ghost newchains = Seq::new(
            nl as nat,
            |ll: int|
                if ll < m {
                    old(self).chain(ll).remove(old(self).chain(ll).index_of(cand))
                } else {
                    old(self).chain(ll)
                },
        );
        let ghost sloop = *self;
        self.node_vec.set(cand, None);
        self.chains = Ghost(newchains);
        proof {
            assert forall|id: int, t2: int|
                0 <= id < old(self).node_vec@.len() && id != cand && self.node_vec@[id] is Some
                    && 0 <= t2 < self.node_at(id).next_pointers@.len() implies self.nxt(id, t2)
                == (if t2 < m && prevs@[t2] == id {
                old(self).nxt(cand as int, t2)
            } else {
                old(self).nxt(id, t2)
            }) by {
                assert(self.node_vec@[id] == sloop.node_vec@[id]);
                assert(self.nxt(id, t2) == sloop.nxt(id, t2));
            }
            self.lemma_delete_restore(*old(self), prevs@, v, cand, m);
            assert(values_of(old(self)@) =~= old(self).level_values(0));
        }
    }

    /// The state right after one bulk-load append: the new node pushed with
    /// an all-sentinel tower, each level tail rewired to it, and the chains
    /// extended at their ends.
    spec fn append_splice_state(
        self,
        old0: Self,
        tails: Seq<usize>,
        v: i64,
        idx: usize,
        h: usize,
        new_id: usize,
    ) -> bool {
        &&& old0.wf()
        &&& old0.node_count() < usize::MAX - 1
        &&& 1 <= h <= old0.levels()
        &&& new_id == old0.node_count()
        &&& tails.len() == old0.levels()
        &&& (forall|ll: int|
            0 <= ll < old0.levels() ==> tails[ll] == (if old0.chain(ll).len() == 0 {
                0
            } else {
                old0.chain(ll).last()
            }))
        &&& (forall|k: int|
            0 <= k < old0.chain(0).len() ==> old0.val_at(old0.chain(0)[k] as int) <= v)
        &&& self.num_levels == old0.num_levels
        &&& self.head_id == old0.head_id
        &&& self.sample_obj == old0.sample_obj
        &&& self.curr_id == new_id
        &&& self.node_vec@.len() == old0.node_vec@.len() + 1
        &&& self.node_vec@[new_id as int] is Some
        &&& self.node_at(new_id as int).id == new_id
        &&& self.node_at(new_id as int).val == v
        &&& self.node_at(new_id as int).index == idx
        &&& self.node_at(new_id as int).level == h
        &&& self.node_at(new_id as int).next_pointers@ == Seq::new(h as nat, |t: int| NIL)
        &&& (forall|id: int|
            0 <= id < old0.node_vec@.len() ==> (self.node_vec@[id] is Some
                <==> old0.node_vec@[id] is Some))
        &&& (forall|id: int|
            0 <= id < old0.node_vec@.len() && self.node_vec@[id] is Some ==> {
                &&& self.node_at(id).id == old0.node_at(id).id
                &&& self.node_at(id).val == old0.node_at(id).val
                &&& self.node_at(id).index == old0.node_at(id).index
                &&& self.node_at(id).level == old0.node_at(id).level
                &&& self.node_at(id).next_pointers@.len() == old0.node_at(
                    id,
                ).next_pointers@.len()
            })
        &&& (forall|id: int, t2: int|
            0 <= id < old0.node_vec@.len() && self.node_vec@[id] is Some && 0 <= t2
                < self.node_at(id).next_pointers@.len() ==> self.nxt(id, t2) == (if t2 < h
                && tails[t2] == id {
                new_id
            } else {
                old0.nxt(id, t2)
            }))
        &&& self.chains@ == Seq::new(
            old0.levels() as nat,
            |ll: int|
                if ll < h {
                    old0.chain(ll).push(new_id)
                } else {
                    old0.chain(ll)
                },
        )
    }

    /// After one bulk-load append the structure is well-formed again and the
    /// view gained the new pair at its end.
    #[verifier::rlimit(100)]
    proof fn lemma_append_restore(
        self,
        old0: Self,
        tails: Seq<usize>,
        v: i64,
        idx: usize,
        h: usize,
        new_id: usize,
    )
        requires
            self.append_splice_state(old0, tails, v, idx, h, new_id),
        ensures
            self.wf(),
            self@ == old0@.push((v, idx)),
            self.levels() == old0.levels(),
            self.node_count() == old0.node_count() + 1,
    {
        let nl = old0.levels();
        assert forall|ll: int, k: int|
            0 <= ll < nl && 0 <= k < old0.chain(ll).len() implies 1 <= #[trigger] old0.chain(
                ll,
            )[k] < old0.node_vec@.len() by {
            assert(old0.chain_ok(ll));
            assert(old0.link_ok(ll, k));
        }
        assert forall|id: int|
            0 <= id < old0.node_vec@.len() implies (self.is_live(id) <==> old0.is_live(id)) by {}
        // stitching
        assert forall|ll: int| 0 <= ll < nl implies self.chain_ok(ll) by {
            let c = old0.chain(ll);
            let c2 = self.chain(ll);
            assert(old0.chain_ok(ll));
            if ll < h {
                assert(c2 == c.push(new_id));
                if c.len() == 0 {
                    assert(tails[ll] == 0);
                    assert(self.nxt(0, ll) == new_id);
                    assert(c2[0] == new_id);
                } else {
                    assert(tails[ll] == c.last());
                    assert(old0.link_ok(ll, c.len() - 1));
                    assert(tails[ll] != 0);
                    assert(self.nxt(0, ll) == old0.nxt(0, ll));
                    assert(c2[0] == c[0]);
                }
                assert forall|k: int| 0 <= k < c2.len() implies self.link_ok(ll, k) by {
                    assert(old0.nodup());
                    if k < c.len() - 1 {
                        assert(c2[k] == c[k]);
                        assert(old0.link_ok(ll, k));
                        assert(c[k] != c[c.len() - 1]);
                        assert(self.nxt(c[k] as int, ll) == old0.nxt(c[k] as int, ll));
                        assert(c2[k + 1] == c[k + 1]);
                    } else if k == c.len() - 1 {
                        assert(c2[k] == c[k]);
                        assert(old0.link_ok(ll, k));
                        assert(tails[ll] == c[k]);
                        assert(self.nxt(c[k] as int, ll) == new_id);
                        assert(c2[k + 1] == new_id);
                    } else {
                        assert(k == c.len());
                        assert(c2[k] == new_id);
                        assert(self.nxt(new_id as int, ll) == Seq::new(h as nat, |t: int| NIL)[ll]);
                        assert(self.nxt(new_id as int, ll) == NIL);
                    }
                }
            } else {
                assert(c2 == c);
                assert(self.nxt(0, ll) == old0.nxt(0, ll));
                assert forall|k: int| 0 <= k < c2.len() implies self.link_ok(ll, k) by {
                    assert(old0.link_ok(ll, k));
                    assert(self.nxt(c[k] as int, ll) == old0.nxt(c[k] as int, ll)) by {
                        if ll < h && tails[ll] == c[k] {
                        }
                    }
                }
            }
        }
        // membership
        assert forall|id: int|
            1 <= id < self.node_vec@.len() && self.is_live(id) implies self.node_ok(id) by {
            if id < old0.node_vec@.len() {
                assert(old0.node_ok(id));
                assert forall|t2: int| 0 <= t2 < self.lvl_at(id) implies self.chain(t2).contains(
                    self.node_at(id).id as usize,
                ) by {
                    assert(old0.chain(t2).contains(id as usize));
                    let k = choose|k: int|
                        0 <= k < old0.chain(t2).len() && old0.chain(t2)[k] == id as usize;
                    assert(self.chain(t2)[k] == id as usize);
                }
            } else {
                assert(id == new_id);
                assert forall|t2: int| 0 <= t2 < h implies self.chain(t2).contains(new_id) by {
                    assert(self.chain(t2)[old0.chain(t2).len() as int] == new_id);
                }
            }
        }
        // order
        assert(self.sorted0()) by {
            assert forall|k1: int, k2: int|
                0 <= k1 <= k2 < self.chain(0).len() implies self.val_at(
                self.chain(0)[k1] as int,
            ) <= self.val_at(self.chain(0)[k2] as int) by {
                let c = old0.chain(0);
                assert(old0.chain_ok(0));
                if k2 < c.len() {
                    assert(old0.link_ok(0, k1));
                    assert(old0.link_ok(0, k2));
                } else if k1 < c.len() {
                    assert(old0.link_ok(0, k1));
                }
            }
        }
        assert(self.nodup()) by {
            assert forall|ll: int, k1: int, k2: int|
                0 <= ll < nl && 0 <= k1 < k2 < self.chain(ll).len() implies self.chain(ll)[k1]
                != self.chain(ll)[k2] by {
                assert(old0.nodup());
            }
        }
        let c0 = old0.chain(0);
        assert forall|k: int| 0 <= k < c0.len() implies self.rank(c0[k]) == k && old0.rank(c0[k])
            == k by {
            old0.lemma_rank_is(c0[k], k);
            assert(self.chain(0)[k] == c0[k]);
            self.lemma_rank_is(c0[k], k);
        }
        assert(self.rank(new_id) == c0.len()) by {
            self.lemma_rank_is(new_id, c0.len() as int);
        }
        assert(self.ranks_ok()) by {
            assert forall|ll: int, k1: int, k2: int|
                1 <= ll < nl && 0 <= k1 < k2 < self.chain(ll).len() implies self.rank(
                self.chain(ll)[k1],
            ) < self.rank(self.chain(ll)[k2]) by {
                let c = old0.chain(ll);
                assert(old0.chain_ok(ll));
                if k2 < c.len() {
                    assert(old0.ranks_ok());
                    assert(old0.rank(c[k1]) < old0.rank(c[k2]));
                    assert(old0.link_ok(ll, k1));
                    assert(old0.link_ok(ll, k2));
                    assert(old0.node_ok(c[k1] as int));
                    assert(old0.node_ok(c[k2] as int));
                    assert(old0.chain(0).contains(c[k1]));
                    assert(old0.chain(0).contains(c[k2]));
                    let r1 = old0.rank(c[k1]);
                    let r2 = old0.rank(c[k2]);
                    assert(0 <= r1 < c0.len() && c0[r1] == c[k1]);
                    assert(0 <= r2 < c0.len() && c0[r2] == c[k2]);
                } else {
                    assert(ll < h && self.chain(ll)[k2] == new_id);
                    assert(old0.link_ok(ll, k1));
                    assert(old0.node_ok(self.chain(ll)[k1] as int));
                    assert(old0.chain(0).contains(c[k1]));
                    let r1 = old0.rank(c[k1]);
                    assert(0 <= r1 < c0.len() && c0[r1] == c[k1]);
                }
            }
        }
        // the view gained the new pair at its end
        assert forall|k: int| 0 <= k < self.chain(0).len() implies self@[k] == old0@.push(
            (v, idx),
        )[k] by {
            assert(old0.chain_ok(0));
            if k < c0.len() {
                assert(old0.link_ok(0, k));
                assert(self.chain(0)[k] == c0[k]);
            } else {
                assert(self.chain(0)[k] == new_id);
            }
        }
        assert(self@ =~= old0@.push((v, idx)));
    }

    /// Bulk initial load of an already-sorted sequence: each element's
    /// position is its index, and every node is appended at the tail of each
    /// chain of its tower, with no backward comparison.
    pub fn insert_initial(&mut self, vector: &Vec<i64>)
        requires
            old(self).wf(),
            old(self)@.len() == 0,
            sorted_values(vector@),
            old(self).node_count() + vector@.len() < usize::MAX - 1,
        ensures
            final(self).wf(),
            final(self).levels() == old(self).levels(),
            final(self).node_count() == old(self).node_count() + vector@.len(),
            final(self)@ == Seq::new(vector@.len(), |i: int| (vector@[i], i as usize)),
    {
        let nl = self.num_levels;
        let mut prev_at: Vec<usize> = vec![0; nl];
        proof {
            assert forall|ll: int| 0 <= ll < nl implies self.chain(ll).len() == 0 by {
                if self.chain(ll).len() > 0 {
                    assert(self.chain_ok(ll));
                    assert(self.link_ok(ll, 0));
                    let id = self.chain(ll)[0];
                    assert(self.node_ok(id as int));
                    assert(self.chain(0).contains(id));
                }
            }
        }
        let mut i: usize = 0;
        while i < vector.len()
            invariant
                self.wf(),
                nl == self.num_levels,
                nl == old(self).levels(),
                sorted_values(vector@),
                old(self).node_count() + vector@.len() < usize::MAX - 1,
                self.node_count() == old(self).node_count() + i,
                i <= vector@.len(),
                self@ == Seq::new(i as nat, |j: int| (vector@[j], j as usize)),
                prev_at@.len() == nl,
                forall|ll: int|
                    0 <= ll < nl ==> prev_at@[ll] == (if self.chain(ll).len() == 0 {
                        0
                    } else {
                        self.chain(ll).last()
                    }),
            decreases vector@.len() - i,
        {
            let ghost pre = *self;
            let v = vector[i];
            proof {
                assert(pre@ == Seq::new(i as nat, |j: int| (vector@[j], j as usize)));
                assert(pre@.len() == i);
                assert forall|k: int| 0 <= k < pre.chain(0).len() implies pre.val_at(
                    pre.chain(0)[k] as int,
                ) <= v by {
                    assert(pre@[k] == (pre.val_at(pre.chain(0)[k] as int), pre.node_at(
                        pre.chain(0)[k] as int,
                    ).index));
                    assert(pre@[k] == (vector@[k], k as usize));
                    assert(vector@[k] <= vector@[i as int]);
                }
            }
            let level = self.sample_obj.sample();
            proof {
                let k = choose|k: int|
                    0 <= k < self.sample_obj.spec_samples().len() && level
                        == self.sample_obj.spec_samples()[k];
                assert(self.sample_obj.spec_samples()[k] == (k + 1) as usize);
            }
            let h = level;
            let new_id = self.curr_id + 1;
            let mut new_node = Node::new(new_id, &v, i, h);
            let mut t: usize = 0;
            while t < h
                invariant
                    t <= h,
                    new_node.id == new_id,
                    new_node.val == v,
                    new_node.index == i,
                    new_node.level == h,
                    new_node.next_pointers@ =~= Seq::new(t as nat, |q: int| NIL),
                decreases h - t,
            {
                new_node.next_pointers.push(NIL);
                proof {
                    assert(new_node.next_pointers@ =~= Seq::new((t + 1) as nat, |q: int| NIL));
                }
                t = t + 1;
            }
            self.node_vec.push(Some(new_node));
            self.curr_id = new_id;

            let mut l2: usize = 0;
            while l2 < h
                invariant
                    pre.wf(),
                    pre.node_count() < usize::MAX - 1,
                    nl == pre.levels(),
                    1 <= h <= nl,
                    l2 <= h,
                    new_id == pre.node_count(),
                    prev_at@.len() == nl,
                    forall|ll: int|
                        0 <= ll < nl ==> prev_at@[ll] == (if pre.chain(ll).len() == 0 {
                            0
                        } else {
                            pre.chain(ll).last()
                        }),
                    self.num_levels == pre.num_levels,
                    self.head_id == pre.head_id,
                    self.sample_obj == pre.sample_obj,
                    self.curr_id == new_id,
                    self.chains == pre.chains,
                    self.node_vec@.len() == pre.node_vec@.len() + 1,
                    self.node_vec@[new_id as int] is Some,
                    self.node_at(new_id as int).id == new_id,
                    self.node_at(new_id as int).val == v,
                    self.node_at(new_id as int).index == i,
                    self.node_at(new_id as int).level == h,
                    self.node_at(new_id as int).next_pointers@ == Seq::new(
                        h as nat,
                        |q: int| NIL,
                    ),
                    forall|id: int|
                        0 <= id < pre.node_vec@.len() ==> (self.node_vec@[id] is Some
                            <==> pre.node_vec@[id] is Some),
                    forall|id: int|
                        0 <= id < pre.node_vec@.len() && self.node_vec@[id] is Some ==> {
                            &&& self.node_at(id).id == pre.node_at(id).id
                            &&& self.node_at(id).val == pre.node_at(id).val
                            &&& self.node_at(id).index == pre.node_at(id).index
                            &&& self.node_at(id).level == pre.node_at(id).level
                            &&& self.node_at(id).next_pointers@.len() == pre.node_at(
                                id,
                            ).next_pointers@.len()
                        },
                    forall|id: int, t2: int|
                        0 <= id < pre.node_vec@.len() && self.node_vec@[id] is Some && 0 <= t2
                            < self.node_at(id).next_pointers@.len() ==> self.nxt(id, t2) == (if t2
                            < l2 && prev_at@[t2] == id {
                            new_id
                        } else {
                            pre.nxt(id, t2)
                        }),
                decreases h - l2,
            {
                let p = prev_at[l2];
                proof {
                    assert(pre.chain_ok(l2 as int));
                    if pre.chain(l2 as int).len() > 0 {
                        assert(pre.link_ok(l2 as int, pre.chain(l2 as int).len() - 1));
                        assert(pre.node_ok(p as int));
                        assert(p < pre.node_vec@.len());
                    } else {
                        assert(p == 0);
                    }
                    assert(self.node_vec@[p as int] is Some);
                    assert((l2 as int) < self.node_at(p as int).next_pointers@.len());
                }
                let ghost mid = *self;
                self.set_forward(p, l2, new_id);
                proof {
                    assert forall|id: int, t2: int|
                        0 <= id < pre.node_vec@.len() && self.node_vec@[id] is Some && 0 <= t2
                            < self.node_at(id).next_pointers@.len() implies self.nxt(id, t2) == (
                    if t2 <= l2 && prev_at@[t2] == id {
                        new_id
                    } else {
                        pre.nxt(id, t2)
                    }) by {
                        if id == p as int {
                            assert(self.node_at(id).next_pointers@ == mid.node_at(
                                id,
                            ).next_pointers@.update(l2 as int, new_id));
                            if t2 == l2 {
                                assert(self.nxt(id, t2) == new_id);
                            } else {
                                assert(self.nxt(id, t2) == mid.nxt(id, t2));
                            }
                        } else {
                            assert(self.node_vec@[id] == mid.node_vec@[id]);
                            assert(self.nxt(id, t2) == mid.nxt(id, t2));
                        }
                    }
                }
                l2 = l2 + 1;
            }

            let ghost newchains = Seq::new(
                nl as nat,
                |ll: int|
                    if ll < h {
                        pre.chain(ll).push(new_id)
                    } else {
                        pre.chain(ll)
                    },
            );
            let ghost sloop = *self;
            self.chains = Ghost(newchains);
            proof {
                assert(self.node_vec@ == sloop.node_vec@);
                assert forall|id: int, t2: int|
                    0 <= id < pre.node_vec@.len() && self.node_vec@[id] is Some && 0 <= t2
                        < self.node_at(id).next_pointers@.len() implies self.nxt(id, t2) == (if t2
                    < h && prev_at@[t2] == id {
                    new_id
                } else {
                    pre.nxt(id, t2)
                }) by {
                    assert(self.nxt(id, t2) == sloop.nxt(id, t2));
                }
                self.lemma_append_restore(pre, prev_at@, v, i, h, new_id);
            }

            let ghost tails0 = prev_at@;
            let mut l3: usize = 0;
            while l3 < h
                invariant
                    l3 <= h,
                    h <= nl,
                    prev_at@.len() == nl,
                    tails0.len() == nl,
                    forall|ll: int| l3 <= ll < nl ==> prev_at@[ll] == tails0[ll],
                    forall|ll: int| 0 <= ll < l3 ==> prev_at@[ll] == new_id,
                decreases h - l3,
            {
                prev_at.set(l3, new_id);
                l3 = l3 + 1;
            }
            proof {
                assert forall|ll: int| 0 <= ll < nl implies prev_at@[ll] == (if self.chain(
                    ll,
                ).len() == 0 {
                    0
                } else {
                    self.chain(ll).last()
                }) by {
                    assert(tails0[ll] == (if pre.chain(ll).len() == 0 {
                        0
                    } else {
                        pre.chain(ll).last()
                    }));
                    if ll < h {
                        assert(self.chain(ll) == pre.chain(ll).push(new_id));
                        assert(prev_at@[ll] == new_id);
                        assert(self.chain(ll).last() == new_id);
                    } else {
                        assert(self.chain(ll) == pre.chain(ll));
                        assert(prev_at@[ll] == tails0[ll]);
                    }
                }
                assert(self@ =~= Seq::new((i + 1) as nat, |j: int| (vector@[j], j as usize)));
            }
            i = i + 1;
        }
        proof {
            assert(self@ =~= Seq::new(vector@.len(), |j: int| (vector@[j], j as usize)));
        }
    }

    /// The state right after the unsplice loop: the matched node's tower
    /// unhooked at every level, its arena slot tombstoned, and the chains
    /// shortened at each of its levels.
    spec fn delete_splice_state(
        self,
        old0: Self,
        prevs: Seq<usize>,
        v: i64,
        cand: usize,
        m: usize,
    ) -> bool {
        let j0 = first_above(old0.level_values(0), v, true);
        &&& old0.wf()
        &&& prevs.len() == old0.levels()
        &&& (forall|ll: int| 0 <= ll < old0.levels() ==> old0.prev_ok(ll, prevs[ll], v, true))
        &&& 0 <= j0 < old0.chain(0).len()
        &&& cand == old0.chain(0)[j0]
        &&& old0.val_at(cand as int) == v
        &&& m == old0.lvl_at(cand as int)
        &&& self.num_levels == old0.num_levels
        &&& self.head_id == old0.head_id
        &&& self.sample_obj == old0.sample_obj
        &&& self.curr_id == old0.curr_id
        &&& self.node_vec@.len() == old0.node_vec@.len()
        &&& self.node_vec@[cand as int] is None
        &&& (forall|id: int|
            0 <= id < old0.node_vec@.len() && id != cand ==> (self.node_vec@[id] is Some
                <==> old0.node_vec@[id] is Some))
        &&& (forall|id: int|
            0 <= id < old0.node_vec@.len() && id != cand && self.node_vec@[id] is Some ==> {
                &&& self.node_at(id).id == old0.node_at(id).id
                &&& self.node_at(id).val == old0.node_at(id).val
                &&& self.node_at(id).index == old0.node_at(id).index
                &&& self.node_at(id).level == old0.node_at(id).level
                &&& self.node_at(id).next_pointers@.len() == old0.node_at(
                    id,
                ).next_pointers@.len()
            })
        &&& (forall|id: int, t2: int|
            0 <= id < old0.node_vec@.len() && id != cand && self.node_vec@[id] is Some && 0 <= t2
                < self.node_at(id).next_pointers@.len() ==> self.nxt(id, t2) == (if t2 < m
                && prevs[t2] == id {
                old0.nxt(cand as int, t2)
            } else {
                old0.nxt(id, t2)
            }))
        &&& self.chains@ == Seq::new(
            old0.levels() as nat,
            |ll: int|
                if ll < m {
                    old0.chain(ll).remove(old0.chain(ll).index_of(cand))
                } else {
                    old0.chain(ll)
                },
        )
    }

    /// The matched node stands, at each level of its tower, exactly at that
    /// level's boundary: everything before it misses the bound.
    proof fn lemma_delete_boundary(self, v: i64, cand: usize, ll: int)
        requires
            self.wf(),
            0 <= first_above(self.level_values(0), v, true) < self.chain(0).len(),
            cand == self.chain(0)[first_above(self.level_values(0), v, true)],
            self.val_at(cand as int) == v,
            0 <= ll < self.lvl_at(cand as int),
            ll < self.levels(),
        ensures
            self.chain(ll).contains(cand),
            0 <= self.chain(ll).index_of(cand) < self.chain(ll).len(),
            self.chain(ll)[self.chain(ll).index_of(cand)] == cand,
            self.chain(ll).index_of(cand) == first_above(self.level_values(ll), v, true),
    {
        let j0 = first_above(self.level_values(0), v, true);
        lemma_first_above_bounds(self.level_values(0), v, true);
        assert(self.chain_ok(0));
        assert(self.link_ok(0, j0));
        assert(self.node_ok(cand as int));
        assert(self.chain(ll).contains(cand));
        let k = choose|k: int| 0 <= k < self.chain(ll).len() && self.chain(ll)[k] == cand;
        assert(self.chain(ll)[k] == cand);
        self.lemma_rank_is(cand, j0);
        if ll == 0 {
            self.lemma_rank_is(cand, k);
            assert(k == j0);
        }
        // entries before the candidate at this level all stand before the
        // boundary in the level-0 chain, so their values miss the bound
        assert forall|k2: int| 0 <= k2 < k implies !above(
            self.level_values(ll)[k2],
            v,
            true,
        ) by {
            let x = self.chain(ll)[k2];
            assert(self.chain_ok(ll));
            assert(self.link_ok(ll, k2));
            assert(self.node_ok(x as int));
            assert(self.chain(0).contains(x));
            let r = self.rank(x);
            assert(0 <= r < self.chain(0).len() && self.chain(0)[r] == x);
            if ll >= 1 {
                assert(r < j0);
            }
            assert(!above(self.level_values(0)[r], v, true));
        }
        assert(above(self.level_values(ll)[k], v, true));
        lemma_first_above_is(self.level_values(ll), v, true, k);
        self.lemma_index_of_is(ll, cand, k);
    }

    /// After the unsplice loop, the structure with the matched node
    /// unhooked and tombstoned is well-formed again, and its level-0 chain
    /// lost exactly the entry at the boundary.
    proof fn lemma_delete_restore(
        self,
        old0: Self,
        prevs: Seq<usize>,
        v: i64,
        cand: usize,
        m: usize,
    )
        requires
            self.delete_splice_state(old0, prevs, v, cand, m),
        ensures
            self.wf(),
            self@ == old0@.remove(first_above(old0.level_values(0), v, true)),
            self.levels() == old0.levels(),
            self.node_count() == old0.node_count(),
    {
        let nl = old0.levels();
        assert forall|id: int|
            0 <= id < old0.node_vec@.len() && id != cand implies (self.is_live(id)
                <==> old0.is_live(id)) by {}
        let j0 = first_above(old0.level_values(0), v, true);
        assert(old0.chain_ok(0));
        assert(old0.link_ok(0, j0));
        assert(old0.node_ok(cand as int));
        assert(1 <= m <= nl);
        self.lemma_delete_chain_ok(old0, prevs, v, cand, m);
        self.lemma_delete_node_ok(old0, prevs, v, cand, m);
        self.lemma_delete_vals(old0, prevs, v, cand, m);
        self.lemma_delete_ranks(old0, prevs, v, cand, m);
        self.lemma_delete_view(old0, prevs, v, cand, m);
        assert(1 <= cand);
        assert(self.is_live(0));
        assert(self.node_at(0).id == 0);
        assert(self.node_at(0).level == self.num_levels);
        assert(self.node_at(0).next_pointers@.len() == self.num_levels);
        assert(self.sample_obj.wf());
        assert(self.chains@.len() == self.num_levels);
        assert(self.curr_id + 1 == self.nodes().len());
        assert(forall|l: int| 0 <= l < self.num_levels ==> self.chain_ok(l));
        assert(forall|id: int|
            1 <= id < self.nodes().len() && self.is_live(id) ==> self.node_ok(id));
    }

    /// Every chain of the shortened structure is stitched through the arena.
    #[verifier::rlimit(100)]
    proof fn lemma_delete_chain_ok(
        self,
        old0: Self,
        prevs: Seq<usize>,
        v: i64,
        cand: usize,
        m: usize,
    )
        requires
            self.delete_splice_state(old0, prevs, v, cand, m),
        ensures
            forall|ll: int| 0 <= ll < old0.levels() ==> self.chain_ok(ll),
    {
        let nl = old0.levels();
        let j0 = first_above(old0.level_values(0), v, true);
        assert(old0.chain_ok(0));
        assert(old0.link_ok(0, j0));
        assert(old0.node_ok(cand as int));
        assert forall|ll: int| 0 <= ll < nl implies self.chain_ok(ll) by {
            let c = old0.chain(ll);
            let c2 = self.chain(ll);
            assert(old0.chain_ok(ll));
            lemma_first_above_bounds(old0.level_values(ll), v, true);
            if ll < m {
                old0.lemma_delete_boundary(v, cand, ll);
                let kc = old0.chain(ll).index_of(cand);
                assert(kc == first_above(old0.level_values(ll), v, true));
                old0.chain(ll).remove_ensures(kc);
                assert(old0.link_ok(ll, kc));
                // the head pointer
                if kc == 0 {
                    assert(prevs[ll] == 0);
                    assert(self.nxt(0, ll) == old0.nxt(cand as int, ll));
                    if c2.len() == 0 {
                        assert(kc + 1 == c.len());
                        assert(old0.nxt(cand as int, ll) == NIL);
                    } else {
                        assert(c2[0] == c[1]);
                        assert(old0.nxt(cand as int, ll) == c[1]);
                    }
                } else {
                    assert(prevs[ll] == c[kc - 1]);
                    assert(old0.link_ok(ll, kc - 1));
                    assert(prevs[ll] != 0);
                    assert(self.nxt(0, ll) == old0.nxt(0, ll));
                    assert(c2[0] == c[0]);
                }
                // every link
                assert forall|k: int| 0 <= k < c2.len() implies self.link_ok(ll, k) by {
                    assert(old0.nodup());
                    if k < kc - 1 {
                        assert(c2[k] == c[k]);
                        assert(old0.link_ok(ll, k));
                        let x = c[k] as int;
                        assert(c[k] != c[kc - 1] && c[k] != c[kc]);
                        assert(self.nxt(x, ll) == old0.nxt(x, ll));
                        assert(c2[k + 1] == c[k + 1]);
                    } else if k == kc - 1 {
                        assert(c2[k] == c[k]);
                        assert(old0.link_ok(ll, k));
                        let x = c[k] as int;
                        assert(prevs[ll] == c[k]);
                        assert(self.nxt(x, ll) == old0.nxt(cand as int, ll));
                        if k + 1 < c2.len() {
                            assert(c2[k + 1] == c[k + 2]);
                            assert(old0.nxt(cand as int, ll) == c[kc + 1]);
                        } else {
                            assert(kc + 1 == c.len());
                            assert(old0.nxt(cand as int, ll) == NIL);
                        }
                    } else {
                        assert(c2[k] == c[k + 1]);
                        assert(old0.link_ok(ll, k + 1));
                        let x = c[k + 1] as int;
                        assert(c[k + 1] != c[kc] && (kc >= 1 ==> c[k + 1] != c[kc - 1]));
                        assert(prevs[ll] != c[k + 1]) by {
                            if kc >= 1 {
                                assert(prevs[ll] == c[kc - 1]);
                            }
                        }
                        assert(self.nxt(x, ll) == old0.nxt(x, ll));
                        if k + 1 < c2.len() {
                            assert(c2[k + 1] == c[k + 2]);
                        }
                    }
                }
            } else {
                // the candidate stands only in the chains below its tower
                assert forall|k: int| 0 <= k < c2.len() implies self.link_ok(ll, k) by {
                    assert(old0.link_ok(ll, k));
                    let x = c[k] as int;
                    assert(c[k] != cand) by {
                        if c[k] == cand {
                            assert(old0.lvl_at(cand as int) > ll);
                        }
                    }
                    assert(self.nxt(x, ll) == old0.nxt(x, ll)) by {
                        if ll < m && prevs[ll] == c[k] {
                        }
                    }
                }
                assert(self.nxt(0, ll) == old0.nxt(0, ll));
            }
        }
    }

    /// Every surviving live node still stands in the chains below its tower.
    #[verifier::rlimit(100)]
    proof fn lemma_delete_node_ok(
        self,
        old0: Self,
        prevs: Seq<usize>,
        v: i64,
        cand: usize,
        m: usize,
    )
        requires
            self.delete_splice_state(old0, prevs, v, cand, m),
        ensures
            forall|id: int|
                1 <= id < self.node_vec@.len() && self.is_live(id) ==> self.node_ok(id),
    {
        let nl = old0.levels();
        let j0 = first_above(old0.level_values(0), v, true);
        assert(old0.chain_ok(0));
        assert(old0.link_ok(0, j0));
        assert(old0.node_ok(cand as int));
        assert forall|id: int|
            1 <= id < self.node_vec@.len() && self.is_live(id) implies self.node_ok(id) by {
            assert(id != cand);
            assert(old0.is_live(id));
            assert(old0.node_ok(id));
            assert forall|t2: int| 0 <= t2 < self.lvl_at(id) implies self.chain(t2).contains(
                self.node_at(id).id as usize,
            ) by {
                assert(old0.chain(t2).contains(id as usize));
                let k = choose|k: int|
                    0 <= k < old0.chain(t2).len() && old0.chain(t2)[k] == id as usize;
                if t2 < m {
                    old0.lemma_delete_boundary(v, cand, t2);
                    let kc = old0.chain(t2).index_of(cand);
                    old0.chain(t2).remove_ensures(kc);
                    assert(k != kc) by {
                        assert(old0.chain(t2)[kc] == cand);
                    }
                    if k < kc {
                        assert(self.chain(t2)[k] == id as usize);
                    } else {
                        assert(self.chain(t2)[k - 1] == id as usize);
                    }
                } else {
                    assert(self.chain(t2)[k] == id as usize);
                }
            }
        }
    }

    /// The shortened level-0 chain is sorted and no chain repeats an id.
    proof fn lemma_delete_vals(
        self,
        old0: Self,
        prevs: Seq<usize>,
        v: i64,
        cand: usize,
        m: usize,
    )
        requires
            self.delete_splice_state(old0, prevs, v, cand, m),
        ensures
            self.sorted0(),
            self.nodup(),
    {
        let nl = old0.levels();
        let j0 = first_above(old0.level_values(0), v, true);
        assert(old0.chain_ok(0));
        assert(old0.link_ok(0, j0));
        assert(old0.node_ok(cand as int));
        old0.lemma_delete_boundary(v, cand, 0);
        old0.chain(0).remove_ensures(j0);
        assert(self.nodup()) by {
            assert forall|ll: int, k1: int, k2: int|
                0 <= ll < nl && 0 <= k1 < k2 < self.chain(ll).len() implies self.chain(ll)[k1]
                != self.chain(ll)[k2] by {
                assert(old0.nodup());
                if ll < m {
                    old0.lemma_delete_boundary(v, cand, ll);
                    old0.chain(ll).remove_ensures(old0.chain(ll).index_of(cand));
                }
            }
        }
        assert(self.sorted0()) by {
            assert forall|k1: int, k2: int|
                0 <= k1 <= k2 < self.chain(0).len() implies self.val_at(
                self.chain(0)[k1] as int,
            ) <= self.val_at(self.chain(0)[k2] as int) by {
                let a1 = if k1 < j0 {
                    k1
                } else {
                    k1 + 1
                };
                let a2 = if k2 < j0 {
                    k2
                } else {
                    k2 + 1
                };
                assert(self.chain(0)[k1] == old0.chain(0)[a1]);
                assert(self.chain(0)[k2] == old0.chain(0)[a2]);
                assert(old0.link_ok(0, a1));
                assert(old0.link_ok(0, a2));
            }
        }
    }

    /// The shortened higher chains still respect the level-0 order.
    #[verifier::rlimit(100)]
    proof fn lemma_delete_ranks(
        self,
        old0: Self,
        prevs: Seq<usize>,
        v: i64,
        cand: usize,
        m: usize,
    )
        requires
            self.delete_splice_state(old0, prevs, v, cand, m),
        ensures
            self.ranks_ok(),
    {
        let nl = old0.levels();
        let j0 = first_above(old0.level_values(0), v, true);
        assert(old0.chain_ok(0));
        assert(old0.link_ok(0, j0));
        assert(old0.node_ok(cand as int));
        self.lemma_delete_vals(old0, prevs, v, cand, m);
        old0.lemma_delete_boundary(v, cand, 0);
        let c0 = old0.chain(0);
        let c02 = self.chain(0);
        old0.chain(0).remove_ensures(j0);
        assert forall|k: int| 0 <= k < c0.len() && k != j0 implies self.rank(c0[k]) == (if k < j0 {
            k
        } else {
            k - 1
        }) && old0.rank(c0[k]) == k by {
            old0.lemma_rank_is(c0[k], k);
            if k < j0 {
                assert(c02[k] == c0[k]);
                self.lemma_rank_is(c0[k], k);
            } else {
                assert(c02[k - 1] == c0[k]);
                self.lemma_rank_is(c0[k], k - 1);
            }
        }
        assert(self.ranks_ok()) by {
            assert forall|ll: int, k1: int, k2: int|
                1 <= ll < nl && 0 <= k1 < k2 < self.chain(ll).len() implies self.rank(
                self.chain(ll)[k1],
            ) < self.rank(self.chain(ll)[k2]) by {
                let c = old0.chain(ll);
                let c2 = self.chain(ll);
                assert(old0.chain_ok(ll));
                if ll < m {
                    old0.lemma_delete_boundary(v, cand, ll);
                    old0.chain(ll).remove_ensures(old0.chain(ll).index_of(cand));
                }
                // map the two shortened positions back to the old chain
                let kc = if ll < m {
                    old0.chain(ll).index_of(cand)
                } else {
                    c.len() as int
                };
                let a1 = if k1 < kc {
                    k1
                } else {
                    k1 + 1
                };
                let a2 = if k2 < kc {
                    k2
                } else {
                    k2 + 1
                };
                assert(c2[k1] == c[a1]);
                assert(c2[k2] == c[a2]);
                assert(old0.ranks_ok());
                assert(old0.rank(c[a1]) < old0.rank(c[a2]));
                // the surviving entries are not the candidate
                assert(old0.link_ok(ll, a1));
                assert(old0.link_ok(ll, a2));
                assert(old0.node_ok(c[a1] as int));
                assert(old0.node_ok(c[a2] as int));
                assert(old0.chain(0).contains(c[a1]));
                assert(old0.chain(0).contains(c[a2]));
                let r1 = old0.rank(c[a1]);
                let r2 = old0.rank(c[a2]);
                assert(0 <= r1 < c0.len() && c0[r1] == c[a1]);
                assert(0 <= r2 < c0.len() && c0[r2] == c[a2]);
                assert(c[a1] != cand && c[a2] != cand) by {
                    if ll < m {
                        assert(old0.nodup());
                        assert(old0.chain(ll)[kc] == cand);
                    } else {
                        if c[a1] == cand {
                            assert(old0.lvl_at(cand as int) > ll);
                        }
                        if c[a2] == cand {
                            assert(old0.lvl_at(cand as int) > ll);
                        }
                    }
                }
                assert(r1 != j0) by {
                    if r1 == j0 {
                        old0.lemma_rank_is(cand, j0);
                        assert(c0[j0] == cand);
                    }
                }
                assert(r2 != j0) by {
                    if r2 == j0 {
                        old0.lemma_rank_is(cand, j0);
                        assert(c0[j0] == cand);
                    }
                }
            }
        }
    }

    /// The view lost exactly the pair at the boundary.
    proof fn lemma_delete_view(
        self,
        old0: Self,
        prevs: Seq<usize>,
        v: i64,
        cand: usize,
        m: usize,
    )
        requires
            self.delete_splice_state(old0, prevs, v, cand, m),
        ensures
            self@ == old0@.remove(first_above(old0.level_values(0), v, true)),
    {
        let j0 = first_above(old0.level_values(0), v, true);
        assert(old0.chain_ok(0));
        assert(old0.link_ok(0, j0));
        assert(old0.node_ok(cand as int));
        old0.lemma_delete_boundary(v, cand, 0);
        let c0 = old0.chain(0);
        let c02 = self.chain(0);
        old0.chain(0).remove_ensures(j0);
        old0@.remove_ensures(j0);
        assert forall|k: int| 0 <= k < c02.len() implies self@[k] == old0@.remove(j0)[k] by {
            let a = if k < j0 {
                k
            } else {
                k + 1
            };
            assert(c02[k] == c0[a]);
            assert(old0.link_ok(0, a));
            assert(old0@[a] == (old0.val_at(c0[a] as int), old0.node_at(c0[a] as int).index));
        }
        assert(self@ =~= old0@.remove(j0));
    }

    /// Walks the level-0 chain from one entry to its end, collecting the
    /// external positions in chain order.
    fn collect_from(&self, start: usize, k0: Ghost<int>) -> (r: Vec<usize>)
        requires
            self.wf(),
            0 <= k0@ <= self.chain(0).len(),
            start == (if k0@ < self.chain(0).len() {
                self.chain(0)[k0@]
            } else {
                NIL
            }),
        ensures
            r@ == self@.subrange(k0@, self@.len() as int).map_values(|e: (i64, usize)| e.1),
    {
        let mut r: Vec<usize> = Vec::new();
        let mut cur: usize = start;
        let ghost mut k: int = k0@;
        proof {
            assert(self@.subrange(k0@, k).map_values(|e: (i64, usize)| e.1) =~= Seq::<
                usize,
            >::empty());
        }
        loop
            invariant
                self.wf(),
                0 <= k0@,
                k0@ <= k <= self.chain(0).len(),
                cur == (if k < self.chain(0).len() {
                    self.chain(0)[k]
                } else {
                    NIL
                }),
                r@ == self@.subrange(k0@, k).map_values(|e: (i64, usize)| e.1),
            ensures
                k == self.chain(0).len(),
                r@ == self@.subrange(k0@, k).map_values(|e: (i64, usize)| e.1),
            decreases self.chain(0).len() - k,
        {
            if cur == NIL {
                proof {
                    if k < self.chain(0).len() {
                        assert(self.chain_ok(0));
                        assert(0 <= k < self.chain(0).len());
                        assert(self.link_ok(0, k));
                    }
                }
                break ;
            }
            proof {
                assert(self.chain_ok(0));
                assert(0 <= k < self.chain(0).len()) by {
                    if k >= self.chain(0).len() {
                        assert(cur == NIL);
                    }
                }
                assert(self.link_ok(0, k));
                assert(self.node_ok(cur as int));
            }
            let node_idx = self.node_vec[cur].as_ref().unwrap().index;
            let nx = self.node_vec[cur].as_ref().unwrap().next_pointers[0];
            r.push(node_idx);
            proof {
                assert(self@[k] == (self.val_at(cur as int), self.node_at(cur as int).index));
                assert(self@.subrange(k0@, k + 1).map_values(|e: (i64, usize)| e.1)
                    =~= self@.subrange(k0@, k).map_values(|e: (i64, usize)| e.1).push(node_idx));
                if k + 1 < self.chain(0).len() {
                    assert(nx == self.chain(0)[k + 1]);
                } else {
                    assert(nx == NIL);
                }
            }
            cur = nx;
            proof {
                k = k + 1;
            }
        }
        r
    }

    /// Walks the level-0 chain from one entry while the values miss the
    /// bound, collecting the external positions in chain order.
    fn collect_while(&self, start: usize, k0: Ghost<int>, v: i64, incl: bool) -> (r: Vec<usize>)
        requires
            self.wf(),
            0 <= k0@ <= first_above(self.level_values(0), v, incl),
            start == (if k0@ < self.chain(0).len() {
                self.chain(0)[k0@]
            } else {
                NIL
            }),
            forall|k: int| 0 <= k < k0@ ==> !above(self.level_values(0)[k], v, incl),
        ensures
            r@ == self@.subrange(k0@, first_above(self.level_values(0), v, incl)).map_values(
                |e: (i64, usize)| e.1,
            ),
    {
        proof {
            lemma_first_above_bounds(self.level_values(0), v, incl);
        }
        let mut r: Vec<usize> = Vec::new();
        let mut cur: usize = start;
        let ghost mut k: int = k0@;
        proof {
            assert(self@.subrange(k0@, k).map_values(|e: (i64, usize)| e.1) =~= Seq::<
                usize,
            >::empty());
        }
        loop
            invariant
                self.wf(),
                0 <= k0@,
                k0@ <= k <= self.chain(0).len(),
                cur == (if k < self.chain(0).len() {
                    self.chain(0)[k]
                } else {
                    NIL
                }),
                forall|k2: int| 0 <= k2 < k ==> !above(self.level_values(0)[k2], v, incl),
                r@ == self@.subrange(k0@, k).map_values(|e: (i64, usize)| e.1),
            ensures
                k == first_above(self.level_values(0), v, incl),
                r@ == self@.subrange(k0@, k).map_values(|e: (i64, usize)| e.1),
            decreases self.chain(0).len() - k,
        {
            if cur == NIL {
                proof {
                    if k < self.chain(0).len() {
                        assert(self.chain_ok(0));
                        assert(0 <= k < self.chain(0).len());
                        assert(self.link_ok(0, k));
                    }
                    lemma_first_above_is(self.level_values(0), v, incl, k);
                }
                break ;
            }
            proof {
                assert(self.chain_ok(0));
                assert(0 <= k < self.chain(0).len()) by {
                    if k >= self.chain(0).len() {
                        assert(cur == NIL);
                    }
                }
                assert(self.link_ok(0, k));
                assert(self.node_ok(cur as int));
            }
            let cv = self.node_vec[cur].as_ref().unwrap().val;
            let reached = if incl {
                cv >= v
            } else {
                cv > v
            };
            if reached {
                proof {
                    assert(above(self.level_values(0)[k], v, incl));
                    lemma_first_above_is(self.level_values(0), v, incl, k);
                }
                break ;
            }
            let node_idx = self.node_vec[cur].as_ref().unwrap().index;
            let nx = self.node_vec[cur].as_ref().unwrap().next_pointers[0];
            r.push(node_idx);
            proof {
                assert(self@[k] == (self.val_at(cur as int), self.node_at(cur as int).index));
                assert(self@.subrange(k0@, k + 1).map_values(|e: (i64, usize)| e.1)
                    =~= self@.subrange(k0@, k).map_values(|e: (i64, usize)| e.1).push(node_idx));
                if k + 1 < self.chain(0).len() {
                    assert(nx == self.chain(0)[k + 1]);
                } else {
                    assert(nx == NIL);
                }
            }
            cur = nx;
            proof {
                k = k + 1;
            }
        }
        r
    }

    /// Exact search: the positions of every entry carrying the value, in
    /// level-0 chain order.
    pub fn search(&self, val: i64) -> (r: Vec<usize>)
        requires
            self.wf(),
        ensures
            r@ == self@.filter(|e: (i64, usize)| e.0 == val).map_values(|e: (i64, usize)| e.1),
    {
        let prevs = self.descend(val, true);
        let p0 = prevs[0];
        let ghost jg = first_above(self.level_values(0), val, true);
        let ghost jt = first_above(self.level_values(0), val, false);
        proof {
            lemma_first_above_bounds(self.level_values(0), val, true);
            lemma_first_above_bounds(self.level_values(0), val, false);
            assert(self.chain_ok(0));
            assert(self.prev_ok(0, p0, val, true));
            if jg != 0 {
                assert(self.link_ok(0, jg - 1));
                assert(self.node_ok(p0 as int));
            }
            if jt < jg {
                assert(above(self.level_values(0)[jt], val, false));
                assert(!above(self.level_values(0)[jt], val, true));
            }
        }
        let start = self.get_forward(p0, 0);
        proof {
            if jg < self.chain(0).len() {
                assert(self.link_ok(0, jg));
                assert(start == self.chain(0)[jg]);
            } else {
                assert(start == NIL);
            }
        }
        let r = self.collect_while(start, Ghost(jg), val, false);
        proof {
            self.lemma_sorted_block(val, jg, jt);
            lemma_filter_is_range(self@, |e: (i64, usize)| e.0 == val, jg, jt);
        }
        r
    }

    /// The entries between the two boundaries carry exactly the value; all
    /// before fall short of it and all after exceed it.
    proof fn lemma_sorted_block(self, val: i64, jg: int, jt: int)
        requires
            self.wf(),
            jg == first_above(self.level_values(0), val, true),
            jt == first_above(self.level_values(0), val, false),
        ensures
            0 <= jg <= jt <= self@.len(),
            forall|k: int| 0 <= k < jg ==> #[trigger] self@[k].0 < val,
            forall|k: int| jg <= k < jt ==> #[trigger] self@[k].0 == val,
            forall|k: int| jt <= k < self@.len() ==> #[trigger] self@[k].0 > val,
    {
        lemma_first_above_bounds(self.level_values(0), val, true);
        lemma_first_above_bounds(self.level_values(0), val, false);
        if jt < jg {
            assert(above(self.level_values(0)[jt], val, false));
            assert(!above(self.level_values(0)[jt], val, true));
        }
        assert forall|k: int| 0 <= k < jg implies #[trigger] self@[k].0 < val by {
            assert(!above(self.level_values(0)[k], val, true));
        }
        assert forall|k: int| jg <= k < jt implies #[trigger] self@[k].0 == val by {
            assert(!above(self.level_values(0)[k], val, false));
            assert(above(self.level_values(0)[jg], val, true));
            assert(self.val_at(self.chain(0)[jg] as int) <= self.val_at(
                self.chain(0)[k] as int,
            ));
        }
        assert forall|k: int| jt <= k < self@.len() implies #[trigger] self@[k].0 > val by {
            assert(above(self.level_values(0)[jt], val, false));
            assert(self.val_at(self.chain(0)[jt] as int) <= self.val_at(
                self.chain(0)[k] as int,
            ));
        }
    }

    /// The positions of every entry strictly below the value, walked from
    /// the entry just after the head at level 0.
    pub fn search_lt(&self, val: i64) -> (r: Vec<usize>)
        requires
            self.wf(),
        ensures
            r@ == self@.filter(|e: (i64, usize)| e.0 < val).map_values(|e: (i64, usize)| e.1),
    {
        let ghost jg = first_above(self.level_values(0), val, true);
        let ghost jt = first_above(self.level_values(0), val, false);
        proof {
            lemma_first_above_bounds(self.level_values(0), val, true);
            assert(self.chain_ok(0));
            if self.chain(0).len() > 0 {
                assert(self.link_ok(0, 0));
            }
        }
        let start = self.get_forward(0, 0);
        let r = self.collect_while(start, Ghost(0), val, true);
        proof {
            self.lemma_sorted_block(val, jg, jt);
            lemma_filter_is_range(self@, |e: (i64, usize)| e.0 < val, 0, jg);
        }
        r
    }

    /// The positions of every entry at or below the value, walked from the
    /// entry just after the head at level 0.
    pub fn search_lte(&self, val: i64) -> (r: Vec<usize>)
        requires
            self.wf(),
        ensures
            r@ == self@.filter(|e: (i64, usize)| e.0 <= val).map_values(|e: (i64, usize)| e.1),
    {
        let ghost jg = first_above(self.level_values(0), val, true);
        let ghost jt = first_above(self.level_values(0), val, false);
        proof {
            lemma_first_above_bounds(self.level_values(0), val, false);
            assert(self.chain_ok(0));
            if self.chain(0).len() > 0 {
                assert(self.link_ok(0, 0));
            }
        }
        let start = self.get_forward(0, 0);
        let r = self.collect_while(start, Ghost(0), val, false);
        proof {
            self.lemma_sorted_block(val, jg, jt);
            lemma_filter_is_range(self@, |e: (i64, usize)| e.0 <= val, 0, jt);
        }
        r
    }

    /// The positions of every entry strictly above the value, located by a
    /// tower descent and walked to the end of level 0.
    pub fn search_gt(&self, val: i64) -> (r: Vec<usize>)
        requires
            self.wf(),
        ensures
            r@ == self@.filter(|e: (i64, usize)| e.0 > val).map_values(|e: (i64, usize)| e.1),
    {
        let prevs = self.descend(val, false);
        let p0 = prevs[0];
        let ghost jg = first_above(self.level_values(0), val, true);
        let ghost jt = first_above(self.level_values(0), val, false);
        proof {
            lemma_first_above_bounds(self.level_values(0), val, false);
            assert(self.chain_ok(0));
            assert(self.prev_ok(0, p0, val, false));
            if jt != 0 {
                assert(self.link_ok(0, jt - 1));
                assert(self.node_ok(p0 as int));
            }
        }
        let start = self.get_forward(p0, 0);
        proof {
            if jt < self.chain(0).len() {
                assert(self.link_ok(0, jt));
                assert(start == self.chain(0)[jt]);
            } else {
                assert(start == NIL);
            }
        }
        let r = self.collect_from(start, Ghost(jt));
        proof {
            self.lemma_sorted_block(val, jg, jt);
            lemma_filter_is_range(self@, |e: (i64, usize)| e.0 > val, jt, self@.len() as int);
        }
        r
    }

    /// The positions of every entry at or above the value, located by a
    /// tower descent and walked to the end of level 0.
    pub fn search_gte(&self, val: i64) -> (r: Vec<usize>)
        requires
            self.wf(),
        ensures
            r@ == self@.filter(|e: (i64, usize)| e.0 >= val).map_values(|e: (i64, usize)| e.1),
    {
        let prevs = self.descend(val, true);
        let p0 = prevs[0];
        let ghost jg = first_above(self.level_values(0), val, true);
        let ghost jt = first_above(self.level_values(0), val, false);
        proof {
            lemma_first_above_bounds(self.level_values(0), val, true);
            assert(self.chain_ok(0));
            assert(self.prev_ok(0, p0, val, true));
            if jg != 0 {
                assert(self.link_ok(0, jg - 1));
                assert(self.node_ok(p0 as int));
            }
        }
        let start = self.get_forward(p0, 0);
        proof {
            if jg < self.chain(0).len() {
                assert(self.link_ok(0, jg));
                assert(start == self.chain(0)[jg]);
            } else {
                assert(start == NIL);
            }
        }
        let r = self.collect_from(start, Ghost(jg));
        proof {
            self.lemma_sorted_block(val, jg, jt);
            lemma_filter_is_range(self@, |e: (i64, usize)| e.0 >= val, jg, self@.len() as int);
        }
        r
    }

    /// Diagnostic dump: for each level from highest to lowest, the values
    /// reachable along that level's forward chain from the head (the head's
    /// own sentinel value excluded). Read-only.
    pub fn dump_levels(&self) -> (r: Vec<Vec<i64>>)
        requires
            self.wf(),
        ensures
            r@.len() == self.levels(),
            forall|i: int|
                0 <= i < r@.len() ==> #[trigger] r@[i]@ == self.level_values(
                    self.levels() - 1 - i,
                ),
    {
        let nl = self.num_levels;
        let mut r: Vec<Vec<i64>> = Vec::new();
        let mut i: usize = 0;
        while i < nl
            invariant
                self.wf(),
                nl == self.num_levels,
                i <= nl,
                r@.len() == i,
                forall|q: int|
                    0 <= q < i ==> #[trigger] r@[q]@ == self.level_values(nl - 1 - q),
            decreases nl - i,
        {
            let l = nl - 1 - i;
            let row = self.collect_level(l);
            r.push(row);
            i = i + 1;
        }
        r
    }

    /// Walks one level's forward chain from the head, collecting the values.
    fn collect_level(&self, l: usize) -> (row: Vec<i64>)
        requires
            self.wf(),
            (l as int) < self.levels(),
        ensures
            row@ == self.level_values(l as int),
    {
        let mut row: Vec<i64> = Vec::new();
        proof {
            assert(self.chain_ok(l as int));
        }
        let mut cur: usize = self.node_vec[0].as_ref().unwrap().next_pointers[l];
        let ghost mut k: int = 0;
        loop
            invariant
                self.wf(),
                (l as int) < self.levels(),
                0 <= k <= self.chain(l as int).len(),
                cur == (if k < self.chain(l as int).len() {
                    self.chain(l as int)[k]
                } else {
                    NIL
                }),
                row@ == self.level_values(l as int).take(k),
            ensures
                k == self.chain(l as int).len(),
                row@ == self.level_values(l as int).take(k),
            decreases self.chain(l as int).len() - k,
        {
            if cur == NIL {
                proof {
                    if k < self.chain(l as int).len() {
                        assert(self.chain_ok(l as int));
                        assert(self.link_ok(l as int, k));
                    }
                }
                break ;
            }
            proof {
                assert(self.chain_ok(l as int));
                assert(0 <= k < self.chain(l as int).len()) by {
                    if k >= self.chain(l as int).len() {
                        assert(cur == NIL);
                    }
                }
                assert(self.link_ok(l as int, k));
                assert(self.node_ok(cur as int));
            }
            let cv = self.node_vec[cur].as_ref().unwrap().val;
            let nx = self.node_vec[cur].as_ref().unwrap().next_pointers[l];
            row.push(cv);
            proof {
                assert(self.level_values(l as int)[k] == self.val_at(cur as int));
                assert(self.level_values(l as int).take(k + 1) =~= self.level_values(
                    l as int,
                ).take(k).push(cv));
                if k + 1 < self.chain(l as int).len() {
                    assert(nx == self.chain(l as int)[k + 1]);
                } else {
                    assert(nx == NIL);
                }
            }
            cur = nx;
            proof {
                k = k + 1;
            }
        }
        proof {
            assert(self.level_values(l as int).take(k) =~= self.level_values(l as int));
        }
        row
    }

    /// The view itself is sorted: the values of the (value, position) pairs
    /// are the level-0 chain's values, and they never decrease.
    pub proof fn lemma_view_sorted(self)
        requires
            self.wf(),
        ensures
            values_of(self@) == self.level_values(0),
            sorted_values(values_of(self@)),
    {
        assert(values_of(self@) =~= self.level_values(0));
        assert forall|i: int, j: int|
            0 <= i <= j < values_of(self@).len() implies values_of(self@)[i] <= values_of(
            self@,
        )[j] by {
            assert(self.val_at(self.chain(0)[i] as int) <= self.val_at(self.chain(0)[j] as int));
        }
    }

    /// Sortedness law: at every level, walking the forward chain from the
    /// head yields a non-decreasing sequence of values.
    pub proof fn lemma_sortedness(self, l: int)
        requires
            self.wf(),
            0 <= l < self.levels(),
        ensures
            forall|k1: int, k2: int|
                0 <= k1 <= k2 < self.level_values(l).len() ==> self.level_values(l)[k1]
                    <= self.level_values(l)[k2],
    {
        self.lemma_level_sorted(l);
    }

    /// Level-subset law: every node id reachable along the chain of one
    /// level is also reachable along the chain of every lower level.
    pub proof fn lemma_level_subset(self, l: int)
        requires
            self.wf(),
            0 <= l,
            l + 1 < self.levels(),
        ensures
            forall|id: usize| self.chain(l + 1).contains(id) ==> self.chain(l).contains(id),
    {
        assert forall|id: usize|
            self.chain(l + 1).contains(id) implies self.chain(l).contains(id) by {
            let c = self.chain(l + 1);
            let k = choose|k: int| 0 <= k < c.len() && c[k] == id;
            assert(self.chain_ok(l + 1));
            assert(self.link_ok(l + 1, k));
            assert(self.node_ok(id as int));
        }
    }

    /// `index_of` picks the one index of an id in a duplicate-free chain.
    proof fn lemma_index_of_is(self, ll: int, id: usize, k: int)
        requires
            self.nodup(),
            0 <= ll < self.chains@.len(),
            ll < self.num_levels,
            0 <= k < self.chain(ll).len(),
            self.chain(ll)[k] == id,
        ensures
            self.chain(ll).index_of(id) == k,
    {
        assert(self.chain(ll).contains(id));
        let r = self.chain(ll).index_of(id);
        assert(0 <= r < self.chain(ll).len() && self.chain(ll)[r] == id);
        if r < k {
            assert(self.chain(ll)[r] != self.chain(ll)[k]);
        } else if k < r {
            assert(self.chain(ll)[k] != self.chain(ll)[r]);
        }
    }

    /// With no duplicate ids in the level-0 chain, an id's rank is the one
    /// index at which it stands.
    proof fn lemma_rank_is(self, id: usize, k: int)
        requires
            self.nodup(),
            self.chains@.len() >= 1,
            self.num_levels >= 1,
            0 <= k < self.chain(0).len(),
            self.chain(0)[k] == id,
        ensures
            self.rank(id) == k,
    {
        assert(self.chain(0).contains(id));
        let r = self.rank(id);
        assert(0 <= r < self.chain(0).len() && self.chain(0)[r] == id);
        if r < k {
            assert(self.chain(0)[r] != self.chain(0)[k]);
        } else if k < r {
            assert(self.chain(0)[k] != self.chain(0)[r]);
        }
    }
}

} // verus!
