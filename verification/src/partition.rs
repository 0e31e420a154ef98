//! Partitioning a sorted integer sequence to minimize encoding cost.
//!
//! A block of a sorted, distinct sequence is charged a closed-form
//! Elias-Fano size in bits, rounded up to a byte, plus a fixed per-block
//! overhead; a dense block (as many values as its span) pays the overhead
//! alone. `Partitioner::partition` runs a threshold dynamic program that
//! approximates the cheapest segmentation.

use itertools::Itertools;
use vstd::pervasive::VecAdditionalExecFns;
use vstd::prelude::*;

verus! {

/// Per-block overhead in bits: two machine words.
pub open spec fn spec_fixed_cost() -> int {
    128
}

/// Strictly increasing, hence distinct.
pub open spec fn sorted_strict(s: Seq<u64>) -> bool {
    forall|i: int, j: int| 0 <= i < j < s.len() ==> #[trigger] s[i] < #[trigger] s[j]
}

/// 2 to the power `l` (1 for nonpositive `l`).
pub open spec fn pow2i(l: int) -> int
    decreases l,
{
    if l <= 0 {
        1
    } else {
        2 * pow2i(l - 1)
    }
}

/// The ceiling of the base-2 logarithm: the smallest `l` with `2^l >= d`.
pub open spec fn spec_clog2(d: int) -> int
    decreases d,
{
    if d <= 1 {
        0
    } else {
        1 + spec_clog2((d + 1) / 2)
    }
}

/// `pow2i` is positive and monotone.
proof fn lemma_pow2i_mono(a: int, b: int)
    requires
        a <= b,
    ensures
        1 <= pow2i(a) <= pow2i(b),
    decreases b - a,
{
    if a < b {
        lemma_pow2i_mono(a, b - 1);
    } else {
        lemma_pow2i_pos(a);
    }
}

/// The exact value of 2^62, by unfolding.
proof fn lemma_pow2i_62()
    ensures
        pow2i(62) == 0x4000_0000_0000_0000,
{
    reveal_with_fuel(pow2i, 64);
}

proof fn lemma_pow2i_pos(a: int)
    ensures
        pow2i(a) >= 1,
    decreases a,
{
    if a > 0 {
        lemma_pow2i_pos(a - 1);
    }
}

/// `spec_clog2(d)` is the least exponent whose power of two reaches `d`.
proof fn lemma_clog2_bounds(d: int)
    requires
        d >= 1,
    ensures
        spec_clog2(d) >= 0,
        pow2i(spec_clog2(d)) >= d,
        spec_clog2(d) == 0 || pow2i(spec_clog2(d) - 1) < d,
    decreases d,
{
    if d >= 2 {
        let h = (d + 1) / 2;
        assert(1 <= h < d);
        lemma_clog2_bounds(h);
        let c = spec_clog2(d);
        assert(c == 1 + spec_clog2(h));
        assert(pow2i(c) == 2 * pow2i(spec_clog2(h)));
        assert(2 * h >= d);
        if spec_clog2(h) == 0 {
            assert(pow2i(c - 1) == 1);
        } else {
            assert(pow2i(spec_clog2(h) - 1) < h);
            assert(pow2i(spec_clog2(h)) < 2 * h);
            assert(2 * h <= d + 1);
        }
    }
}

/// Any exponent meeting the same minimality conditions is `spec_clog2(d)`.
proof fn lemma_clog2_unique(d: int, l: int)
    requires
        d >= 1,
        l >= 0,
        pow2i(l) >= d,
        l == 0 || pow2i(l - 1) < d,
    ensures
        l == spec_clog2(d),
{
    lemma_clog2_bounds(d);
    let c = spec_clog2(d);
    if l < c {
        lemma_pow2i_mono(l, c - 1);
        assert(pow2i(c - 1) >= pow2i(l) >= d);
        assert(c > 0);
        assert(false);
    }
    if l > c {
        lemma_pow2i_mono(c, l - 1);
        assert(pow2i(l - 1) >= pow2i(c) >= d);
        assert(false);
    }
}

/// The bit cost of encoding the block `s[i .. j)`: nothing but the fixed
/// overhead for a dense block, otherwise the overhead plus the cheaper of
/// the Elias-Fano size and a plain bitmap over the block's span, rounded up
/// to whole bytes.
pub open spec fn spec_block_cost(s: Seq<u64>, i: int, j: int) -> int {
    let n = j - i;
    let u = s[j - 1] - s[i] + 1;
    if n == u {
        spec_fixed_cost()
    } else {
        let l = spec_clog2((u - 1) / n + 1);
        let ef = 2 * n + n * l;
        let c = spec_fixed_cost() + if ef < u {
            ef
        } else {
            u as int
        };
        ((c + 7) / 8) * 8
    }
}

/// Bounds under which every arithmetic step of the cost evaluation fits the
/// machine: values below 2^62, the span plus slack within `usize`, and room
/// for `len` times a word of bits.
pub open spec fn fits(s: Seq<u64>) -> bool {
    &&& forall|k: int| 0 <= k < s.len() ==> (#[trigger] s[k]) < 0x4000_0000_0000_0000
    &&& s.len() >= 1
    &&& s[s.len() - 1] as int - s[0] as int + 200 <= usize::MAX as int
    &&& s.len() * 70 <= usize::MAX as int
}

/// Every block cost is at least the fixed overhead and a whole number.
proof fn lemma_block_cost_ge(s: Seq<u64>, i: int, j: int)
    requires
        sorted_strict(s),
        0 <= i < j <= s.len(),
    ensures
        spec_block_cost(s, i, j) >= spec_fixed_cost(),
{
    let n = j - i;
    let u = s[j - 1] - s[i] + 1;
    if n != u {
        let l = spec_clog2((u - 1) / n + 1);
        assert(u >= 1);
        vstd::arithmetic::div_mod::lemma_div_is_ordered(0, u - 1, n);
        lemma_clog2_bounds((u - 1) / n + 1);
        assert(2 * n + n * l >= 0) by (nonlinear_arith)
            requires
                n >= 1,
                l >= 0,
        ;
        let ef = 2 * n + n * l;
        let c = spec_fixed_cost() + if ef < u {
            ef
        } else {
            u as int
        };
        assert(c >= spec_fixed_cost());
        assert(((c + 7) / 8) * 8 >= c) by (nonlinear_arith)
            requires
                c >= 0,
        ;
    }
}

/// The index in `s` holding the value `v`; meaningful when `v` occurs in a
/// sequence of distinct values.
pub open spec fn idx_in(s: Seq<u64>, v: u64) -> int {
    choose|i: int| 0 <= i < s.len() && s[i] == v
}

/// In a strictly sorted sequence, `idx_in` recovers the unique position.
proof fn lemma_idx_in(s: Seq<u64>, i: int)
    requires
        sorted_strict(s),
        0 <= i < s.len(),
    ensures
        idx_in(s, s[i]) == i,
{
    assert(0 <= i < s.len() && s[i] == s[i]);
    let i2 = idx_in(s, s[i]);
    if i2 < i {
        assert(s[i2] < s[i]);
    }
    if i2 > i {
        assert(s[i] < s[i2]);
    }
}

/// The block starts of a partition, as indices into `s`.
pub open spec fn bounds_of(s: Seq<u64>, pts: Seq<u64>) -> Seq<int> {
    Seq::new(pts.len(), |k: int| idx_in(s, pts[k]))
}

/// Total cost of the blocks starting at `idxs[k ..]`, the last block running
/// to the end of `s`.
pub open spec fn chain_cost(s: Seq<u64>, idxs: Seq<int>, k: int) -> int
    decreases idxs.len() - k,
{
    if k < 0 || k >= idxs.len() {
        0
    } else if k == idxs.len() - 1 {
        spec_block_cost(s, idxs[k], s.len() as int)
    } else {
        spec_block_cost(s, idxs[k], idxs[k + 1]) + chain_cost(s, idxs, k + 1)
    }
}

/// The cost of encoding `s` in the blocks cut at the values `pts`, the first
/// block starting at `pts[0]` and the last running to the end.
pub open spec fn spec_cost_with_partition(s: Seq<u64>, pts: Seq<u64>) -> int {
    chain_cost(s, bounds_of(s, pts), 0)
}

/// A usable partition: at least one point, strictly increasing, every point
/// a value of `s`.
pub open spec fn valid_points(s: Seq<u64>, pts: Seq<u64>) -> bool {
    &&& pts.len() >= 1
    &&& sorted_strict(pts)
    &&& forall|k: int| 0 <= k < pts.len() ==> s.contains(#[trigger] pts[k])
}

/// Chain costs of valid index chains are sums of nonnegative block costs.
proof fn lemma_chain_cost_ge(s: Seq<u64>, idxs: Seq<int>, k: int)
    requires
        sorted_strict(s),
        forall|t1: int, t2: int| 0 <= t1 < t2 < idxs.len() ==> #[trigger] idxs[t1] < #[trigger] idxs[t2],
        forall|t: int| 0 <= t < idxs.len() ==> 0 <= #[trigger] idxs[t] < s.len(),
    ensures
        chain_cost(s, idxs, k) >= 0,
        0 <= k < idxs.len() ==> chain_cost(s, idxs, k) >= spec_block_cost(s, idxs[k], if k
            == idxs.len() - 1 {
            s.len() as int
        } else {
            idxs[k + 1]
        }),
    decreases idxs.len() - k,
{
    if 0 <= k < idxs.len() {
        if k == idxs.len() - 1 {
            lemma_block_cost_ge(s, idxs[k], s.len() as int);
        } else {
            lemma_block_cost_ge(s, idxs[k], idxs[k + 1]);
            lemma_chain_cost_ge(s, idxs, k + 1);
        }
    }
}

/// Consecutive equal elements collapsed to one.
pub open spec fn spec_dedup(s: Seq<Option<usize>>) -> Seq<Option<usize>>
    decreases s.len(),
{
    if s.len() <= 1 {
        s
    } else if s[0] == s[1] {
        spec_dedup(s.drop_first())
    } else {
        seq![s[0]] + spec_dedup(s.drop_first())
    }
}

/// Deduplication only keeps elements of the given sequence, and keeps a
/// representative of the final run.
proof fn lemma_dedup_elements(s: Seq<Option<usize>>)
    ensures
        forall|k: int| 0 <= k < spec_dedup(s).len() ==> s.contains(#[trigger] spec_dedup(s)[k]),
        s.len() >= 1 ==> spec_dedup(s).len() >= 1 && spec_dedup(s).last() == s.last(),
    decreases s.len(),
{
    if s.len() > 1 {
        lemma_dedup_elements(s.drop_first());
        assert forall|k: int| 0 <= k < spec_dedup(s).len() implies s.contains(
            #[trigger] spec_dedup(s)[k],
        ) by {
            if s[0] == s[1] || k > 0 {
                let kk: int = if s[0] == s[1] {
                    k
                } else {
                    k - 1
                };
                assert(spec_dedup(s)[k] == spec_dedup(s.drop_first())[kk]);
                let k0 = choose|k0: int|
                    0 <= k0 < s.drop_first().len() && s.drop_first()[k0] == spec_dedup(
                        s.drop_first(),
                    )[kk];
                assert(s[k0 + 1] == spec_dedup(s)[k]);
            } else {
                assert(s[0] == spec_dedup(s)[k]);
            }
        }
        assert(s.drop_first().last() == s.last());
    }
}

/// Relies on itertools' `dedup`: runs of consecutive equal elements collapse
/// to their first element.
#[verifier::external_body]
fn dedup_windows(v: &Vec<Option<usize>>) -> (r: Vec<Option<usize>>)
    ensures
        r@ == spec_dedup(v@),
{
    v.iter().copied().dedup().collect()
}

/// Prepending a block start shifts chain positions by one.
proof fn lemma_chain_prepend(s: Seq<u64>, idxs: Seq<int>, a: int, k: int)
    requires
        0 <= k,
    ensures
        chain_cost(s, seq![a] + idxs, k + 1) == chain_cost(s, idxs, k),
    decreases idxs.len() - k,
{
    let ext = seq![a] + idxs;
    if k < idxs.len() {
        assert(ext[k + 1] == idxs[k]);
        if k == idxs.len() - 1 {
        } else {
            assert(ext[k + 2] == idxs[k + 1]);
            lemma_chain_prepend(s, idxs, a, k + 1);
        }
    }
}

/// The rolling state of the threshold dynamic program: `dist[j]` is the cost
/// of some chain of blocks from 0 to `j`, witnessed by the `pred` links, and
/// only sources up to `i` have been used.
pub open spec fn dp_inv(s: Seq<u64>, dist: Seq<usize>, pred: Seq<usize>, i: int) -> bool {
    &&& dist.len() == s.len() + 1
    &&& pred.len() == s.len() + 1
    &&& dist[0] == 0
    &&& forall|j: int|
        1 <= j <= s.len() && (#[trigger] dist[j]) != usize::MAX ==> pred[j] < j && pred[j] <= i
            && dist[pred[j] as int] != usize::MAX && dist[j] as int == dist[pred[j] as int] as int
            + spec_block_cost(s, pred[j] as int, j)
}

/// Computes block costs and near-optimal partitions of sorted distinct
/// sequences of integers.
pub struct Partitioner {
    fixed_cost: usize,
}

impl Partitioner {
    /// The fixed per-block overhead is two 64-bit words.
    pub closed spec fn wf(self) -> bool {
        self.fixed_cost == 128
    }

    pub fn new() -> (r: Self)
        ensures
            r.wf(),
    {
        Partitioner { fixed_cost: 128 }
    }

    /// The cost in bits to encode the values `val[i ..= j-1]`.
    pub fn cost(&self, val: &Vec<u64>, i: usize, j: usize) -> (r: usize)
        requires
            self.wf(),
            sorted_strict(val@),
            fits(val@),
            i < j <= val@.len(),
        ensures
            r as int == spec_block_cost(val@, i as int, j as int),
            r >= 128,
    {
        proof {
            lemma_block_cost_ge(val@, i as int, j as int);
            if i < j - 1 {
                assert(val@[i as int] < val@[j - 1]);
            }
            assert(val@[0] <= val@[i as int] && val@[j - 1] <= val@[val@.len() - 1]) by {
                if 0 < i {
                    assert(val@[0] < val@[i as int]);
                }
                if j < val@.len() {
                    assert(val@[j - 1] < val@[val@.len() - 1]);
                }
            }
        }
        let n = j - i;
        let d = val[j - 1] - val[i];
        let u = d + 1;
        if (n as u64) == u {
            return self.fixed_cost;
        }
        // l = ceil(log2(ceil(u / n)))
        let dc = (u - 1) / (n as u64) + 1;
        let mut l: usize = 0;
        let mut p: u64 = 1;
        proof {
            vstd::arithmetic::div_mod::lemma_div_is_ordered(u as int - 1, u as int, n as int);
            assert(u / (n as u64) <= u) by (nonlinear_arith)
                requires
                    n >= 1,
                    u >= 0,
            ;
            vstd::arithmetic::div_mod::lemma_div_is_ordered(0, u as int - 1, n as int);
        }
        while p < dc
            invariant
                1 <= dc <= 0x4000_0000_0000_0000,
                p as int == pow2i(l as int),
                l == 0 || pow2i(l as int - 1) < dc,
                p <= 0x4000_0000_0000_0000,
                l <= 62,
            decreases 64 - l,
        {
            proof {
                lemma_pow2i_62();
                if l >= 62 {
                    lemma_pow2i_mono(62, l as int);
                    assert(false);
                }
                lemma_pow2i_mono(l as int + 1, 62);
            }
            p = p * 2;
            l = l + 1;
        }
        proof {
            lemma_clog2_unique(dc as int, l as int);
        }
        proof {
            let vl = val@.len() as int;
            assert(n * l <= n * 62) by (nonlinear_arith)
                requires
                    l <= 62,
                    n >= 0,
            ;
            assert(2 * n + n * 62 <= vl * 70) by (nonlinear_arith)
                requires
                    0 <= n <= vl,
            ;
        }
        let ef = 2 * n + n * l;
        let m = if (ef as u64) < u {
            ef as u64
        } else {
            u
        };
        let c = self.fixed_cost + (m as usize);
        proof {
            assert(((c as int + 7) / 8) * 8 <= c as int + 7) by (nonlinear_arith)
                requires
                    c >= 0,
        ;
        }
        ((c + 7) / 8) * 8
    }

    /// A near-optimal partition of `val` into blocks, as the list of block
    /// boundary values together with its total cost. The approximation
    /// quality is steered by the tolerance `eps_num / eps_den`; the result
    /// never costs more than encoding the whole sequence as one block. The
    /// returned cost is exactly the cost of the returned boundaries.
    #[verifier::loop_isolation(false)]
    #[verifier::rlimit(100)]
    pub fn partition(&self, val: &Vec<u64>, eps_num: usize, eps_den: usize) -> (r: (
        Vec<u64>,
        usize,
    ))
        requires
            self.wf(),
            sorted_strict(val@),
            fits(val@),
            1 <= eps_num,
            1 <= eps_den,
            128 * eps_num >= eps_den,
            eps_num + eps_den <= 4096,
            spec_block_cost(val@, 0, val@.len() as int) * 4096 <= usize::MAX,
        ensures
            valid_points(val@, r.0@),
            r.0@[0] == val@[0],
            r.1 as int == spec_cost_with_partition(val@, r.0@),
            r.1 as int <= spec_block_cost(val@, 0, val@.len() as int),
    {
        let n = val.len();
        let plain_cost = self.cost(val, 0, n);
        proof {
            assert(plain_cost * 4096 >= plain_cost * 2) by (nonlinear_arith)
                requires
                    plain_cost >= 0,
            ;
        }
        // geometric threshold ladder from the fixed cost up to the one-block cost
        let mut thresholds: Vec<usize> = Vec::new();
        thresholds.push(self.fixed_cost);
        let mut t: usize = self.fixed_cost;
        proof {
            assert(128 * (eps_den + eps_num) <= usize::MAX) by (nonlinear_arith)
                requires
                    eps_den + eps_num <= 4096,
                    plain_cost >= 128,
                    plain_cost * 4096 <= usize::MAX,
            ;
        }
        while t * (eps_den + eps_num) / eps_den <= plain_cost
            invariant
                128 <= t <= plain_cost,
                t * (eps_den + eps_num) <= usize::MAX,
                thresholds@.len() >= 1,
                forall|hh: int| 0 <= hh < thresholds@.len() ==> (#[trigger] thresholds@[hh]) >= 128,
            decreases plain_cost - t,
        {
            let next = t * (eps_den + eps_num) / eps_den;
            proof {
                let tt = t as int;
                let dd = eps_den as int;
                let nn2 = eps_num as int;
                assert(tt * (dd + nn2) >= (tt + 1) * dd) by (nonlinear_arith)
                    requires
                        tt >= 128,
                        dd >= 1,
                        nn2 >= 1,
                        128 * nn2 >= dd,
                ;
                vstd::arithmetic::div_mod::lemma_div_is_ordered((tt + 1) * dd, tt * (dd + nn2), dd);
                vstd::arithmetic::div_mod::lemma_div_multiples_vanish(tt + 1, dd);
            }
            thresholds.push(next);
            proof {
                vstd::arithmetic::div_mod::lemma_div_is_ordered(
                    0,
                    t as int * (eps_den + eps_num) as int,
                    eps_den as int,
                );
                assert(next * (eps_den + eps_num) <= usize::MAX) by (nonlinear_arith)
                    requires
                        0 <= next <= plain_cost,
                        eps_den + eps_num <= 4096,
                        plain_cost * 4096 <= usize::MAX,
                ;
            }
            t = next;
        }
        let (dist, pred) = self.run_dp(val, &thresholds, plain_cost);
        let (points, total) = self.reconstruct(val, &dist, &pred);
        (points, total)
    }

    /// Fill the distance and predecessor tables of the threshold dynamic
    /// program: for every reachable position the tables witness a chain of
    /// blocks from the origin with the recorded cost, and the final position
    /// is reachable at no more than the one-block cost.
    #[verifier::loop_isolation(false)]
    #[verifier::rlimit(100)]
    #[verifier::spinoff_prover]
    fn run_dp(&self, val: &Vec<u64>, thresholds: &Vec<usize>, plain_cost: usize) -> (r: (
        Vec<usize>,
        Vec<usize>,
    ))
        requires
            self.wf(),
            sorted_strict(val@),
            fits(val@),
            thresholds@.len() >= 1,
            forall|hh: int| 0 <= hh < thresholds@.len() ==> (#[trigger] thresholds@[hh]) >= 128,
            plain_cost as int == spec_block_cost(val@, 0, val@.len() as int),
            plain_cost < usize::MAX,
        ensures
            dp_inv(val@, r.0@, r.1@, val@.len() as int),
            r.0@[val@.len() as int] != usize::MAX,
            r.0@[val@.len() as int] as int <= plain_cost,
    {
        let n = val.len();
        let q1 = thresholds.len();
        let mut dist: Vec<usize> = vec![usize::MAX; n + 1];
        dist.set(0, 0);
        let mut pred: Vec<usize> = vec![0usize; n + 1];
        let mut windows: Vec<Option<usize>> = vec![Some(1usize); q1];
        windows.push(None);
        let mut i: usize = 0;
        while i < n
            invariant
                dp_inv(val@, dist@, pred@, i as int),
                i <= n,
                dist@.len() == n + 1,
                pred@.len() == n + 1,
                windows@.len() == q1 + 1,
                windows@[q1 as int] is None,
                forall|hh: int|
                    0 <= hh < windows@.len() ==> ((#[trigger] windows@[hh]) matches Some(ww) ==> 1
                        <= ww <= n),
                i >= 1 ==> dist@[n as int] != usize::MAX && dist@[n as int] as int
                    <= spec_block_cost(val@, 0, n as int),
            decreases n - i,
        {
            let ghost dist_before = dist@;
            self.dp_step(val, thresholds, &mut dist, &mut pred, &mut windows, i);
            proof {
                if i == 0 {
                    assert(dist_before[0] == 0);
                }
            }
            i = i + 1;
        }
        (dist, pred)
    }

    /// One source position of the dynamic program: advance every threshold
    /// window past the blocks it still affords, then relax one edge from `i`
    /// per distinct window value. The edge to the end of the table is always
    /// among them.
    #[verifier::loop_isolation(false)]
    #[verifier::rlimit(100)]
    #[verifier::spinoff_prover]
    fn dp_step(
        &self,
        val: &Vec<u64>,
        thresholds: &Vec<usize>,
        dist: &mut Vec<usize>,
        pred: &mut Vec<usize>,
        windows: &mut Vec<Option<usize>>,
        i: usize,
    )
        requires
            self.wf(),
            sorted_strict(val@),
            fits(val@),
            forall|hh: int| 0 <= hh < thresholds@.len() ==> (#[trigger] thresholds@[hh]) >= 128,
            i < val@.len(),
            dp_inv(val@, old(dist)@, old(pred)@, i as int),
            old(windows)@.len() == thresholds@.len() + 1,
            old(windows)@[old(windows)@.len() - 1] is None,
            forall|hh: int|
                0 <= hh < old(windows)@.len() ==> ((#[trigger] old(windows)@[hh]) matches Some(ww)
                    ==> 1 <= ww <= val@.len()),
        ensures
            dp_inv(val@, final(dist)@, final(pred)@, i as int),
            final(dist)@.len() == old(dist)@.len(),
            final(pred)@.len() == old(pred)@.len(),
            final(windows)@.len() == old(windows)@.len(),
            final(windows)@[final(windows)@.len() - 1] is None,
            forall|hh: int|
                0 <= hh < final(windows)@.len() ==> ((#[trigger] final(windows)@[hh]) matches Some(
                ww) ==> 1 <= ww <= val@.len()),
            forall|j: int| 0 <= j <= val@.len() ==> (#[trigger] final(dist)@[j]) <= old(dist)@[j],
            forall|j: int| 0 <= j <= i ==> (#[trigger] final(dist)@[j]) == old(dist)@[j],
            (old(dist)@[i as int] != usize::MAX && old(dist)@[i as int] as int + spec_block_cost(
                val@,
                i as int,
                val@.len() as int,
            ) < usize::MAX) ==> (final(dist)@[val@.len() as int] != usize::MAX && final(dist)@[
            val@.len() as int] as int <= old(dist)@[i as int] as int + spec_block_cost(
                val@,
                i as int,
                val@.len() as int,
            )),
    {
        let n = val.len();
        let q1 = thresholds.len();
            // advance every threshold window past the blocks it still affords
            let mut h: usize = 0;
            while h < windows.len()
                invariant
                    windows@.len() == q1 + 1,
                    windows@[q1 as int] is None,
                    h <= windows@.len(),
                    forall|hh: int|
                        0 <= hh < windows@.len() ==> ((#[trigger] windows@[hh]) matches Some(ww)
                            ==> 1 <= ww <= n),
                    forall|hh: int|
                        0 <= hh < h ==> ((#[trigger] windows@[hh]) matches Some(ww) ==> i + 2 <= ww
                            <= n),
                decreases windows@.len() - h,
            {
                match windows[h] {
                    Some(w) => {
                        let mut jj: usize = if w > i + 1 {
                            w
                        } else {
                            i + 1
                        };
                        while jj < n && self.cost(val, i, jj) <= thresholds[h]
                            invariant
                                i + 1 <= jj <= n,
                            decreases n - jj,
                        {
                            jj = jj + 1;
                        }
                        if self.cost(val, i, jj) > thresholds[h] {
                            proof {
                                if jj == i + 1 {
                                    assert(val@[i as int] - val@[i as int] + 1 == 1);
                                    assert(spec_block_cost(val@, i as int, i + 1)
                                        == spec_fixed_cost());
                                    assert(thresholds@[h as int] >= 128);
                                    assert(false);
                                }
                            }
                            windows.set(h, Some(jj));
                        } else {
                            windows.set(h, None);
                        }
                    },
                    None => {},
                }
                h = h + 1;
            }
            // relax one edge per distinct window value
            let wd = dedup_windows(&windows);
            proof {
                lemma_dedup_elements(windows@);
            }
            let ghost dist_snap = dist@;
            let mut z: usize = 0;
            while z < wd.len()
                invariant
                    dp_inv(val@, dist@, pred@, i as int),
                    z <= wd@.len(),
                    forall|j: int| 0 <= j <= n ==> (#[trigger] dist@[j]) <= dist_snap[j],
                    forall|j: int| 0 <= j <= i ==> (#[trigger] dist@[j]) == dist_snap[j],
                    (exists|z2: int| 0 <= z2 < z && (#[trigger] wd@[z2]) is None) ==> (dist@[
                        i as int] != usize::MAX && dist@[i as int] as int + spec_block_cost(
                        val@,
                        i as int,
                        n as int,
                    ) < usize::MAX ==> dist@[n as int] != usize::MAX && dist@[n as int] as int
                        <= dist@[i as int] as int + spec_block_cost(val@, i as int, n as int)),
                    dist@[n as int] <= dist_snap[n as int],
                decreases wd@.len() - z,
            {
                let entry = wd[z];
                proof {
                    assert(windows@.contains(entry));
                }
                let j: usize = match entry {
                    Some(ww) => {
                        proof {
                            let hh = choose|hh: int|
                                0 <= hh < windows@.len() && windows@[hh] == entry;
                        }
                        ww - 1
                    },
                    None => n,
                };
                let c = self.cost(val, i, j);
                let di = dist[i];
                let d = if di > usize::MAX - c {
                    usize::MAX
                } else {
                    di + c
                };
                if d < dist[j] {
                    dist.set(j, d);
                    pred.set(j, i);
                }
                z = z + 1;
            }
            proof {
                assert(windows@[q1 as int] is None);
                assert(spec_dedup(windows@).last() == windows@.last());
                let zl = wd@.len() - 1;
                assert(wd@[zl] is None);
            }
    }

    /// Follow the predecessor chain back from the end of the table, turning
    /// it into boundary values whose cost is exactly the recorded total.
    #[verifier::loop_isolation(false)]
    #[verifier::rlimit(100)]
    #[verifier::spinoff_prover]
    fn reconstruct(&self, val: &Vec<u64>, dist: &Vec<usize>, pred: &Vec<usize>) -> (r: (
        Vec<u64>,
        usize,
    ))
        requires
            self.wf(),
            sorted_strict(val@),
            fits(val@),
            dp_inv(val@, dist@, pred@, val@.len() as int),
            dist@[val@.len() as int] != usize::MAX,
        ensures
            valid_points(val@, r.0@),
            r.0@[0] == val@[0],
            r.1 == dist@[val@.len() as int],
            r.1 as int == spec_cost_with_partition(val@, r.0@),
    {
        let n = val.len();
        // walk the predecessor links back from the end
        let ghost mut starts: Seq<int> = Seq::empty();
        let mut rev_points: Vec<u64> = Vec::new();
        let mut idx: usize = n;
        while idx > 0
            invariant
                idx <= n,
                dist@[idx as int] != usize::MAX,
                starts.len() == rev_points@.len(),
                starts.len() == 0 ==> idx == n,
                starts.len() > 0 ==> starts[0] == idx as int && starts.last() < n,
                forall|t1: int, t2: int|
                    0 <= t1 < t2 < starts.len() ==> #[trigger] starts[t1] < #[trigger] starts[t2],
                forall|t2: int| 0 <= t2 < starts.len() ==> 0 <= #[trigger] starts[t2] < n,
                forall|t2: int|
                    0 <= t2 < starts.len() ==> (#[trigger] rev_points@[t2]) == val@[starts[starts.len()
                        - 1 - t2]],
                chain_cost(val@, starts, 0) == dist@[n as int] as int - dist@[idx as int] as int,
            decreases idx,
        {
            let p = pred[idx];
            proof {
                assert(dist@[idx as int] != usize::MAX && 1 <= idx as int <= n);
                lemma_chain_prepend(val@, starts, p as int, 0);
                if starts.len() == 0 {
                    assert(idx == n);
                } else {
                    assert((seq![p as int] + starts)[1] == starts[0]);
                }
            }
            rev_points.push(val[p]);
            proof {
                starts = seq![p as int] + starts;
            }
            idx = p;
        }
        proof {
            assert(starts.len() >= 1 && starts[0] == 0);
            assert(chain_cost(val@, starts, 0) == dist@[n as int] as int);
        }
        let m2 = rev_points.len();
        let mut points: Vec<u64> = Vec::new();
        let mut t2: usize = m2;
        while t2 > 0
            invariant
                t2 <= m2,
                m2 == rev_points@.len(),
                points@.len() == m2 - t2,
                forall|k: int|
                    0 <= k < points@.len() ==> (#[trigger] points@[k]) == rev_points@[m2 - 1 - k],
            decreases t2,
        {
            t2 = t2 - 1;
            points.push(rev_points[t2]);
        }
        proof {
            assert forall|k: int| 0 <= k < points@.len() implies (#[trigger] points@[k]) == val@[
            starts[k]] by {
                assert(points@[k] == rev_points@[m2 - 1 - k]);
                assert(rev_points@[m2 - 1 - k] == val@[starts[starts.len() - 1 - (m2 - 1 - k)]]);
            }
            assert forall|k: int| 0 <= k < points@.len() implies val@.contains(
                #[trigger] points@[k],
            ) by {
                assert(val@[starts[k]] == points@[k]);
            }
            assert(sorted_strict(points@));
            assert(bounds_of(val@, points@) =~= starts) by {
                assert forall|k: int| 0 <= k < points@.len() implies bounds_of(val@, points@)[k]
                    == starts[k] by {
                    lemma_idx_in(val@, starts[k]);
                }
            }
        }
        let total = dist[n];
        (points, total)
    }

    /// The total cost of `val` cut at the given points: blocks run from each
    /// point to the next, the last to the end of the sequence.
    pub fn cost_with_partition(&self, val: &Vec<u64>, partition: &Vec<u64>) -> (r: usize)
        requires
            self.wf(),
            sorted_strict(val@),
            fits(val@),
            valid_points(val@, partition@),
            spec_cost_with_partition(val@, partition@) <= usize::MAX,
        ensures
            r as int == spec_cost_with_partition(val@, partition@),
    {
        let ghost bs = bounds_of(val@, partition@);
        let n = val.len();
        let mut bounds: Vec<usize> = Vec::new();
        let mut k: usize = 0;
        while k < partition.len()
            invariant
                sorted_strict(val@),
                valid_points(val@, partition@),
                bs == bounds_of(val@, partition@),
                k <= partition@.len(),
                bounds@.len() == k,
                forall|t: int| 0 <= t < k ==> (#[trigger] bounds@[t]) as int == bs[t],
            decreases partition@.len() - k,
        {
            let b = find_index(val, partition[k]);
            proof {
                lemma_idx_in(val@, b as int);
            }
            bounds.push(b);
            k = k + 1;
        }
        proof {
            assert forall|t1: int, t2: int| 0 <= t1 < t2 < bs.len() implies #[trigger] bs[t1]
                < #[trigger] bs[t2] by {
                assert(val@[bounds@[t1] as int] == partition@[t1]);
                assert(val@[bounds@[t2] as int] == partition@[t2]);
                assert(partition@[t1] < partition@[t2]);
                if bs[t1] >= bs[t2] {
                    if bs[t1] > bs[t2] {
                        assert(val@[bs[t2]] < val@[bs[t1]]);
                    }
                    assert(false);
                }
            }
            assert forall|t: int| 0 <= t < bs.len() implies 0 <= #[trigger] bs[t]
                < val@.len() by {
                assert(bounds@[t] as int == bs[t]);
            }
            lemma_chain_cost_ge(val@, bs, 0);
        }
        let m = bounds.len();
        let mut acc: usize = 0;
        let mut k2: usize = 0;
        while k2 < m - 1
            invariant
                self.wf(),
                sorted_strict(val@),
                fits(val@),
                1 <= m == bounds@.len() == bs.len(),
                k2 <= m - 1,
                n == val@.len(),
                forall|t: int| 0 <= t < m ==> (#[trigger] bounds@[t]) as int == bs[t],
                forall|t1: int, t2: int|
                    0 <= t1 < t2 < bs.len() ==> #[trigger] bs[t1] < #[trigger] bs[t2],
                forall|t: int| 0 <= t < bs.len() ==> 0 <= #[trigger] bs[t] < val@.len(),
                acc + chain_cost(val@, bs, k2 as int) == chain_cost(val@, bs, 0),
                chain_cost(val@, bs, 0) <= usize::MAX,
                acc <= usize::MAX,
            decreases m - 1 - k2,
        {
            let c = self.cost(val, bounds[k2], bounds[k2 + 1]);
            proof {
                lemma_chain_cost_ge(val@, bs, k2 as int + 1);
            }
            acc = acc + c;
            k2 = k2 + 1;
        }
        proof {
            lemma_block_cost_ge(val@, bs[m - 1], val@.len() as int);
        }
        let c = self.cost(val, bounds[m - 1], n);
        acc + c
    }
}

/// The position of `x` in a strictly sorted vector that contains it, by
/// binary search.
fn find_index(val: &Vec<u64>, x: u64) -> (r: usize)
    requires
        sorted_strict(val@),
        val@.contains(x),
    ensures
        r < val@.len(),
        val@[r as int] == x,
{
    let mut lo: usize = 0;
    let mut hi: usize = val.len();
    proof {
        let w = choose|i: int| 0 <= i < val@.len() && val@[i] == x;
    }
    while lo + 1 < hi
        invariant
            sorted_strict(val@),
            lo < hi <= val@.len(),
            exists|i: int| lo <= i < hi && val@[i] == x,
        decreases hi - lo,
    {
        let mid = lo + (hi - lo) / 2;
        if val[mid] <= x {
            proof {
                let i = choose|i: int| lo <= i < hi && val@[i] == x;
                if i < mid {
                    assert(val@[i] < val@[mid as int]);
                }
            }
            lo = mid;
        } else {
            proof {
                let i = choose|i: int| lo <= i < hi && val@[i] == x;
                if i >= mid {
                    assert(val@[mid as int] <= val@[i]);
                }
            }
            hi = mid;
        }
    }
    proof {
        let i = choose|i: int| lo <= i < hi && val@[i] == x;
    }
    lo
}

} // verus!
