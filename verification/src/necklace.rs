//! Sliding-window necklace maintenance.
//!
//! `LexMinQueue` is a monotone double-ended queue reporting the positions of
//! all minima of a rolling window of the last `W` inserted values.
//! `NecklaceQueue` keeps an N-bit word rolling under shifts and uses a
//! `LexMinQueue` over rotation prefixes to locate the word's necklace.

use std::collections::VecDeque;
use vstd::arithmetic::div_mod::lemma_mod_division_less_than_divisor;
use vstd::arithmetic::div_mod::lemma_mod_multiples_vanish;
use vstd::prelude::*;

verus! {

/// The smallest value of a sequence (0 when empty).
pub open spec fn seq_min(w: Seq<u64>) -> u64
    decreases w.len(),
{
    if w.len() == 0 {
        0u64
    } else if w.len() == 1 {
        w[0]
    } else {
        let m = seq_min(w.drop_last());
        if w.last() < m {
            w.last()
        } else {
            m
        }
    }
}

/// Position `i` holds a value no larger than everything after it.
pub open spec fn is_suffix_min(w: Seq<u64>, i: int) -> bool {
    forall|j: int| i < j < w.len() ==> w[i] <= #[trigger] w[j]
}

/// One step of the rolling window: append `u`, dropping the oldest value
/// if the window already holds `cap` values.
pub open spec fn rolled(w: Seq<u64>, u: u64, cap: int) -> Seq<u64> {
    if w.len() == cap {
        w.skip(1).push(u)
    } else {
        w.push(u)
    }
}

/// `seq_min` is a lower bound.
proof fn lemma_seq_min_le(w: Seq<u64>, i: int)
    requires
        0 <= i < w.len(),
    ensures
        seq_min(w) <= w[i],
    decreases w.len(),
{
    if w.len() > 1 && i < w.len() - 1 {
        lemma_seq_min_le(w.drop_last(), i);
    }
}

/// `seq_min` is attained.
proof fn lemma_seq_min_attained(w: Seq<u64>)
    requires
        w.len() > 0,
    ensures
        exists|i: int| 0 <= i < w.len() && w[i] == seq_min(w),
    decreases w.len(),
{
    if w.len() == 1 {
        assert(w[0] == seq_min(w));
    } else {
        lemma_seq_min_attained(w.drop_last());
        if seq_min(w) == w.last() {
            assert(w[w.len() - 1] == seq_min(w));
        } else {
            let i = choose|i: int|
                0 <= i < w.drop_last().len() && w.drop_last()[i] == seq_min(w.drop_last());
            assert(w[i] == seq_min(w));
        }
    }
}

/// A monotone double-ended queue over a window of the last `W` inserted
/// values. It reports the window positions of every value tied with the
/// window minimum, oldest first.
pub struct LexMinQueue<const W: usize> {
    deq: VecDeque<(u64, usize)>,
    min_pos: VecDeque<usize>,
    pos: usize,
    win: Ghost<Seq<u64>>,
    base: Ghost<int>,
    dtimes: Ghost<Seq<int>>,
}

impl<const W: usize> LexMinQueue<W> {
    /// The values currently in the window, oldest first; at most `W` of them.
    pub closed spec fn window(self) -> Seq<u64> {
        self.win@
    }

    /// The queue's structural invariant. The deque holds, in insertion
    /// order, exactly the window positions whose value is no larger than
    /// everything after them; `min_pos` mirrors the deque's prefix of
    /// entries tied with the front, which are the window's minima.
    pub closed spec fn wf(self) -> bool {
        let w = self.win@;
        let b = self.base@;
        let ts = self.dtimes@;
        let l = w.len() as int;
        &&& 1 <= W <= 0x1000_0000
        &&& l <= W
        &&& self.pos < W
        &&& self.pos as int == (b + l) % (W as int)
        &&& ts.len() == self.deq@.len()
        &&& self.min_pos@.len() <= self.deq@.len()
        &&& (forall|k1: int, k2: int| 0 <= k1 < k2 < ts.len() ==> #[trigger] ts[k1] < #[trigger] ts[k2])
        &&& (forall|k: int| 0 <= k < ts.len() ==> b <= #[trigger] ts[k] < b + l)
        &&& (forall|k: int| 0 <= k < ts.len() ==> (#[trigger] self.deq@[k]).0 == w[ts[k] - b])
        &&& (forall|k: int|
            0 <= k < ts.len() ==> (#[trigger] self.deq@[k]).1 as int == ts[k] % (W as int))
        &&& (forall|i: int| 0 <= i < l ==> (#[trigger] ts.contains(b + i) <==> is_suffix_min(w, i)))
        &&& (forall|k: int|
            0 <= k < self.min_pos@.len() ==> (#[trigger] self.min_pos@[k]) == self.deq@[k].1
                && self.deq@[k].0 == self.deq@[0].0)
        &&& (self.min_pos@.len() == self.deq@.len() || (self.min_pos@.len() < self.deq@.len()
            && self.deq@[self.min_pos@.len() as int].0 != self.deq@[0].0))
    }

    /// Deque values never decrease from front to back.
    proof fn lemma_deq_monotone(self, k1: int, k2: int)
        requires
            self.wf(),
            0 <= k1 <= k2 < self.deq@.len(),
        ensures
            self.deq@[k1].0 <= self.deq@[k2].0,
    {
        if k1 < k2 {
            let t1 = self.dtimes@[k1];
            let t2 = self.dtimes@[k2];
            assert(self.dtimes@.contains(self.base@ + (t1 - self.base@)));
            assert(is_suffix_min(self.win@, t1 - self.base@));
        }
    }

    /// The deque is nonempty whenever the window is, and its front holds the
    /// window minimum.
    proof fn lemma_front_min(self)
        requires
            self.wf(),
            self.win@.len() > 0,
        ensures
            self.deq@.len() > 0,
            self.deq@[0].0 == seq_min(self.win@),
    {
        let w = self.win@;
        let b = self.base@;
        let ts = self.dtimes@;
        let l = w.len() as int;
        assert(is_suffix_min(w, l - 1));
        assert(ts.contains(b + (l - 1)));
        lemma_seq_min_attained(w);
        let im = choose|i: int| 0 <= i < l && w[i] == seq_min(w);
        assert forall|j: int| im < j < l implies w[im] <= #[trigger] w[j] by {
            lemma_seq_min_le(w, j);
        }
        assert(ts.contains(b + im));
        let km = choose|k: int| 0 <= k < ts.len() && ts[k] == b + im;
        self.lemma_deq_monotone(0, km);
        lemma_seq_min_le(w, ts[0] - b);
    }

    /// A fresh, empty queue.
    pub fn new() -> (r: Self)
        requires
            1 <= W <= 0x1000_0000,
        ensures
            r.wf(),
            r.window() == Seq::<u64>::empty(),
    {
        let r = LexMinQueue {
            deq: VecDeque::with_capacity(W),
            min_pos: VecDeque::with_capacity(W),
            pos: 0,
            win: Ghost(Seq::empty()),
            base: Ghost(0int),
            dtimes: Ghost(Seq::empty()),
        };
        proof {
            lemma_mod_multiples_vanish(0, 0, W as int);
        }
        r
    }

    /// The window positions, measured from the window's left end and
    /// right-aligned at `W`, of every value tied with the window minimum,
    /// in ascending order. Position `W - 1` is the newest value.
    pub fn iter_min_pos(&self) -> (r: Vec<usize>)
        requires
            self.wf(),
        ensures
            forall|j1: int, j2: int| 0 <= j1 < j2 < r@.len() ==> #[trigger] r@[j1] < #[trigger] r@[j2],
            forall|j: int|
                0 <= j < r@.len() ==> W - self.window().len() <= #[trigger] r@[j] < W && self.window()[
                    r@[j] - (W - self.window().len())
                ] == seq_min(self.window()),
            forall|i: int|
                0 <= i < self.window().len() && #[trigger] self.window()[i] == seq_min(
                    self.window(),
                ) ==> exists|j: int|
                    0 <= j < r@.len() && #[trigger] r@[j] as int == W - self.window().len() + i,
    {
        let ghost w = self.win@;
        let ghost b = self.base@;
        let ghost ts = self.dtimes@;
        let ghost l = w.len() as int;
        let mut r: Vec<usize> = Vec::new();
        let mut j: usize = 0;
        let n = self.min_pos.len();
        while j < n
            invariant
                self.wf(),
                w == self.win@,
                b == self.base@,
                ts == self.dtimes@,
                l == w.len() as int,
                n == self.min_pos@.len(),
                j <= n,
                r@.len() == j,
                forall|jj: int|
                    0 <= jj < j ==> (#[trigger] r@[jj]) as int == W - l + (ts[jj] - b),
            decreases n - j,
        {
            let p = self.min_pos[j];
            proof {
                assert(self.min_pos@[j as int] == self.deq@[j as int].1);
                assert(self.deq@[j as int].1 as int == ts[j as int] % (W as int));
                lemma_rel_pos(ts[j as int], b, l, W as int);
            }
            r.push((p + W - self.pos) % W);
            j = j + 1;
        }
        proof {
            if l > 0 {
                self.lemma_front_min();
            }
            assert forall|j1: int, j2: int| 0 <= j1 < j2 < r@.len() implies #[trigger] r@[j1] < #[trigger] r@[j2] by {}
            assert forall|jj: int| 0 <= jj < r@.len() implies W - l <= #[trigger] r@[jj] < W
                && w[r@[jj] as int - (W - l)] == seq_min(w) by {
                assert(self.min_pos@[jj] == self.deq@[jj].1);
                assert(self.deq@[jj].0 == self.deq@[0].0);
                assert(self.deq@[jj].0 == w[ts[jj] - b]);
            }
            assert forall|i: int|
                0 <= i < l && #[trigger] w[i] == seq_min(w) implies exists|j: int|
                0 <= j < r@.len() && #[trigger] r@[j] as int == W - l + i by {
                assert forall|j2: int| i < j2 < l implies w[i] <= #[trigger] w[j2] by {
                    lemma_seq_min_le(w, j2);
                }
                assert(ts.contains(b + i));
                let k = choose|k: int| 0 <= k < ts.len() && ts[k] == b + i;
                self.lemma_deq_monotone(0, k);
                lemma_seq_min_le(w, ts[0] - b);
                assert(self.deq@[k].0 == self.deq@[0].0);
                if k >= self.min_pos@.len() {
                    let boundary = self.min_pos@.len() as int;
                    self.lemma_deq_monotone(0, boundary);
                    self.lemma_deq_monotone(boundary, k);
                    assert(false);
                }
                assert(r@[k] as int == W - l + i);
            }
        }
        r
    }

    /// Advance the window by one position, taking `u` in and letting the
    /// oldest value fall out once the window is full.
    #[verifier::loop_isolation(false)]
    #[verifier::rlimit(100)]
    #[verifier::spinoff_prover]
    pub fn insert(&mut self, u: u64)
        requires
            old(self).wf(),
        ensures
            final(self).wf(),
            final(self).window() == rolled(old(self).window(), u, W as int),
    {
        let ghost w0 = self.win@;
        let ghost b0 = self.base@;
        let ghost ts0 = self.dtimes@;
        let ghost l0 = w0.len() as int;
        let ghost tnew = b0 + l0;
        let ghost w1: Seq<u64> = if l0 == W {
            w0.skip(1).push(u)
        } else {
            w0.push(u)
        };
        let ghost b1: int = if l0 == W {
            b0 + 1
        } else {
            b0
        };
        // an entry inserted exactly W steps ago now falls out of the window;
        // its stored position is the one about to be reused
        if self.deq.len() > 0 && self.deq[0].1 == self.pos {
            proof {
                assert(ts0[0] % (W as int) == (b0 + l0) % (W as int));
                lemma_mod_eq_gap(ts0[0], tnew, W as int);
                assert(ts0[0] == tnew - W && l0 == W);
            }
            let _front = self.deq.pop_front();
            let _front_pos = self.min_pos.pop_front();
            proof {
                self.dtimes@ = ts0.skip(1);
            }
        } else {
            proof {
                if self.deq@.len() > 0 {
                    lemma_mod_multiples_vanish(-1, tnew, W as int);
                    assert(ts0[0] % (W as int) == self.deq@[0].1 as int);
                    if ts0[0] == tnew - W {
                        assert(ts0[0] % (W as int) == (b0 + l0) % (W as int));
                        assert(false);
                    }
                }
            }
        }
        let ghost ts_a = self.dtimes@;
        let ghost mp_a = self.min_pos@;
        proof {
            // surviving entries never date from before the new window start
            assert forall|k: int| 0 <= k < ts_a.len() implies b1 <= #[trigger] ts_a[k]
                < tnew by {
                if l0 == W {
                    if ts_a == ts0 {
                        assert(ts0[0] != tnew - W);
                        if ts0[k] == b0 {
                            assert(k == 0) by {
                                if k > 0 {
                                    assert(ts0[0] < ts0[k]);
                                }
                            }
                        }
                    } else {
                        assert(ts_a[k] == ts0[k + 1]);
                        assert(ts0[0] < ts0[k + 1]);
                    }
                }
            }
            // the kept prefix of min_pos still mirrors the kept deque prefix
            assert forall|k: int| 0 <= k < mp_a.len() implies (#[trigger] mp_a[k])
                == self.deq@[k].1 && self.deq@[k].0 == self.deq@[0].0 by {
                if mp_a != old(self).min_pos@ {
                    assert(old(self).min_pos@[k + 1] == old(self).deq@[k + 1].1);
                    assert(old(self).deq@[k + 1].0 == old(self).deq@[0].0);
                    assert(old(self).min_pos@[1] == old(self).deq@[1].1);
                    assert(old(self).deq@[1].0 == old(self).deq@[0].0);
                    assert(mp_a[k] == old(self).min_pos@[k + 1]);
                    assert(self.deq@[k] == old(self).deq@[k + 1]);
                    assert(self.deq@[0] == old(self).deq@[1]);
                } else {
                    assert(mp_a[k] == old(self).min_pos@[k]);
                }
            }
        }
        let ghost dq_a = self.deq@;
        // drop every tracked value that the new one supersedes
        let mut i = self.deq.len();
        while i > 0 && self.deq[i - 1].0 > u
            invariant
                i <= self.deq@.len(),
                forall|k: int| i <= k < self.deq@.len() ==> (#[trigger] self.deq@[k]).0 > u,
            decreases i,
        {
            i = i - 1;
        }
        let di = i;
        self.deq.truncate(di);
        self.min_pos.truncate(di);
        self.deq.push_back((u, self.pos));
        proof {
            self.dtimes@ = ts_a.take(di as int).push(tnew);
            self.win@ = w1;
            self.base@ = b1;
        }
        let ghost dq1 = self.deq@;
        let ghost ts1 = self.dtimes@;
        proof {
            if di > 0 {
                assert(self.deq@[0] == dq_a[0]);
                assert forall|k: int| 0 <= k < self.min_pos@.len() implies (
                #[trigger] self.min_pos@[k]) == self.deq@[k].1 && self.deq@[k].0
                    == self.deq@[0].0 by {
                    assert(self.min_pos@[k] == mp_a[k]);
                    assert(mp_a[k] == dq_a[k].1 && dq_a[k].0 == dq_a[0].0);
                    assert(self.deq@[k] == dq_a[k]);
                }
            } else {
                assert(self.min_pos@.len() == 0);
            }
        }
        // extend min_pos over the deque prefix tied with the front
        while self.min_pos.len() < self.deq.len() && self.deq[self.min_pos.len()].0
            == self.deq[0].0
            invariant
                self.deq@ == dq1,
                self.win@ == w1,
                self.base@ == b1,
                self.dtimes@ == ts1,
                self.pos == old(self).pos,
                self.min_pos@.len() <= self.deq@.len(),
                forall|k: int|
                    0 <= k < self.min_pos@.len() ==> (#[trigger] self.min_pos@[k])
                        == self.deq@[k].1 && self.deq@[k].0 == self.deq@[0].0,
            decreases self.deq@.len() - self.min_pos@.len(),
        {
            let mlen = self.min_pos.len();
            let p = self.deq[mlen].1;
            let ghost mp_old = self.min_pos@;
            self.min_pos.push_back(p);
            proof {
                assert forall|k: int| 0 <= k < self.min_pos@.len() implies (
                #[trigger] self.min_pos@[k]) == self.deq@[k].1 && self.deq@[k].0
                    == self.deq@[0].0 by {
                    if k < mp_old.len() {
                        assert(self.min_pos@[k] == mp_old[k]);
                    } else {
                        assert(self.min_pos@[k] == p);
                    }
                }
            }
        }
        let ghost mp1 = self.min_pos@;
        proof {
            assert(forall|k: int|
                0 <= k < mp1.len() ==> (#[trigger] mp1[k]) == dq1[k].1 && dq1[k].0 == dq1[0].0);
            assert(mp1.len() == dq1.len() || dq1[mp1.len() as int].0 != dq1[0].0);
        }
        self.pos = (self.pos + 1) % W;
        proof {
            assert(self.min_pos@ == mp1 && self.deq@ == dq1);
            let off = old(self).deq@.len() - ts_a.len();
            assert(forall|k: int| di <= k < dq_a.len() ==> (#[trigger] dq_a[k]).0 > u);
            assert forall|k: int| 0 <= k < ts_a.len() implies dq_a[k] == old(self).deq@[off
                + k] && ts_a[k] == old(self).dtimes@[off + k] by {}
            assert forall|k: int| di <= k < ts_a.len() implies w0[(#[trigger] ts_a[k]) - b0]
                > u by {
                assert(dq_a[k].0 > u);
                assert(old(self).deq@[off + k].0 == w0[old(self).dtimes@[off + k] - b0]);
            }
            if di > 0 {
                assert(dq_a[di - 1].0 <= u);
                assert(w0[ts_a[di - 1] - b0] <= u);
            }
            assert forall|k: int| 0 <= k < di implies (#[trigger] self.deq@[k]) == old(
                self,
            ).deq@[off + k] by {
                assert(self.deq@[k] == dq_a[k]);
            }
            assert(dq_a.len() == ts_a.len());
            assert(di <= ts_a.len());
            assert(self.deq@.len() == di + 1);
            assert(self.deq@[di as int].0 == u && self.deq@[di as int].1 == old(self).pos);
            assert(self.dtimes@ == ts_a.take(di as int).push(tnew));
            assert(self.win@ == w1 && self.base@ == b1);
            assert(self.min_pos@.len() <= self.deq@.len());
            assert(self.min_pos@.len() == self.deq@.len() || self.deq@[self.min_pos@.len() as int].0
                != self.deq@[0].0);
            assert(self.pos as int == ((old(self).pos + 1) as int) % (W as int));
            assert(ts_a == ts0 || (ts0.len() > 0 && ts0[0] == tnew - W && l0 == W && ts_a
                == ts0.skip(1)));
            assert(ts_a == ts0 ==> (ts0.len() == 0 || ts0[0] != tnew - W));
            assert forall|k: int| 0 <= k < self.min_pos@.len() implies (
            #[trigger] self.min_pos@[k]) == self.deq@[k].1 && self.deq@[k].0
                == self.deq@[0].0 by {
                assert(self.min_pos@[k] == mp1[k]);
                assert(mp1[k] == dq1[k].1 && dq1[k].0 == dq1[0].0);
            }
            self.lemma_insert_restores(*old(self), u, ts_a, di as int);
        }
    }

    /// The window state after `insert`'s structural surgery satisfies the
    /// queue invariant again.
    #[verifier::rlimit(100)]
    #[verifier::spinoff_prover]
    proof fn lemma_insert_restores(&self, prev: Self, u: u64, ts_a: Seq<int>, di: int)
        requires
            prev.wf(),
            self.win@ == if prev.win@.len() == W {
                prev.win@.skip(1).push(u)
            } else {
                prev.win@.push(u)
            },
            self.base@ == if prev.win@.len() == W {
                prev.base@ + 1
            } else {
                prev.base@
            },
            ts_a == prev.dtimes@ || (prev.dtimes@.len() > 0 && prev.dtimes@[0] == prev.base@
                + prev.win@.len() - W && prev.win@.len() == W && ts_a == prev.dtimes@.skip(1)),
            ts_a == prev.dtimes@ ==> (prev.dtimes@.len() == 0 || prev.dtimes@[0] != prev.base@
                + prev.win@.len() - W),
            0 <= di <= ts_a.len(),
            forall|k: int| di <= k < ts_a.len() ==> prev.win@[(#[trigger] ts_a[k]) - prev.base@] > u,
            di > 0 ==> prev.win@[ts_a[di - 1] - prev.base@] <= u,
            self.dtimes@ == ts_a.take(di).push(prev.base@ + prev.win@.len()),
            self.deq@.len() == di + 1,
            forall|k: int|
                0 <= k < di ==> (#[trigger] self.deq@[k]) == prev.deq@[prev.deq@.len()
                    - ts_a.len() + k],
            self.deq@[di].0 == u,
            self.deq@[di].1 == prev.pos,
            self.min_pos@.len() <= self.deq@.len(),
            forall|k: int|
                0 <= k < self.min_pos@.len() ==> (#[trigger] self.min_pos@[k]) == self.deq@[k].1
                    && self.deq@[k].0 == self.deq@[0].0,
            self.min_pos@.len() == self.deq@.len() || self.deq@[self.min_pos@.len() as int].0
                != self.deq@[0].0,
            self.pos as int == ((prev.pos + 1) as int) % (W as int),
        ensures
            self.wf(),
    {
        let w0 = prev.win@;
        let b0 = prev.base@;
        let ts0 = prev.dtimes@;
        let l0 = w0.len() as int;
        let tnew = b0 + l0;
        let w1 = self.win@;
        let b1 = self.base@;
        let ts1 = self.dtimes@;
        let l1 = w1.len() as int;
        let off = prev.deq@.len() - ts_a.len();
        assert(b1 + l1 == tnew + 1);
        assert(prev.pos as int == tnew % (W as int));
        lemma_mod_succ(tnew, W as int);
        assert(self.pos as int == (b1 + l1) % (W as int));
        lemma_mod_division_less_than_divisor(tnew + 1, W as int);
        // times of surviving entries, their values and positions
        assert forall|k: int| 0 <= k < ts_a.len() implies b1 <= #[trigger] ts_a[k] < tnew
            && ts_a[k] == ts0[off + k] by {
            if ts_a != ts0 {
                assert(ts_a[k] == ts0[k + 1]);
                assert(ts0[0] < ts0[k + 1]);
            } else {
                if l0 == W && ts0[k] == b0 {
                    if k > 0 {
                        assert(ts0[0] < ts0[k]);
                    }
                    assert(false);
                }
            }
        }
        // window values carried over: w1 at t - b1 equals w0 at t - b0
        assert forall|t: int| b1 <= t < tnew implies #[trigger] w1[t - b1] == w0[t - b0] by {}
        assert(w1[tnew - b1] == u);
        // invariant: times strictly increase
        assert forall|k1: int, k2: int| 0 <= k1 < k2 < ts1.len() implies #[trigger] ts1[k1]
            < #[trigger] ts1[k2] by {
            if k2 < di {
                assert(ts1[k1] == ts_a[k1] && ts1[k2] == ts_a[k2]);
                assert(ts0[off + k1] < ts0[off + k2]);
            } else {
                assert(ts1[k2] == tnew);
                assert(ts1[k1] == ts_a[k1]);
            }
        }
        // invariant: times lie in the window
        assert forall|k: int| 0 <= k < ts1.len() implies b1 <= #[trigger] ts1[k] < b1
            + l1 by {
            if k < di {
                assert(ts1[k] == ts_a[k]);
            } else {
                assert(ts1[k] == tnew);
            }
        }
        // invariant: deque entries carry their window value and position
        assert forall|k: int| 0 <= k < ts1.len() implies (#[trigger] self.deq@[k]).0 == w1[ts1[k]
            - b1] && self.deq@[k].1 as int == ts1[k] % (W as int) by {
            if k < di {
                assert(self.deq@[k] == prev.deq@[off + k]);
                assert(ts1[k] == ts_a[k] && ts_a[k] == ts0[off + k]);
                assert(prev.deq@[off + k].0 == w0[ts0[off + k] - b0]);
                assert(prev.deq@[off + k].1 as int == ts0[off + k] % (W as int));
            } else {
                assert(ts1[k] == tnew);
                assert(self.deq@[k].1 == prev.pos);
            }
        }
        // invariant: tracked times are exactly the suffix-minima
        assert forall|i: int| 0 <= i < l1 implies (#[trigger] ts1.contains(b1 + i)
            <==> is_suffix_min(w1, i)) by {
            let t = b1 + i;
            if i == l1 - 1 {
                assert(ts1[di] == tnew);
                assert(ts1.contains(b1 + i));
                assert(is_suffix_min(w1, i));
            } else {
                let i0 = t - b0;
                assert(0 <= i0 < l0);
                if ts1.contains(t) {
                    let k = choose|k: int| 0 <= k < ts1.len() && ts1[k] == t;
                    assert(k < di);
                    assert(ts_a[k] == t && ts_a[k] == ts0[off + k]);
                    assert(ts0.contains(b0 + i0));
                    assert(is_suffix_min(w0, i0));
                    // the kept value is at most u: compare with the last
                    // kept entry, which the pop loop checked against u
                    assert(w0[t - b0] <= u) by {
                        assert(ts_a[di - 1] == ts0[off + di - 1]);
                        if k < di - 1 {
                            assert(ts0.contains(b0 + (ts0[off + k] - b0)));
                            assert(is_suffix_min(w0, ts0[off + k] - b0));
                            assert(w0[ts0[off + k] - b0] <= w0[ts0[off + di - 1] - b0]);
                        }
                    }
                    assert forall|j: int| i < j < l1 implies w1[i] <= #[trigger] w1[j] by {
                        if j < l1 - 1 {
                            assert(w1[j] == w0[(b1 + j) - b0]);
                            assert(w0[i0] <= w0[(b1 + j) - b0]);
                        } else {
                            assert(w1[j] == u);
                        }
                    }
                } else {
                    if is_suffix_min(w1, i) {
                        assert forall|j0: int| i0 < j0 < l0 implies w0[i0] <= #[trigger] w0[j0] by {
                            if b0 + j0 >= b1 {
                                assert(w0[j0] == w1[(b0 + j0) - b1]);
                                assert(w1[i] <= w1[(b0 + j0) - b1]);
                            } else {
                                assert(false);
                            }
                        }
                        assert(ts0.contains(b0 + i0));
                        let k0 = choose|k0: int| 0 <= k0 < ts0.len() && ts0[k0] == b0 + i0;
                        assert(w1[i] <= w1[l1 - 1]);
                        assert(w0[i0] <= u);
                        // the entry survived eviction
                        assert(k0 >= off) by {
                            if off == 1 && k0 == 0 {
                                assert(ts0[0] == tnew - W);
                                assert(t >= b1);
                            }
                        }
                        // and survived the value pops
                        let ka = k0 - off;
                        assert(ts_a[ka] == t);
                        assert(ka < di) by {
                            if ka >= di {
                                assert(w0[ts_a[ka] - b0] > u);
                            }
                        }
                        assert(ts1[ka] == t);
                        assert(ts1.contains(b1 + i));
                        assert(false);
                    }
                }
            }
        }
        // invariant: min_pos maximality came from the refill loop's exit
        assert(self.min_pos@.len() == self.deq@.len() || (self.min_pos@.len() < self.deq@.len()
            && self.deq@[self.min_pos@.len() as int].0 != self.deq@[0].0));
    }

    /// Advance the window by two positions, taking `u` then `v` in.
    pub fn insert2(&mut self, u: u64, v: u64)
        requires
            old(self).wf(),
        ensures
            final(self).wf(),
            final(self).window() == rolled(rolled(old(self).window(), u, W as int), v, W as int),
    {
        self.insert(u);
        self.insert(v);
    }

    /// Reset the queue and load a full window of `W` values.
    pub fn insert_full(&mut self, vals: &Vec<u64>)
        requires
            old(self).wf(),
            vals@.len() == W,
        ensures
            final(self).wf(),
            final(self).window() == vals@,
    {
        self.deq.clear();
        self.min_pos.clear();
        proof {
            self.win@ = Seq::<u64>::empty();
            self.base@ = self.pos as int;
            self.dtimes@ = Seq::<int>::empty();
            vstd::arithmetic::div_mod::lemma_small_mod(self.pos as nat, W as nat);
        }
        let mut j: usize = 0;
        proof {
            assert(vals@.take(0) =~= Seq::<u64>::empty());
        }
        while j < vals.len()
            invariant
                self.wf(),
                vals@.len() == W,
                j <= vals@.len(),
                self.window() == vals@.take(j as int),
            decreases vals@.len() - j,
        {
            let x = vals[j];
            self.insert(x);
            proof {
                assert(vals@.take(j as int + 1) =~= vals@.take(j as int).push(x));
            }
            j = j + 1;
        }
        proof {
            assert(vals@.take(vals@.len() as int) =~= vals@);
        }
    }
}

/// One cyclic left-rotation of the `n`-bit word `x` by `p` positions.
pub open spec fn rot_left(x: u64, n: u64, p: u64) -> u64 {
    ((x << p) & ((1u64 << n) - 1) as u64) | (x >> (n - p) as u64)
}

/// The high `m` bits of the left-rotation by `p` are a plain shifted slice
/// of the word whenever the slice does not wrap.
#[verifier::rlimit(100)]
proof fn lemma_rot_prefix(x: u64, n: u64, m: u64, p: u64)
    by (bit_vector)
    requires
        2 <= n <= 63,
        1 <= m <= n,
        x < (1u64 << n),
        p + m <= n,
    ensures
        (rot_left(x, n, p) >> (n - m) as u64) == ((x >> (n - p - m) as u64) & ((1u64 << m)
            - 1) as u64),
        rot_left(x, n, p) < (1u64 << n),
{
}

/// After shifting one bit in at the bottom of an `n`-bit word, every `m`-bit
/// slice that stays below the mask moves up one position.
proof fn lemma_shift1_prefix(x: u64, b: u64, n: u64, m: u64, s: u64)
    by (bit_vector)
    requires
        2 <= n <= 63,
        1 <= m <= n,
        b <= 1,
        s + 1 + m <= n,
    ensures
        (((((x << 1u64) & ((1u64 << n) - 1) as u64) | b) >> (s + 1) as u64) & ((1u64 << m)
            - 1) as u64) == ((x >> s) & ((1u64 << m) - 1) as u64),
{
}

/// Comparing high bits decides the comparison of the whole words.
proof fn lemma_shift_lt(a: u64, b: u64, s: u64)
    by (bit_vector)
    requires
        s < 64,
        (a >> s) < (b >> s),
    ensures
        a < b,
{
}

/// Two numbers with the same residue and a gap in `(0, m]` differ exactly
/// by `m`.
proof fn lemma_mod_eq_gap(a: int, b: int, m: int)
    requires
        m > 0,
        a % m == b % m,
        0 < b - a <= m,
    ensures
        b - a == m,
{
    vstd::arithmetic::div_mod::lemma_fundamental_div_mod(a, m);
    vstd::arithmetic::div_mod::lemma_fundamental_div_mod(b, m);
    let qa = a / m;
    let qb = b / m;
    assert(b - a == m * (qb - qa)) by {
        vstd::arithmetic::mul::lemma_mul_is_distributive_sub(m, qb, qa);
    }
    assert(qb - qa == 1) by (nonlinear_arith)
        requires
            m > 0,
            0 < m * (qb - qa) <= m,
    ;
}

/// Adding one commutes with taking residues.
proof fn lemma_mod_succ(t: int, m: int)
    requires
        m > 0,
    ensures
        ((t % m) + 1) % m == (t + 1) % m,
{
    vstd::arithmetic::div_mod::lemma_fundamental_div_mod(t, m);
    let q = t / m;
    let r = t % m;
    lemma_mod_division_less_than_divisor(t, m);
    assert(t + 1 == m * q + (r + 1));
    if r + 1 < m {
        lemma_mod_multiples_vanish(q, r + 1, m);
        vstd::arithmetic::div_mod::lemma_small_mod((r + 1) as nat, m as nat);
        lemma_mod_multiples_vanish(0, r + 1, m);
    } else {
        assert(t + 1 == m * (q + 1) + 0) by {
            vstd::arithmetic::mul::lemma_mul_is_distributive_add(m, q, 1);
        }
        lemma_mod_multiples_vanish(q + 1, 0, m);
        lemma_mod_multiples_vanish(1, 0, m);
        vstd::arithmetic::div_mod::lemma_small_mod(0nat, m as nat);
    }
}

/// Window-relative position of time `t`: with the window of length `l`
/// ending just before time `b + l`, stored position `t % m` maps to
/// `m - l + (t - b)` from the window's left edge right-aligned at `m`.
proof fn lemma_rel_pos(t: int, b: int, l: int, m: int)
    requires
        m > 0,
        0 <= l <= m,
        b <= t < b + l,
    ensures
        ((t % m) + m - ((b + l) % m)) % m == m - l + (t - b),
{
    let a = b + l - t;
    let x = (b + l) % m;
    lemma_mod_division_less_than_divisor(b + l, m);
    lemma_mod_division_less_than_divisor(t, m);
    // t and (b + l) - a agree, so t % m is (x - a) shifted into [0, m)
    assert((b + l) == m * ((b + l) / m) + x) by {
        vstd::arithmetic::div_mod::lemma_fundamental_div_mod(b + l, m);
    }
    let q = (b + l) / m;
    assert(t == m * q + (x - a));
    if x - a >= 0 {
        lemma_mod_multiples_vanish(q, x - a, m);
        vstd::arithmetic::div_mod::lemma_small_mod((x - a) as nat, m as nat);
        assert(t % m == x - a);
        lemma_mod_multiples_vanish(1, x - a + m - x, m);
        vstd::arithmetic::div_mod::lemma_small_mod((m - a) as nat, m as nat);
    } else {
        vstd::arithmetic::mul::lemma_mul_is_distributive_sub(m, q, 1);
        assert(t == m * (q - 1) + (x - a + m));
        lemma_mod_multiples_vanish(q - 1, x - a + m, m);
        vstd::arithmetic::div_mod::lemma_small_mod((x - a + m) as nat, m as nat);
        assert(t % m == x - a + m);
        lemma_mod_multiples_vanish(1, x - a + m - x, m);
        vstd::arithmetic::div_mod::lemma_small_mod((m - a) as nat, m as nat);
    }
}

/// Maintains the necklace of a rolling N-bit word. A `LexMinQueue` tracks,
/// for the `W` youngest rotation start positions, the M-bit prefix of each
/// rotation (M = N - W + 1); a query combines its co-minima with a direct
/// scan of the remaining positions.
pub struct NecklaceQueue<const N: usize, const W: usize> {
    word: u64,
    min_queue: LexMinQueue<W>,
}

impl<const N: usize, const W: usize> NecklaceQueue<N, W> {
    /// The current N-bit word.
    pub closed spec fn spec_word(self) -> u64 {
        self.word
    }

    /// How many rotation prefixes the queue currently tracks.
    pub closed spec fn spec_fill(self) -> int {
        self.min_queue.window().len() as int
    }

    /// Valid size parameters: the word fits a u64 and the prefix length
    /// M = N - W + 1 is at least 2.
    pub open spec fn valid_shape() -> bool {
        2 <= N <= 63 && 1 <= W < N
    }

    /// Structural invariant: the word is masked to N bits and the tracked
    /// window holds exactly the M-bit prefixes of the youngest rotations,
    /// newest last.
    pub closed spec fn wf(self) -> bool {
        let l = self.min_queue.window().len() as int;
        &&& Self::valid_shape()
        &&& self.word < (1u64 << N as u64)
        &&& self.min_queue.wf()
        &&& l <= W
        &&& forall|i: int|
            0 <= i < l ==> (#[trigger] self.min_queue.window()[i]) == ((self.word >> (l - 1
                - i) as u64) & ((1u64 << (N - W + 1) as u64) - 1) as u64)
    }

    /// A queue with an all-zero word and nothing tracked yet.
    pub fn new() -> (r: Self)
        requires
            Self::valid_shape(),
        ensures
            r.wf(),
            r.spec_word() == 0,
            r.spec_fill() == 0,
    {
        let r = NecklaceQueue { word: 0, min_queue: LexMinQueue::new() };
        proof {
            let nn = N as u64;
            assert(0u64 < (1u64 << nn)) by (bit_vector)
                requires
                    2 <= nn <= 63,
            ;
        }
        r
    }

    /// A queue loaded with `word`, ready for queries.
    pub fn new_from_word(word: u64) -> (r: Self)
        requires
            Self::valid_shape(),
        ensures
            r.wf(),
            r.spec_word() == (word & ((1u64 << N as u64) - 1) as u64),
            r.spec_fill() == W,
    {
        let mut res = Self::new();
        res.insert_full(word);
        res
    }

    /// Load `word`, masked to N bits, and track the prefixes of its `W`
    /// youngest rotations.
    pub fn insert_full(&mut self, word: u64)
        requires
            old(self).wf(),
        ensures
            final(self).wf(),
            final(self).spec_word() == (word & ((1u64 << N as u64) - 1) as u64),
            final(self).spec_fill() == W,
    {
        let mask = (1u64 << N as u64) - 1;
        proof {
            let nn = N as u64;
            assert(1u64 << nn >= 1 && (word & ((1u64 << nn) - 1) as u64) < (1u64 << nn))
                by (bit_vector)
                requires
                    2 <= nn <= 63,
            ;
        }
        self.word = word & mask;
        proof {
            let ms = (N - W + 1) as u64;
            assert(1u64 << ms >= 1) by (bit_vector)
                requires
                    1 <= ms <= 63,
            ;
        }
        let min_mask = (1u64 << (N - W + 1) as u64) - 1;
        let mut vals: Vec<u64> = Vec::new();
        let mut p: usize = 0;
        while p < W
            invariant
                Self::valid_shape(),
                min_mask == ((1u64 << (N - W + 1) as u64) - 1) as u64,
                p <= W,
                vals@.len() == p,
                forall|i: int|
                    0 <= i < p ==> (#[trigger] vals@[i]) == ((self.word >> (W - 1
                        - i) as u64) & ((1u64 << (N - W + 1) as u64) - 1) as u64),
                self.word == (word & ((1u64 << N as u64) - 1) as u64),
                self.min_queue.wf(),
            decreases W - p,
        {
            vals.push((self.word >> (W - 1 - p) as u64) & min_mask);
            p = p + 1;
        }
        self.min_queue.insert_full(&vals);
    }

    /// The left-rotation of the current word by `p` positions.
    fn rotation(&self, p: usize) -> (r: u64)
        requires
            self.wf(),
            p < N,
        ensures
            r == rot_left(self.spec_word(), N as u64, p as u64),
    {
        let mask = (1u64 << N as u64) - 1;
        proof {
            let nn = N as u64;
            assert(1u64 << nn >= 1) by (bit_vector)
                requires
                    2 <= nn <= 63,
            ;
        }
        ((self.word << p as u64) & mask) | (self.word >> (N - p) as u64)
    }

    /// Shift the word left by one, bringing in the low bit of `x`.
    pub fn insert(&mut self, x: u64)
        requires
            old(self).wf(),
        ensures
            final(self).wf(),
            final(self).spec_word() == (((old(self).spec_word() << 1u64) & ((1u64
                << N as u64) - 1) as u64) | (x & 1)),
            final(self).spec_fill() == if old(self).spec_fill() == W {
                W as int
            } else {
                old(self).spec_fill() + 1
            },
    {
        let ghost w0 = self.word;
        let ghost win0 = self.min_queue.window();
        let ghost l0 = win0.len() as int;
        let mask = (1u64 << N as u64) - 1;
        proof {
            let nn = N as u64;
            assert(1u64 << nn >= 1) by (bit_vector)
                requires
                    2 <= nn <= 63,
            ;
        }
        self.word = ((self.word << 1u64) & mask) | (x & 1);
        proof {
            let ms = (N - W + 1) as u64;
            assert(1u64 << ms >= 1) by (bit_vector)
                requires
                    1 <= ms <= 63,
            ;
        }
        let min_mask = (1u64 << (N - W + 1) as u64) - 1;
        let prefix = self.word & min_mask;
        self.min_queue.insert(prefix);
        proof {
            let w1 = self.word;
            let win1 = self.min_queue.window();
            let l1 = win1.len() as int;
            assert(x & 1 <= 1) by (bit_vector);
            let nn = N as u64;
            assert(w1 < (1u64 << nn)) by (bit_vector)
                requires
                    2 <= nn <= 63,
                    w1 == ((w0 << 1u64) & ((1u64 << nn) - 1) as u64) | (x & 1),
            ;
            assert forall|i: int| 0 <= i < l1 implies (#[trigger] win1[i]) == ((w1 >> (l1 - 1
                - i) as u64) & ((1u64 << (N - W + 1) as u64) - 1) as u64) by {
                if i == l1 - 1 {
                    assert(win1[i] == prefix);
                    assert((w1 >> 0u64) == w1) by (bit_vector);
                } else {
                    let iold: int = if l0 == W {
                        i + 1
                    } else {
                        i
                    };
                    assert(win1[i] == win0[iold]);
                    assert(win0[iold] == ((w0 >> (l0 - 1 - iold) as u64) & ((1u64 << (N - W
                        + 1) as u64) - 1) as u64));
                    let s = (l0 - 1 - iold) as u64;
                    lemma_shift1_prefix(w0, x & 1, N as u64, (N - W + 1) as u64, s);
                    assert(s + 1 == l1 - 1 - i);
                }
            }
        }
    }

    /// The word's necklace and the position of the winning rotation: the
    /// smallest left-rotation of the word, with the smallest position on
    /// ties. Position candidates below W come from the prefix queue's
    /// co-minima, the rest are scanned directly.
    #[verifier::loop_isolation(false)]
    #[verifier::rlimit(100)]
    pub fn get_necklace_pos(&self) -> (r: (u64, usize))
        requires
            self.wf(),
            self.spec_fill() == W,
        ensures
            r.1 < N,
            r.0 == rot_left(self.spec_word(), N as u64, r.1 as u64),
            forall|p: int|
                0 <= p < N ==> (#[trigger] rot_left(self.spec_word(), N as u64, p as u64)) > r.0
                    || (rot_left(self.spec_word(), N as u64, p as u64) == r.0 && p >= r.1),
            r.0 == crate::lyndon::spec_necklace(self.spec_word(), N as u64),
    {
        let ghost word = self.word;
        let ghost nn = N as u64;
        let ghost mm = (N - W + 1) as u64;
        let ghost win = self.min_queue.window();
        proof {
            lemma_seq_min_attained(win);
            // every window entry is the high-M-bit prefix of its rotation
            assert forall|p: int| 0 <= p < W implies (#[trigger] win[p]) == (rot_left(
                word,
                nn,
                p as u64,
            ) >> (nn - mm) as u64) by {
                lemma_rot_prefix(word, nn, mm, p as u64);
                assert(win[p] == ((word >> (W - 1 - p) as u64) & ((1u64 << mm) - 1) as u64));
            }
        }
        let mins = self.min_queue.iter_min_pos();
        proof {
            let i0 = choose|i: int| 0 <= i < win.len() && win[i] == seq_min(win);
            assert(exists|j: int| 0 <= j < mins@.len() && #[trigger] mins@[j] as int == i0);
        }
        let mut best_v = self.rotation(mins[0]);
        let mut best_p = mins[0];
        let mut j: usize = 1;
        while j < mins.len()
            invariant
                1 <= j <= mins@.len(),
                best_p < W,
                win[best_p as int] == seq_min(win),
                best_v == rot_left(word, nn, best_p as u64),
                exists|jb: int| 0 <= jb < j && #[trigger] mins@[jb] == best_p,
                forall|jj: int|
                    0 <= jj < j ==> (#[trigger] rot_left(word, nn, mins@[jj] as u64)) > best_v || (
                    rot_left(word, nn, mins@[jj] as u64) == best_v && mins@[jj] >= best_p),
            decreases mins@.len() - j,
        {
            let p = mins[j];
            let rv = self.rotation(p);
            let ghost ob_v = best_v;
            let ghost ob_p = best_p;
            if rv < best_v {
                best_v = rv;
                best_p = p;
            }
            proof {
                if rv < ob_v {
                    assert(mins@[j as int] == best_p);
                } else {
                    let jb = choose|jb: int| 0 <= jb < j && #[trigger] mins@[jb] == ob_p;
                    assert(mins@[jb] == best_p);
                }
                assert forall|jj: int| 0 <= jj < j + 1 implies (#[trigger] rot_left(
                    word,
                    nn,
                    mins@[jj] as u64,
                )) > best_v || (rot_left(word, nn, mins@[jj] as u64) == best_v && mins@[jj]
                    >= best_p) by {
                    if jj < j {
                        assert(rot_left(word, nn, mins@[jj] as u64) > ob_v || (rot_left(
                            word,
                            nn,
                            mins@[jj] as u64,
                        ) == ob_v && mins@[jj] >= ob_p));
                    } else {
                        assert(rot_left(word, nn, mins@[jj] as u64) == rv);
                        if !(rv < ob_v) {
                            let jb = choose|jb: int| 0 <= jb < j && #[trigger] mins@[jb] == ob_p;
                            assert(mins@[jb] < mins@[j as int]);
                        }
                    }
                }
            }
            j = j + 1;
        }
        proof {
            // positions below W that the queue did not report have a larger
            // prefix, hence a larger rotation
            assert forall|p: int| 0 <= p < W implies (#[trigger] rot_left(word, nn, p as u64))
                > best_v || (rot_left(word, nn, p as u64) == best_v && p >= best_p) by {
                if win[p] == seq_min(win) {
                    let jj = choose|jj: int|
                        0 <= jj < mins@.len() && #[trigger] mins@[jj] as int == p;
                } else {
                    lemma_seq_min_le(win, p);
                    assert(win[best_p as int] < win[p]);
                    lemma_shift_lt(rot_left(word, nn, best_p as u64), rot_left(word, nn, p as u64), (
                    nn - mm) as u64);
                }
            }
        }
        let mut p: usize = W;
        while p < N
            invariant
                W <= p <= N,
                best_p < p,
                best_v == rot_left(word, nn, best_p as u64),
                forall|q: int|
                    0 <= q < p ==> (#[trigger] rot_left(word, nn, q as u64)) > best_v || (rot_left(
                        word,
                        nn,
                        q as u64,
                    ) == best_v && q >= best_p),
            decreases N - p,
        {
            let rv = self.rotation(p);
            if rv < best_v {
                best_v = rv;
                best_p = p;
            }
            p = p + 1;
        }
        proof {
            crate::lyndon::lemma_min_rot_attained(word, nn, (nn - 1) as nat);
            let istar = choose|i: nat|
                i <= nn - 1 && crate::lyndon::rot_right_n(word, nn, i) == crate::lyndon::min_rot_upto(
                    word,
                    nn,
                    (nn - 1) as nat,
                );
            lemma_right_left(word, nn, istar as u64);
            let jstar: u64 = if istar == 0 {
                0
            } else {
                (nn - istar) as u64
            };
            assert(rot_left(word, nn, jstar) >= best_v);
            let iprime: u64 = if best_p == 0 {
                0
            } else {
                (nn - best_p) as u64
            };
            lemma_right_left(word, nn, iprime);
            crate::lyndon::lemma_min_rot_le(word, nn, (nn - 1) as nat, iprime as nat);
            assert(crate::lyndon::rot_right_n(word, nn, iprime as nat) == rot_left(
                word,
                nn,
                best_p as u64,
            ));
        }
        (best_v, best_p)
    }

    /// Shift the word left by two, bringing in the low two bits of `x`.
    pub fn insert2(&mut self, x: u64)
        requires
            old(self).wf(),
        ensures
            final(self).wf(),
            final(self).spec_word() == (((old(self).spec_word() << 2u64) & ((1u64
                << N as u64) - 1) as u64) | (x & 3)),
            final(self).spec_fill() == if old(self).spec_fill() + 2 >= W {
                W as int
            } else {
                old(self).spec_fill() + 2
            },
    {
        let ghost w0 = self.word;
        self.insert(x >> 1u64);
        self.insert(x);
        proof {
            let nn = N as u64;
            let m = ((1u64 << nn) - 1) as u64;
            assert((((((w0 << 1u64) & m) | ((x >> 1u64) & 1)) << 1u64) & m) | (x & 1) == (((w0
                << 2u64) & m) | (x & 3))) by (bit_vector)
                requires
                    2 <= nn <= 63,
                    m == ((1u64 << nn) - 1) as u64,
            ;
        }
    }
}

/// A right-rotation by `i` equals the left-rotation by `n - i`.
proof fn lemma_right_left(x: u64, n: u64, i: u64)
    requires
        2 <= n <= 63,
        x < (1u64 << n),
        i < n,
    ensures
        crate::lyndon::rot_right_n(x, n, i as nat) == rot_left(
            x,
            n,
            if i == 0 {
                0u64
            } else {
                (n - i) as u64
            },
        ),
        rot_left(
            x,
            n,
            if i == 0 {
                0u64
            } else {
                (n - i) as u64
            },
        ) < (1u64 << n),
    decreases i,
{
    if i == 0 {
        assert(crate::lyndon::rot_right_n(x, n, 0) == x);
        assert(rot_left(x, n, 0) == x && x < (1u64 << n)) by (bit_vector)
            requires
                2 <= n <= 63,
                x < (1u64 << n),
        ;
    } else if i == 1 {
        assert(crate::lyndon::rot_right_n(x, n, 1) == crate::lyndon::spec_rot_right(
            crate::lyndon::rot_right_n(x, n, 0),
            n,
        ));
        assert(crate::lyndon::rot_right_n(x, n, 0) == x);
        assert(crate::lyndon::spec_rot_right(x, n) == rot_left(x, n, (n - 1) as u64) && rot_left(
            x,
            n,
            (n - 1) as u64,
        ) < (1u64 << n)) by (bit_vector)
            requires
                2 <= n <= 63,
                x < (1u64 << n),
        ;
    } else {
        lemma_right_left(x, n, (i - 1) as u64);
        let y = rot_left(x, n, (n - i + 1) as u64);
        assert(crate::lyndon::rot_right_n(x, n, i as nat) == crate::lyndon::spec_rot_right(
            crate::lyndon::rot_right_n(x, n, (i - 1) as nat),
            n,
        ));
        assert(crate::lyndon::rot_right_n(x, n, (i - 1) as nat) == y);
        assert(crate::lyndon::spec_rot_right(y, n) == rot_left(x, n, (n - i) as u64) && rot_left(
            x,
            n,
            (n - i) as u64,
        ) < (1u64 << n)) by (bit_vector)
            requires
                2 <= n <= 63,
                2 <= i < n,
                x < (1u64 << n),
                y == rot_left(x, n, (n - i + 1) as u64),
        ;
    }
}

} // verus!
