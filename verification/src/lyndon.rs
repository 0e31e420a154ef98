//! Necklaces of odd-length bit words and the l-mer of a k-mer.
//!
//! The necklace of an n-bit word is the smallest value among its n cyclic
//! right-rotations. The l-mer of a k-mer is the necklace of its canonical
//! form with the redundant low bit dropped, an (2K-1)-bit word.

use crate::kmer::Kmer;
use crate::kmer::spec_rev_comp;
use crate::kmer::valid_k;
use vstd::prelude::*;

verus! {

/// One cyclic right-rotation of an `n`-bit word: the low bit moves to
/// position `n - 1`.
pub open spec fn spec_rot_right(x: u64, n: u64) -> u64 {
    ((x & 1) << (n - 1) as u64) | (x >> 1u64)
}

/// `i` cyclic right-rotations of an `n`-bit word.
pub open spec fn rot_right_n(x: u64, n: u64, i: nat) -> u64
    decreases i,
{
    if i == 0 {
        x
    } else {
        spec_rot_right(rot_right_n(x, n, (i - 1) as nat), n)
    }
}

/// The smallest value among rotations `0 ..= c` of `x`.
pub open spec fn min_rot_upto(x: u64, n: u64, c: nat) -> u64
    decreases c,
{
    if c == 0 {
        x
    } else {
        let r = rot_right_n(x, n, c);
        let m = min_rot_upto(x, n, (c - 1) as nat);
        if r < m {
            r
        } else {
            m
        }
    }
}

/// The least index in `0 ..= c` whose rotation of `x` is smallest.
pub open spec fn min_rot_idx_upto(x: u64, n: u64, c: nat) -> nat
    decreases c,
{
    if c == 0 {
        0
    } else {
        if rot_right_n(x, n, c) < min_rot_upto(x, n, (c - 1) as nat) {
            c
        } else {
            min_rot_idx_upto(x, n, (c - 1) as nat)
        }
    }
}

/// The necklace of the `n`-bit word `x`: its smallest rotation.
pub open spec fn spec_necklace(x: u64, n: u64) -> u64 {
    min_rot_upto(x, n, (n - 1) as nat)
}

/// The index of the winning rotation, smallest on ties; 0 is `x` itself.
pub open spec fn spec_necklace_index(x: u64, n: u64) -> nat {
    min_rot_idx_upto(x, n, (n - 1) as nat)
}

/// The canonical form of a `k`-base word: the smaller of the word and its
/// reverse complement.
pub open spec fn spec_canonical(x: u64, k: usize) -> u64 {
    if x <= spec_rev_comp(x, k as nat) {
        x
    } else {
        spec_rev_comp(x, k as nat)
    }
}

/// The l-mer of a `k`-base word: the necklace of its canonical form with the
/// low bit dropped, taken as a (2k-1)-bit word.
pub open spec fn spec_lmer(x: u64, k: usize) -> u64 {
    spec_necklace(spec_canonical(x, k) >> 1u64, (2 * k - 1) as u64)
}

/// Rotate an (2K-1)-bit word right by one position.
#[inline]
pub fn bin_rot_right<const K: usize>(x: u64) -> (r: u64)
    requires
        valid_k(K),
    ensures
        r == spec_rot_right(x, (2 * K - 1) as u64),
{
    ((x & 1) << (2 * K - 2) as u64) | (x >> 1u64)
}

/// The necklace of `x` as a (2K-1)-bit word: its smallest rotation.
pub fn necklace<const K: usize>(x: u64) -> (r: u64)
    requires
        valid_k(K),
    ensures
        r == spec_necklace(x, (2 * K - 1) as u64),
{
    let ghost n = (2 * K - 1) as u64;
    let mut res = x;
    let mut rot = x;
    let mut i: usize = 1;
    while i < 2 * K - 1
        invariant
            valid_k(K),
            n == (2 * K - 1) as u64,
            1 <= i <= 2 * K - 1,
            rot == rot_right_n(x, n, (i - 1) as nat),
            res == min_rot_upto(x, n, (i - 1) as nat),
        decreases 2 * K - 1 - i,
    {
        rot = bin_rot_right::<K>(rot);
        if rot < res {
            res = rot;
        }
        i = i + 1;
    }
    res
}

/// The necklace of `x` as a (2K-1)-bit word, with the index of the winning
/// rotation; ties go to the smallest index, the original word has index 0.
pub fn necklace_index<const K: usize>(x: u64) -> (r: (u64, usize))
    requires
        valid_k(K),
    ensures
        r.0 == spec_necklace(x, (2 * K - 1) as u64),
        r.1 == spec_necklace_index(x, (2 * K - 1) as u64),
{
    let ghost n = (2 * K - 1) as u64;
    let mut res = x;
    let mut rot = x;
    let mut idx: usize = 0;
    let mut i: usize = 1;
    while i < 2 * K - 1
        invariant
            valid_k(K),
            n == (2 * K - 1) as u64,
            1 <= i <= 2 * K - 1,
            rot == rot_right_n(x, n, (i - 1) as nat),
            res == min_rot_upto(x, n, (i - 1) as nat),
            idx == min_rot_idx_upto(x, n, (i - 1) as nat),
        decreases 2 * K - 1 - i,
    {
        rot = bin_rot_right::<K>(rot);
        if rot < res {
            res = rot;
            idx = i;
        }
        i = i + 1;
    }
    (res, idx)
}

impl<const K: usize> Kmer<K> {
    /// The l-mer: the necklace of the canonical form's high 2K-1 bits. Equal
    /// for a k-mer and its reverse complement.
    pub fn lmer(self) -> (r: u64)
        requires
            valid_k(K),
            self.wf(),
        ensures
            r == spec_lmer(self.spec_int(), K),
    {
        necklace::<K>(self.canonical().to_int() >> 1u64)
    }

    /// The l-mer together with the index of the winning rotation, used to
    /// rebuild the canonical form from the pair.
    pub fn lmer_index(self) -> (r: (u64, usize))
        requires
            valid_k(K),
            self.wf(),
        ensures
            r.0 == spec_lmer(self.spec_int(), K),
            r.1 == spec_necklace_index(spec_canonical(self.spec_int(), K) >> 1u64, (2 * K
                - 1) as u64),
    {
        necklace_index::<K>(self.canonical().to_int() >> 1u64)
    }
}

/// The running minimum is a lower bound on every rotation seen so far.
pub proof fn lemma_min_rot_le(x: u64, n: u64, c: nat, i: nat)
    requires
        i <= c,
    ensures
        min_rot_upto(x, n, c) <= rot_right_n(x, n, i),
    decreases c,
{
    if c > 0 && i < c {
        lemma_min_rot_le(x, n, (c - 1) as nat, i);
    }
}

/// The running minimum is one of the rotations seen so far.
pub proof fn lemma_min_rot_attained(x: u64, n: u64, c: nat)
    ensures
        exists|i: nat| i <= c && rot_right_n(x, n, i) == min_rot_upto(x, n, c),
    decreases c,
{
    if c == 0 {
        assert(rot_right_n(x, n, 0) == min_rot_upto(x, n, 0));
    } else {
        lemma_min_rot_attained(x, n, (c - 1) as nat);
        if min_rot_upto(x, n, c) == rot_right_n(x, n, c) {
            assert(rot_right_n(x, n, c) == min_rot_upto(x, n, c));
        } else {
            let i = choose|i: nat|
                i <= c - 1 && rot_right_n(x, n, i) == min_rot_upto(x, n, (c - 1) as nat);
            assert(rot_right_n(x, n, i) == min_rot_upto(x, n, c));
        }
    }
}

/// A rotation of an `n`-bit word stays an `n`-bit word.
proof fn lemma_rot_right_bound(x: u64, n: u64)
    by (bit_vector)
    requires
        1 <= n <= 63,
        x < (1u64 << n),
    ensures
        spec_rot_right(x, n) < (1u64 << n),
{
}

/// All iterated rotations of an `n`-bit word stay `n`-bit words.
proof fn lemma_rot_right_n_bound(x: u64, n: u64, i: nat)
    requires
        1 <= n <= 63,
        x < (1u64 << n),
    ensures
        rot_right_n(x, n, i) < (1u64 << n),
    decreases i,
{
    if i > 0 {
        lemma_rot_right_n_bound(x, n, (i - 1) as nat);
        lemma_rot_right_bound(rot_right_n(x, n, (i - 1) as nat), n);
    }
}

/// Iterated rotations compose by adding their counts.
proof fn lemma_rot_right_n_add(x: u64, n: u64, i: nat, j: nat)
    ensures
        rot_right_n(rot_right_n(x, n, i), n, j) == rot_right_n(x, n, i + j),
    decreases j,
{
    if j > 0 {
        lemma_rot_right_n_add(x, n, i, (j - 1) as nat);
    }
}

/// Rotating an `n`-bit word `n` times gives the word back.
proof fn lemma_rot_right_n_full(x: u64, n: u64)
    requires
        1 <= n <= 63,
        x < (1u64 << n),
    ensures
        rot_right_n(x, n, n as nat) == x,
{
    // the closed form: rotating i times shifts down i and wraps the low bits
    assert forall|i: nat|
        i <= n implies #[trigger] rot_right_n(x, n, i) == (((x << (n - i) as u64) & ((1u64 << n)
        - 1) as u64) | (x >> i as u64)) by {
        lemma_rot_right_closed(x, n, i);
    }
    assert((((x << (n - n) as u64) & ((1u64 << n) - 1) as u64) | (x >> n as u64)) == x)
        by (bit_vector)
        requires
            1 <= n <= 63,
            x < (1u64 << n),
    ;
}

/// The closed form of iterated right-rotation.
proof fn lemma_rot_right_closed(x: u64, n: u64, i: nat)
    requires
        1 <= n <= 63,
        x < (1u64 << n),
        i <= n,
    ensures
        rot_right_n(x, n, i) == (((x << (n - i) as u64) & ((1u64 << n) - 1) as u64) | (x
            >> i as u64)),
    decreases i,
{
    if i == 0 {
        assert((((x << n) & ((1u64 << n) - 1) as u64) | (x >> 0u64)) == x) by (bit_vector)
            requires
                1 <= n <= 63,
                x < (1u64 << n),
        ;
    } else {
        lemma_rot_right_closed(x, n, (i - 1) as nat);
        let ii = i as u64;
        let y = (((x << (n - (ii - 1)) as u64) & ((1u64 << n) - 1) as u64) | (x >> (ii
            - 1) as u64));
        assert(spec_rot_right(y, n) == (((x << (n - ii) as u64) & ((1u64 << n) - 1) as u64) | (x
            >> ii))) by (bit_vector)
            requires
                1 <= n <= 63,
                1 <= ii <= n,
                x < (1u64 << n),
                y == (((x << (n - (ii - 1)) as u64) & ((1u64 << n) - 1) as u64) | (x >> (ii
                    - 1) as u64)),
        ;
    }
}

/// The necklace is no larger than any iterated rotation, whatever the count.
proof fn lemma_necklace_le_any(x: u64, n: u64, i: nat)
    requires
        1 <= n <= 63,
        x < (1u64 << n),
    ensures
        spec_necklace(x, n) <= rot_right_n(x, n, i),
{
    let r = (i % (n as nat));
    vstd::arithmetic::div_mod::lemma_mod_division_less_than_divisor(i as int, n as int);
    lemma_rot_mod(x, n, i);
    lemma_min_rot_le(x, n, (n - 1) as nat, r);
}

/// Rotation counts matter only modulo the word length.
proof fn lemma_rot_mod(x: u64, n: u64, i: nat)
    requires
        1 <= n <= 63,
        x < (1u64 << n),
    ensures
        rot_right_n(x, n, i) == rot_right_n(x, n, (i % (n as nat))),
    decreases i,
{
    if i >= n {
        lemma_rot_right_n_full(x, n);
        lemma_rot_right_n_add(x, n, n as nat, (i - n) as nat);
        lemma_rot_mod(x, n, (i - n) as nat);
        assert((i as int - n) % (n as int) == i as int % (n as int)) by {
            vstd::arithmetic::div_mod::lemma_mod_multiples_vanish(-1, i as int, n as int);
        }
    } else {
        vstd::arithmetic::div_mod::lemma_small_mod(i, n as nat);
    }
}

/// Taking the necklace twice changes nothing, and the necklace of a necklace
/// wins at rotation index 0.
pub proof fn lemma_necklace_idempotent(x: u64, n: u64)
    requires
        1 <= n <= 63,
        x < (1u64 << n),
    ensures
        spec_necklace(spec_necklace(x, n), n) == spec_necklace(x, n),
        spec_necklace_index(spec_necklace(x, n), n) == 0,
{
    let y = spec_necklace(x, n);
    lemma_min_rot_attained(x, n, (n - 1) as nat);
    let p = choose|p: nat| p <= n - 1 && rot_right_n(x, n, p) == min_rot_upto(x, n, (n - 1) as nat);
    lemma_rot_right_n_bound(x, n, p);
    // every rotation of y is a rotation of x, so y is a lower bound on them
    assert forall|j: nat| j <= n - 1 implies y <= #[trigger] rot_right_n(y, n, j) by {
        lemma_rot_right_n_add(x, n, p, j);
        lemma_necklace_le_any(x, n, p + j);
    }
    lemma_min_rot_attained(y, n, (n - 1) as nat);
    let p2 = choose|p2: nat|
        p2 <= n - 1 && rot_right_n(y, n, p2) == min_rot_upto(y, n, (n - 1) as nat);
    lemma_min_rot_le(y, n, (n - 1) as nat, 0);
    assert(rot_right_n(y, n, 0) == y);
    assert(spec_necklace(y, n) == y);
    lemma_idx_zero_of_min(y, n, (n - 1) as nat);
}

/// When the word itself is no larger than any of its rotations, the winning
/// index is 0.
proof fn lemma_idx_zero_of_min(y: u64, n: u64, c: nat)
    requires
        forall|j: nat| j <= c ==> y <= #[trigger] rot_right_n(y, n, j),
    ensures
        min_rot_idx_upto(y, n, c) == 0,
        min_rot_upto(y, n, c) == y,
    decreases c,
{
    if c > 0 {
        lemma_idx_zero_of_min(y, n, (c - 1) as nat);
        assert(y <= rot_right_n(y, n, c));
    } else {
        assert(rot_right_n(y, n, 0) == y);
    }
}

/// A k-mer and its reverse complement share one l-mer: complementing twice
/// gives the word back, so both sides canonicalize to the same word.
pub proof fn lemma_lmer_rev_comp(x: u64, k: usize)
    requires
        valid_k(k),
        x <= crate::kmer::spec_mask(k),
    ensures
        spec_lmer(spec_rev_comp(x, k as nat), k) == spec_lmer(x, k),
{
    crate::kmer::lemma_rev_comp_involutive(x, k);
    assert(spec_canonical(spec_rev_comp(x, k as nat), k) == spec_canonical(x, k));
}

} // verus!
