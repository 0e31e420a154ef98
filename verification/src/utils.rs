//! Exhaustive and randomized k-mer generators.

use crate::kmer::Kmer;
use crate::kmer::spec_mask;
use crate::kmer::valid_k;
use crate::lyndon::spec_lmer;
use rand::Rng;
use std::collections::BTreeSet;
use vstd::prelude::*;

verus! {

/// The set of l-mers of every k-mer of K bases, in increasing order.
pub fn all_lmers<const K: usize>() -> (r: BTreeSet<u64>)
    requires
        valid_k(K),
        K <= 12,
    ensures
        forall|v: u64|
            #[trigger] r@.contains(v) <==> exists|x: u64|
                x <= spec_mask(K) && v == #[trigger] spec_lmer(x, K),
{
    let mut lmers: BTreeSet<u64> = BTreeSet::new();
    let top = Kmer::<K>::mask();
    let mut x: u64 = 0;
    while x <= top
        invariant
            valid_k(K),
            K <= 12,
            top == spec_mask(K),
            x <= top + 1,
            forall|v: u64|
                #[trigger] lmers@.contains(v) <==> exists|y: u64|
                    y < x && v == #[trigger] spec_lmer(y, K),
        decreases top + 1 - x,
    {
        let kmer = Kmer::<K>::from_int(x);
        let lm = kmer.lmer();
        proof {
            let m = spec_mask(K);
            let kk = (2 * K) as u64;
            assert(m < 0x8000_0000_0000_0000u64) by (bit_vector)
                requires
                    m == ((1u64 << kk) - 1) as u64,
                    kk <= 24,
            ;
        }
        lmers.insert(lm);
        proof {
            assert(x < x + 1 && lm == spec_lmer(x, K));
            assert forall|v: u64| lmers@.contains(v) implies exists|y: u64|
                y < x + 1 && v == #[trigger] spec_lmer(y, K) by {
                if v != lm {
                    let y = choose|y: u64| y < x && v == #[trigger] spec_lmer(y, K);
                    assert(y < x + 1 && v == spec_lmer(y, K));
                }
            }
        }
        x = x + 1;
    }
    proof {
        assert forall|v: u64| lmers@.contains(v) implies exists|y: u64|
            y <= spec_mask(K) && v == #[trigger] spec_lmer(y, K) by {
            let y = choose|y: u64| y < x && v == #[trigger] spec_lmer(y, K);
            assert(y <= spec_mask(K) && v == spec_lmer(y, K));
        }
        assert forall|v: u64|
            exists|y: u64|
                y <= spec_mask(K) && v == #[trigger] spec_lmer(y, K) implies lmers@.contains(
            v,
        ) by {
            let y = choose|y: u64| y <= spec_mask(K) && v == #[trigger] spec_lmer(y, K);
            assert(y < x && v == spec_lmer(y, K));
        }
    }
    lmers
}

/// Relies on `rand::Rng::gen_range` over `0..4`: the result is sampled from
/// that range, so it is a valid base.
#[verifier::external_body]
fn random_base() -> (r: u64)
    ensures
        r < 4,
{
    rand::thread_rng().gen_range(0..4u64)
}

/// `n` k-mers over a uniformly random base stream: the first is ready after
/// K - 1 leading bases, each further base yields the next k-mer.
pub fn random_kmers<const K: usize>(n: usize) -> (r: Vec<Kmer<K>>)
    requires
        valid_k(K),
        n + K <= usize::MAX,
    ensures
        r@.len() == n,
        forall|t: int| 0 <= t < n ==> (#[trigger] r@[t]).wf(),
{
    let mut res: Vec<Kmer<K>> = Vec::new();
    let mut kmer = Kmer::<K>::new();
    let mut i: usize = 0;
    while i < n + K - 1
        invariant
            valid_k(K),
            n + K <= usize::MAX,
            i <= n + K - 1,
            res@.len() == if i < K - 1 {
                0int
            } else {
                i - (K - 1)
            },
            forall|t: int| 0 <= t < res@.len() ==> (#[trigger] res@[t]).wf(),
            kmer.wf(),
        decreases n + K - 1 - i,
    {
        let base = random_base();
        if i < K - 1 {
            kmer = kmer.append(base);
        } else {
            kmer = kmer.append(base);
            res.push(kmer);
        }
        i = i + 1;
    }
    res
}

} // verus!
