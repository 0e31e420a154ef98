use lmers::kmer::Kmer;
use lmers::lyndon::necklace;
use lmers::lyndon::necklace_index;
use lmers::necklace::LexMinQueue;
use lmers::necklace::NecklaceQueue;
use lmers::utils::all_lmers;

const W: usize = 4;

#[test]
fn test_lex_min_queue_insert_full() {
    let mut min_queue = LexMinQueue::<W>::new();
    min_queue.insert_full(&vec![2, 1, 2, 1]);
    assert_eq!(min_queue.iter_min_pos(), vec![W - 3, W - 1]);
}

#[test]
fn test_lex_min_queue_insert() {
    let mut min_queue = LexMinQueue::<W>::new();
    min_queue.insert(3);
    assert_eq!(min_queue.iter_min_pos(), vec![W - 1]);
    min_queue.insert(1);
    assert_eq!(min_queue.iter_min_pos(), vec![W - 1]);
    min_queue.insert(2);
    assert_eq!(min_queue.iter_min_pos(), vec![W - 2]);
    min_queue.insert(3);
    assert_eq!(min_queue.iter_min_pos(), vec![W - 3]);
    min_queue.insert(1);
    assert_eq!(min_queue.iter_min_pos(), vec![W - 4, W - 1]);
    min_queue.insert(2);
    assert_eq!(min_queue.iter_min_pos(), vec![W - 2]);
}

#[test]
fn test_necklace_queue() {
    let mut necklace_queue = NecklaceQueue::<8, W>::new_from_word(0b10010110);
    assert_eq!(necklace_queue.get_necklace_pos(), (0b00101101, 1));
    necklace_queue.insert(0);
    assert_eq!(necklace_queue.get_necklace_pos(), (0b00001011, 8 - 2));
}

#[test]
fn lex_min_queue_of_five_reports_minima() {
    // the window of the last five values is [1, 2, 3, 1, 2]: the minimum 1
    // sits at the oldest position and at the second-newest, W - 2
    let mut min_queue = LexMinQueue::<5>::new();
    for v in [3u64, 1, 2, 3, 1, 2] {
        min_queue.insert(v);
    }
    assert_eq!(min_queue.iter_min_pos(), vec![5 - 5, 5 - 2]);
}

#[test]
fn lex_min_queue_insert2_matches_two_inserts() {
    let mut a = LexMinQueue::<5>::new();
    let mut b = LexMinQueue::<5>::new();
    let vals = [7u64, 3, 9, 3, 5, 1, 8, 8, 2, 6];
    let mut i = 0;
    while i + 1 < vals.len() {
        a.insert2(vals[i], vals[i + 1]);
        b.insert(vals[i]);
        b.insert(vals[i + 1]);
        assert_eq!(a.iter_min_pos(), b.iter_min_pos());
        i += 2;
    }
}

fn brute_necklace(word: u64, n: usize) -> (u64, usize) {
    let mask = (1u64 << n) - 1;
    let mut best = word & mask;
    let mut best_p = 0usize;
    for p in 1..n {
        let rot = ((word << p) & mask) | ((word & mask) >> (n - p));
        if rot < best {
            best = rot;
            best_p = p;
        }
    }
    (best, best_p)
}

#[test]
fn sliding_necklace_matches_one_shot() {
    // a fixed linear congruential stream of bits
    let mut state: u64 = 0xDEAD_BEEF;
    let mut queue = NecklaceQueue::<13, 6>::new_from_word(0x1ABC);
    let mut word: u64 = 0x1ABC & 0x1FFF;
    for _ in 0..500 {
        state = state.wrapping_mul(6364136223846793005).wrapping_add(1442695040888963407);
        let bit = (state >> 33) & 1;
        queue.insert(bit);
        word = ((word << 1) & 0x1FFF) | bit;
        let (neck, _pos) = queue.get_necklace_pos();
        assert_eq!(neck, brute_necklace(word, 13).0);
    }
}

#[test]
fn sliding_necklace_two_bit_steps() {
    let mut state: u64 = 42;
    let mut queue = NecklaceQueue::<15, 7>::new_from_word(0x4D2);
    let mut word: u64 = 0x4D2 & 0x7FFF;
    for _ in 0..300 {
        state = state.wrapping_mul(6364136223846793005).wrapping_add(1442695040888963407);
        let bits = (state >> 33) & 3;
        queue.insert2(bits);
        word = ((word << 2) & 0x7FFF) | bits;
        let (neck, pos) = queue.get_necklace_pos();
        let (bneck, bpos) = brute_necklace(word, 15);
        assert_eq!((neck, pos), (bneck, bpos));
    }
}

#[test]
fn necklace_one_shot_small() {
    // rotations of 110 as a 3-bit word: 110, 011, 101; the smallest is 011
    assert_eq!(necklace::<2>(0b110), 0b011);
    assert_eq!(necklace_index::<2>(0b110), (0b011, 1));
    // the word itself wins when already minimal
    assert_eq!(necklace_index::<2>(0b001), (0b001, 0));
}

#[test]
fn necklace_is_idempotent_with_index_zero() {
    for x in 0..(1u64 << 7) {
        let neck = necklace::<4>(x);
        assert_eq!(necklace::<4>(neck), neck);
        assert_eq!(necklace_index::<4>(neck), (neck, 0));
    }
}

#[test]
fn lmer_equals_lmer_of_rev_comp_small() {
    for i in 0..(1u64 << 10) {
        let kmer = Kmer::<5>::from_int(i);
        assert_eq!(kmer.lmer(), kmer.rev_comp().lmer());
    }
}

#[test]
fn test_lmer_rc() {
    for i in 0..1_000_000 {
        let kmer = Kmer::<15>::from_int(i);
        assert_eq!(kmer.lmer(), kmer.rev_comp().lmer());
    }
}

#[test]
fn all_lmers_collects_exactly_the_lmers() {
    let lmers = all_lmers::<3>();
    for i in 0..(1u64 << 6) {
        assert!(lmers.contains(&Kmer::<3>::from_int(i).lmer()));
    }
    for &lm in lmers.iter() {
        // every collected value is the lmer of some k-mer
        assert!((0..(1u64 << 6)).any(|i| Kmer::<3>::from_int(i).lmer() == lm));
    }
}
