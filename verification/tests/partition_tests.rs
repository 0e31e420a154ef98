use lmers::partition::Partitioner;
use lmers::utils::random_kmers;
use std::collections::BTreeSet;

#[test]
fn dense_block_costs_the_fixed_overhead() {
    let p = Partitioner::new();
    let u: Vec<u64> = vec![0, 1, 2, 3, 4];
    assert_eq!(p.cost(&u, 0, 5), 128);
}

#[test]
fn single_dense_run_partitions_into_one_block() {
    let p = Partitioner::new();
    let u: Vec<u64> = vec![0, 1, 2, 3, 4];
    let (points, total) = p.partition(&u, 3, 10);
    assert_eq!(points, vec![0]);
    assert_eq!(total, 128);
}

#[test]
fn sparse_block_cost_formula() {
    let p = Partitioner::new();
    // n = 4, span u = 1001, l = ceil(log2(ceil(1001/4))) = 8,
    // ef = 2*4 + 4*8 = 40 < 1001, cost = roundup8(128 + 40) = 168
    let u: Vec<u64> = vec![0, 10, 100, 1000];
    assert_eq!(p.cost(&u, 0, 4), 168);
}

#[test]
fn partition_cost_matches_cost_with_partition() {
    let p = Partitioner::new();
    let mut u: Vec<u64> = Vec::new();
    // two dense runs far apart: splitting should beat one block
    for i in 0..64 {
        u.push(i);
    }
    for i in 0..64 {
        u.push(1_000_000 + i);
    }
    let (points, total) = p.partition(&u, 3, 10);
    assert_eq!(p.cost_with_partition(&u, &points), total);
    assert!(total <= p.cost(&u, 0, u.len()));
    assert_eq!(points[0], u[0]);
}

fn brute_force_opt(p: &Partitioner, u: &Vec<u64>) -> usize {
    let n = u.len();
    let mut best = vec![usize::MAX; n + 1];
    best[0] = 0;
    for j in 1..=n {
        for i in 0..j {
            if best[i] != usize::MAX {
                let c = best[i] + p.cost(u, i, j);
                if c < best[j] {
                    best[j] = c;
                }
            }
        }
    }
    best[n]
}

#[test]
fn partition_is_within_the_tolerance_of_optimal() {
    let p = Partitioner::new();
    let mut state: u64 = 7;
    let mut set = BTreeSet::new();
    while set.len() < 40 {
        state = state.wrapping_mul(6364136223846793005).wrapping_add(1442695040888963407);
        set.insert((state >> 33) % 100_000);
    }
    let u: Vec<u64> = set.into_iter().collect();
    let opt = brute_force_opt(&p, &u);
    let (_, total) = p.partition(&u, 3, 10);
    // a tolerance of 3/10 promises at most a 1.3 factor over the optimum
    assert!(total * 10 <= opt * 13, "{} vs opt {}", total, opt);
    let (_, total_fine) = p.partition(&u, 1, 100);
    assert!(total_fine * 100 <= opt * 101, "{} vs opt {}", total_fine, opt);
}

#[test]
fn large_random_subset_compresses() {
    let p = Partitioner::new();
    let mut state: u64 = 99;
    let mut set = BTreeSet::new();
    while set.len() < 1_000_000 {
        state = state.wrapping_mul(6364136223846793005).wrapping_add(1442695040888963407);
        set.insert((state >> 32) & 0x7FFF_FFFF);
    }
    let u: Vec<u64> = set.into_iter().collect();
    let n = u.len();
    let plain = p.cost(&u, 0, n);
    let (points, total) = p.partition(&u, 3, 10);
    assert_eq!(p.cost_with_partition(&u, &points), total);
    // the partition beats the one-block encoding by a clear margin
    assert!(total * 100 <= plain * 98, "{} vs plain {}", total, plain);
}

#[test]
fn random_kmers_yields_well_formed_kmers() {
    let kmers = random_kmers::<9>(500);
    assert_eq!(kmers.len(), 500);
    for k in kmers {
        assert!(k.to_int() < (1u64 << 18));
    }
}
