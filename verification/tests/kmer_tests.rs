use lmers::kmer::Kmer;
use lmers::kmer::from_nuc;
use lmers::kmer::to_nuc;

#[test]
fn test_rc_8() {
    let kmer = Kmer::<4>::from_nucs(b"ATCG");
    assert_eq!(kmer.rev_comp().to_nucs(), b"CGAT".to_vec());
}

#[test]
fn test_rc_16() {
    let kmer = Kmer::<4>::from_nucs(b"ATCG");
    assert_eq!(kmer.rev_comp().to_nucs(), b"CGAT".to_vec());
}

#[test]
fn test_rc_32() {
    let kmer = Kmer::<11>::from_nucs(b"CATAATCCAGC");
    assert_eq!(kmer.rev_comp().to_nucs(), b"GCTGGATTATG".to_vec());
}

#[test]
fn test_rc_64() {
    let kmer = Kmer::<11>::from_nucs(b"CATAATCCAGC");
    assert_eq!(kmer.rev_comp().to_nucs(), b"GCTGGATTATG".to_vec());
}

#[test]
fn test_rc_128() {
    let kmer = Kmer::<11>::from_nucs(b"CATAATCCAGC");
    assert_eq!(kmer.rev_comp().to_nucs(), b"GCTGGATTATG".to_vec());
}

#[test]
fn rc_rc_8() {
    for i in 0..64 {
        let kmer = Kmer::<3>::from_int(i);
        assert_eq!(kmer.rev_comp().rev_comp().to_int(), i);
    }
}

#[test]
fn rc_rc_16() {
    for i in 0..16384 {
        let kmer = Kmer::<7>::from_int(i);
        assert_eq!(kmer.rev_comp().rev_comp().to_int(), i);
    }
}

#[test]
fn rc_rc_32() {
    for i in 0..1_000_000 {
        let kmer = Kmer::<15>::from_int(i);
        assert_eq!(kmer.rev_comp().rev_comp().to_int(), i);
    }
}

#[test]
fn rc_rc_64() {
    for i in 0..1_000_000 {
        let kmer = Kmer::<15>::from_int(i);
        assert_eq!(kmer.rev_comp().rev_comp().to_int(), i);
    }
}

#[test]
fn rc_rc_128() {
    for i in 0..1_000_000 {
        let kmer = Kmer::<15>::from_int(i);
        assert_eq!(kmer.rev_comp().rev_comp().to_int(), i);
    }
}

#[test]
fn atcg_packs_to_54_and_complements_to_99() {
    let kmer = Kmer::<4>::from_nucs(b"ATCG");
    assert_eq!(kmer.to_int(), 0b00_11_01_10);
    assert_eq!(kmer.to_int(), 54);
    let rc = kmer.rev_comp();
    assert_eq!(rc.to_int(), 0b01_10_00_11);
    assert_eq!(rc.to_int(), 99);
    assert_eq!(rc.to_nucs(), b"CGAT".to_vec());
}

#[test]
fn base_decoding_rejects_lowercase_and_others() {
    assert_eq!(from_nuc(&b'A'), Some(0));
    assert_eq!(from_nuc(&b'C'), Some(1));
    assert_eq!(from_nuc(&b'G'), Some(2));
    assert_eq!(from_nuc(&b'T'), Some(3));
    assert_eq!(from_nuc(&b'a'), None);
    assert_eq!(from_nuc(&b'c'), None);
    assert_eq!(from_nuc(&b'g'), None);
    assert_eq!(from_nuc(&b't'), None);
    assert_eq!(from_nuc(&b'N'), None);
    assert_eq!(from_nuc(&b'U'), None);
    for b in 0..4u64 {
        assert_eq!(from_nuc(&to_nuc(b)), Some(b));
    }
}

#[test]
fn nucs_round_trip_both_ways() {
    for i in 0..4096u64 {
        let kmer = Kmer::<6>::from_int(i);
        assert_eq!(Kmer::<6>::from_nucs(&kmer.to_nucs()).to_int(), i);
    }
    let text = b"GATTACA";
    assert_eq!(Kmer::<7>::from_nucs(text).to_nucs(), text.to_vec());
}

#[test]
fn from_nucs_skips_invalid_and_defaults_to_zero() {
    assert_eq!(
        Kmer::<4>::from_nucs(b"AxTyCzG!").to_int(),
        Kmer::<4>::from_nucs(b"ATCG").to_int()
    );
    assert_eq!(Kmer::<4>::from_nucs(b"xyz!").to_int(), 0);
    assert_eq!(Kmer::<4>::from_nucs(b"").to_int(), 0);
    // too-short input decodes just the bases that are there
    assert_eq!(Kmer::<4>::from_nucs(b"AT").to_int(), 0b0011);
}

#[test]
fn extend_append_successors_submers() {
    let kmer = Kmer::<4>::from_nucs(b"ATCG");
    assert_eq!(kmer.extend(3).to_int(), (54 << 2) | 3);
    assert_eq!(kmer.append(3).to_int(), ((54 << 2) | 3) & 0xFF);
    let succ = kmer.successors();
    for b in 0..4u64 {
        assert_eq!(succ[b as usize].to_int(), ((54 << 2) | b) & 0xFF);
    }
    let subs = kmer.submers::<2>();
    let ints: Vec<u64> = subs.iter().map(|s| s.to_int()).collect();
    assert_eq!(ints, vec![0b0011, 0b1101, 0b0110]);
}

#[test]
fn canonical_picks_smaller_of_pair() {
    for i in 0..16384u64 {
        let kmer = Kmer::<7>::from_int(i);
        let rc = kmer.rev_comp();
        let want = if kmer.to_int() <= rc.to_int() { kmer.to_int() } else { rc.to_int() };
        assert_eq!(kmer.canonical().to_int(), want);
        assert_eq!(rc.canonical().to_int(), want);
    }
}

#[test]
fn iter_from_nucs_slides_one_base_at_a_time() {
    let mut it = Kmer::<3>::iter_from_nucs(b"ATCGA");
    assert_eq!(it.next().map(|k| k.to_int()), Some(0b00_11_01));
    assert_eq!(it.next().map(|k| k.to_int()), Some(0b11_01_10));
    assert_eq!(it.next().map(|k| k.to_int()), Some(0b01_10_00));
    assert_eq!(it.next().map(|k| k.to_int()), None);
    // invalid bytes are skipped without restarting the window
    let mut it2 = Kmer::<3>::iter_from_nucs(b"AT!C..GA");
    assert_eq!(it2.next().map(|k| k.to_int()), Some(0b00_11_01));
    assert_eq!(it2.next().map(|k| k.to_int()), Some(0b11_01_10));
    assert_eq!(it2.next().map(|k| k.to_int()), Some(0b01_10_00));
    assert_eq!(it2.next().map(|k| k.to_int()), None);
    // a stream with too few valid bases yields nothing
    let mut it3 = Kmer::<3>::iter_from_nucs(b"A!T");
    assert_eq!(it3.next().map(|k| k.to_int()), None);
}
