//! Bit-packed k-mers over the DNA alphabet.
//!
//! A base is one of A, C, G, T, encoded as 0, 1, 2, 3 so that complementing
//! a base is bitwise inversion of its two bits. A k-mer of `K` bases lives in
//! the low `2K` bits of a `u64`, most significant base first.

use vstd::prelude::*;

verus! {

/// K values whose 2K bits fit a u64 with room for the shift `1u64 << 2K`.
pub open spec fn valid_k(k: usize) -> bool {
    1 <= k <= 31
}

/// Low `2k` bits set.
pub open spec fn spec_mask(k: usize) -> u64 {
    ((1u64 << (2 * k) as u64) - 1) as u64
}

/// The base encoded by an ASCII nucleotide, if any. A, C, G, T map to
/// 0, 1, 2, 3; every other byte, lowercase as well, is rejected.
pub open spec fn spec_from_nuc(b: u8) -> Option<u64> {
    if b == 65 {
        Some(0u64)
    } else if b == 67 {
        Some(1u64)
    } else if b == 71 {
        Some(2u64)
    } else {
        if b == 84 {
            Some(3u64)
        } else {
            None
        }
    }
}

/// The ASCII nucleotide of a base value below 4.
pub open spec fn spec_to_nuc(x: u64) -> u8 {
    if x == 0 {
        65u8
    } else if x == 1 {
        67u8
    } else if x == 2 {
        71u8
    } else {
        84u8
    }
}

/// Base `i` of the `k`-base word `x`, counted from the most significant base.
pub open spec fn nuc_at(x: u64, i: int, k: int) -> u64 {
    (x >> (2 * (k - 1 - i)) as u64) & 3
}

/// Masking with `m` never exceeds `m`.
proof fn lemma_and_mask_le(a: u64, m: u64)
    by (bit_vector)
    ensures
        (a & m) <= m,
{
}

/// Masking a base value below 4 with the low two bits changes nothing.
proof fn lemma_low2_noop(b: u64)
    by (bit_vector)
    requires
        b <= 3,
    ensures
        b & 3 == b,
{
}

/// The reverse complement of the low `k` bases of `x`: the order of the
/// 2-bit groups is reversed and each group is complemented.
pub open spec fn spec_rev_comp(x: u64, k: nat) -> u64
    decreases k,
{
    if k == 0 {
        0u64
    } else {
        (spec_rev_comp(x >> 2u64, (k - 1) as nat) | (((3 - (x & 3)) as u64) << (2 * (k
            - 1)) as u64)) as u64
    }
}

/// `u64::swap_bytes` as a bit formula: byte `i` of the result is byte
/// `7 - i` of the argument.
pub open spec fn spec_swap_bytes(x: u64) -> u64 {
    ((x & 0xFF) << 56u64) | (((x >> 8u64) & 0xFF) << 48u64) | (((x >> 16u64) & 0xFF) << 40u64) | ((
    (x >> 24u64) & 0xFF) << 32u64) | (((x >> 32u64) & 0xFF) << 24u64) | (((x >> 40u64) & 0xFF)
        << 16u64) | (((x >> 48u64) & 0xFF) << 8u64) | ((x >> 56u64) & 0xFF)
}

/// Relies on `u64::swap_bytes`: the documentation promises the byte order of
/// the integer is reversed, which `spec_swap_bytes` writes out bitwise.
pub assume_specification[ u64::swap_bytes ](x: u64) -> (r: u64)
    ensures
        r == spec_swap_bytes(x),
;

/// The complement / byte-swap / nibble-swap / pair-swap pipeline that
/// `rev_comp` runs, as one spec-level expression.
pub open spec fn rc_pipeline(x: u64, k: u64) -> u64 {
    let y = !spec_swap_bytes(x);
    let a = ((y >> 4u64) & 0x0F0F_0F0F_0F0F_0F0F) | ((y & 0x0F0F_0F0F_0F0F_0F0F) << 4u64);
    let b = ((a >> 2u64) & 0x3333_3333_3333_3333) | ((a & 0x3333_3333_3333_3333) << 2u64);
    b >> ((64 - 2 * k) as u64)
}

/// Each 2-bit group of the pipeline's result is the complement of the
/// mirrored group of the argument, and the result fits in `2k` bits.
proof fn lemma_rc_pipeline_digit(x: u64, k: u64, j: u64)
    by (bit_vector)
    requires
        1 <= k <= 31,
        x < (1u64 << (2 * k)),
        j < k,
    ensures
        ((rc_pipeline(x, k) >> (2 * j) as u64) & 3) == 3 - ((x >> (2 * (k - 1 - j)) as u64) & 3),
        rc_pipeline(x, k) < (1u64 << (2 * k)),
{
}

/// Placing a 2-bit group `c` on top of `a` leaves the lower groups alone,
/// puts `c` at group `k - 1`, and stays below `2k` bits.
proof fn lemma_or_shift_digit(a: u64, c: u64, k: u64, j: u64)
    by (bit_vector)
    requires
        1 <= k <= 31,
        a < (1u64 << (2 * (k - 1)) as u64),
        c <= 3,
        j < k,
    ensures
        j < k - 1 ==> (((a | (c << (2 * (k - 1)) as u64)) >> (2 * j) as u64) & 3) == ((a >> (2
            * j) as u64) & 3),
        j == k - 1 ==> (((a | (c << (2 * (k - 1)) as u64)) >> (2 * j) as u64) & 3) == c,
        (a | (c << (2 * (k - 1)) as u64)) < (1u64 << (2 * k) as u64),
{
}

/// Each 2-bit group of `spec_rev_comp(x, k)` is the complement of the
/// mirrored group of `x`, and the result fits in `2k` bits.
proof fn lemma_spec_rc_digit(x: u64, k: u64, j: u64)
    requires
        1 <= k <= 31,
        j < k,
    ensures
        ((spec_rev_comp(x, k as nat) >> (2 * j) as u64) & 3) == 3 - ((x >> (2 * (k - 1
            - j)) as u64) & 3),
        spec_rev_comp(x, k as nat) < (1u64 << (2 * k) as u64),
    decreases k,
{
    let a = spec_rev_comp(x >> 2u64, (k - 1) as nat);
    let c = (3 - (x & 3)) as u64;
    assert(x & 3 <= 3) by (bit_vector);
    if k == 1 {
        assert(spec_rev_comp(x, 1) == (0u64 | (c << 0u64)));
        assert((((0u64 | (c << 0u64)) >> 0u64) & 3) == c && (0u64 | (c << 0u64)) < (1u64 << 2u64)
            && (x >> 0u64) & 3 == x & 3) by (bit_vector)
            requires
                c <= 3,
        ;
    } else {
        lemma_spec_rc_digit(x >> 2u64, (k - 1) as u64, if j < k - 1 {
            j
        } else {
            0
        });
        lemma_or_shift_digit(a, c, k, j);
        if j < k - 1 {
            lemma_spec_rc_digit(x >> 2u64, (k - 1) as u64, j);
            // group j of the recursive value mirrors group k - 2 - j of x >> 2,
            // which is group k - 1 - j of x
            assert(((x >> 2u64) >> (2 * ((k - 1) - 1 - j)) as u64) == (x >> (2 * (k - 1
                - j)) as u64)) by (bit_vector)
                requires
                    1 <= k <= 31,
                    j < k - 1,
            ;
        } else {
            assert((x >> 0u64) & 3 == x & 3) by (bit_vector);
        }
    }
}

/// Two values below `2k` bits with equal 2-bit groups are equal.
proof fn lemma_digit_ext(a: u64, b: u64, k: u64)
    requires
        1 <= k <= 31,
        a < (1u64 << (2 * k) as u64),
        b < (1u64 << (2 * k) as u64),
        forall|j: u64| j < k ==> (#[trigger] ((a >> (2 * j) as u64) & 3)) == ((b >> (2
            * j) as u64) & 3),
    ensures
        a == b,
    decreases k,
{
    if k == 1 {
        assert(((a >> (2 * 0u64) as u64) & 3) == ((b >> (2 * 0u64) as u64) & 3));
        assert(a < (1u64 << 2u64) && b < (1u64 << 2u64) && ((a >> (2 * 0u64) as u64) & 3 == (b
            >> (2 * 0u64) as u64) & 3) ==> a == b) by (bit_vector);
    } else {
        assert forall|j: u64| j < k - 1 implies (#[trigger] (((a >> 2u64) >> (2 * j) as u64)
            & 3)) == (((b >> 2u64) >> (2 * j) as u64) & 3) by {
            assert(j + 1 < k);
            assert(((a >> 2u64) >> (2 * j) as u64) == (a >> (2 * (j + 1)) as u64) && ((b >> 2u64)
                >> (2 * j) as u64) == (b >> (2 * (j + 1)) as u64)) by (bit_vector)
                requires
                    j < 31u64,
            ;
        }
        assert((a >> 2u64) < (1u64 << (2 * (k - 1)) as u64) && (b >> 2u64) < (1u64 << (2 * (k
            - 1)) as u64)) by (bit_vector)
            requires
                2 <= k <= 31,
                a < (1u64 << (2 * k) as u64),
                b < (1u64 << (2 * k) as u64),
        ;
        lemma_digit_ext(a >> 2u64, b >> 2u64, (k - 1) as u64);
        assert(((a >> (2 * 0u64) as u64) & 3) == ((b >> (2 * 0u64) as u64) & 3));
        assert(((a >> 2u64) == (b >> 2u64) && ((a >> (2 * 0u64) as u64) & 3 == (b
            >> (2 * 0u64) as u64) & 3)) ==> a == b) by (bit_vector);
    }
}

/// The base values of the first `k` decodable nucleotides of `s`, in order;
/// bytes that decode to no base are skipped.
pub open spec fn take_bases(s: Seq<u8>, k: nat) -> Seq<u64>
    decreases s.len(),
{
    if s.len() == 0 || k == 0 {
        Seq::empty()
    } else {
        match spec_from_nuc(s[0]) {
            Some(b) => seq![b] + take_bases(s.drop_first(), (k - 1) as nat),
            None => take_bases(s.drop_first(), k),
        }
    }
}

/// The word obtained by shifting the bases of `bs` in from the right, two
/// bits at a time, onto an initially zero u64.
pub open spec fn word_of_bases(bs: Seq<u64>) -> u64
    decreases bs.len(),
{
    if bs.len() == 0 {
        0u64
    } else {
        ((word_of_bases(bs.drop_last()) << 2u64) | (bs.last() & 3)) as u64
    }
}

/// `take_bases` never yields more than `k` bases, and each is below 4.
proof fn lemma_take_bases_len(s: Seq<u8>, k: nat)
    ensures
        take_bases(s, k).len() <= k,
        forall|i: int| 0 <= i < take_bases(s, k).len() ==> #[trigger] take_bases(s, k)[i] <= 3,
    decreases s.len(),
{
    if s.len() != 0 && k != 0 {
        lemma_take_bases_len(s.drop_first(), (k - 1) as nat);
        lemma_take_bases_len(s.drop_first(), k);
    }
}

/// Appending one byte to the scanned text appends at most one base.
proof fn lemma_take_bases_push(s: Seq<u8>, c: u8, k: nat)
    ensures
        take_bases(s.push(c), k) == if take_bases(s, k).len() < k && spec_from_nuc(c) is Some {
            take_bases(s, k).push(spec_from_nuc(c)->Some_0)
        } else {
            take_bases(s, k)
        },
    decreases s.len(),
{
    lemma_take_bases_len(s, k);
    if s.len() == 0 {
        if k != 0 {
            assert(s.push(c)[0] == c);
            assert(s.push(c).drop_first() =~= Seq::<u8>::empty());
            if spec_from_nuc(c) is Some {
                let b = spec_from_nuc(c)->Some_0;
                assert(spec_from_nuc(s.push(c)[0]) == Some(b));
                assert(take_bases(s.push(c), k) == seq![b] + take_bases(
                    s.push(c).drop_first(),
                    (k - 1) as nat,
                ));
                assert(take_bases(Seq::<u8>::empty(), (k - 1) as nat) =~= Seq::<u64>::empty());
                assert(take_bases(s.push(c), k) =~= take_bases(s, k).push(b));
            } else {
                assert(take_bases(s.push(c), k) == take_bases(s.push(c).drop_first(), k));
                assert(take_bases(s.push(c), k) =~= take_bases(s, k));
            }
        } else {
            assert(take_bases(s.push(c), 0) =~= Seq::<u64>::empty());
        }
    } else {
        assert(s.push(c)[0] == s[0]);
        assert(s.push(c).drop_first() =~= s.drop_first().push(c));
        if k != 0 {
            lemma_take_bases_len(s.drop_first(), (k - 1) as nat);
            if spec_from_nuc(s[0]) is Some {
                let b0 = spec_from_nuc(s[0])->Some_0;
                lemma_take_bases_push(s.drop_first(), c, (k - 1) as nat);
                assert(take_bases(s.push(c), k) == seq![b0] + take_bases(
                    s.drop_first().push(c),
                    (k - 1) as nat,
                ));
                assert(take_bases(s, k) == seq![b0] + take_bases(s.drop_first(), (k - 1) as nat));
                if take_bases(s, k).len() < k && spec_from_nuc(c) is Some {
                    assert(take_bases(s.push(c), k) =~= take_bases(s, k).push(
                        spec_from_nuc(c)->Some_0,
                    ));
                }
            } else {
                lemma_take_bases_push(s.drop_first(), c, k);
                assert(take_bases(s.push(c), k) == take_bases(s.drop_first().push(c), k));
                assert(take_bases(s, k) == take_bases(s.drop_first(), k));
            }
        } else {
            assert(take_bases(s.push(c), 0) =~= Seq::<u64>::empty());
            assert(take_bases(s, 0) =~= Seq::<u64>::empty());
        }
    }
}

/// Once `k` bases have been taken from a prefix, the rest of the text
/// changes nothing.
proof fn lemma_take_bases_saturated(s: Seq<u8>, i: int, k: nat)
    requires
        0 <= i <= s.len(),
        take_bases(s.take(i), k).len() == k,
    ensures
        take_bases(s, k) == take_bases(s.take(i), k),
    decreases s.len() - i,
{
    if i == s.len() {
        assert(s.take(i) =~= s);
    } else {
        assert(s.take(i + 1) =~= s.take(i).push(s[i]));
        lemma_take_bases_push(s.take(i), s[i], k);
        lemma_take_bases_saturated(s, i + 1, k);
    }
}

/// Shifting `k` bases onto a zero word never reaches `2k` bits.
proof fn lemma_word_of_bases_bound(bs: Seq<u64>, k: u64)
    requires
        1 <= k <= 31,
        bs.len() <= k,
    ensures
        word_of_bases(bs) < (1u64 << (2 * k) as u64),
    decreases bs.len(),
{
    if bs.len() == 0 {
        assert(0u64 < (1u64 << (2 * k) as u64)) by (bit_vector)
            requires
                1 <= k <= 31,
        ;
    } else {
        let w = word_of_bases(bs.drop_last());
        let c = bs.last() & 3;
        if bs.len() == 1 {
            assert(w == 0);
            lemma_and_mask_le(bs.last(), 3);
            assert(((0u64 << 2u64) | c) < (1u64 << (2 * k) as u64)) by (bit_vector)
                requires
                    1 <= k <= 31,
                    c <= 3,
            ;
        } else {
            lemma_word_of_bases_bound(bs.drop_last(), (k - 1) as u64);
            lemma_and_mask_le(bs.last(), 3);
            assert(((w << 2u64) | c) < (1u64 << (2 * k) as u64)) by (bit_vector)
                requires
                    2 <= k <= 31,
                    c <= 3,
                    w < (1u64 << (2 * (k - 1)) as u64),
            ;
        }
    }
}

/// The 2-bit groups of `word_of_bases(bs)` are the bases of `bs` in order,
/// most significant first, when every base is below 4.
proof fn lemma_word_of_bases_digits(bs: Seq<u64>, k: u64, i: u64)
    requires
        1 <= k <= 31,
        bs.len() == k,
        forall|j: int| 0 <= j < bs.len() ==> #[trigger] bs[j] <= 3,
        i < k,
    ensures
        nuc_at(word_of_bases(bs), i as int, k as int) == bs[i as int],
    decreases k,
{
    let w = word_of_bases(bs.drop_last());
    let c = bs.last() & 3;
    let full = word_of_bases(bs);
    let l = bs.last();
    assert(bs[bs.len() - 1] <= 3);
    assert(l & 3 == l) by (bit_vector)
        requires
            l <= 3,
    ;
    if i == k - 1 {
        if k == 1 {
            assert(w == 0);
        } else {
            lemma_word_of_bases_bound(bs.drop_last(), (k - 1) as u64);
        }
        assert((((w << 2u64) | c) >> (2 * (k - 1 - i)) as u64) & 3 == c) by (bit_vector)
            requires
                c <= 3,
                i == k - 1,
                k >= 1,
        ;
    } else {
        lemma_word_of_bases_bound(bs.drop_last(), (k - 1) as u64);
        lemma_word_of_bases_digits(bs.drop_last(), (k - 1) as u64, i);
        assert((((w << 2u64) | c) >> (2 * (k - 1 - i)) as u64) & 3 == ((w >> (2 * ((k - 1) - 1
            - i)) as u64) & 3)) by (bit_vector)
            requires
                2 <= k <= 31,
                i < k - 1,
                c <= 3,
                w < (1u64 << (2 * (k - 1)) as u64),
        ;
    }
}

/// The 2-bit groups of `x` as a sequence of `k` bases, most significant
/// base first.
pub open spec fn digits_of(x: u64, k: int) -> Seq<u64> {
    Seq::new(k as nat, |i: int| nuc_at(x, i, k))
}

/// A word below `2k` bits is rebuilt exactly from its own 2-bit groups.
proof fn lemma_word_of_digits_id(x: u64, k: u64)
    requires
        1 <= k <= 31,
        x < (1u64 << (2 * k) as u64),
    ensures
        word_of_bases(digits_of(x, k as int)) == x,
    decreases k,
{
    let digits = digits_of(x, k as int);
    if k == 1 {
        assert(digits.drop_last() =~= Seq::<u64>::empty());
        assert(digits.last() == (x >> (2 * 0) as u64) & 3);
        assert(((0u64 << 2u64) | (((x >> (2 * 0) as u64) & 3) & 3)) == x) by (bit_vector)
            requires
                x < (1u64 << 2u64),
        ;
        assert(word_of_bases(digits) == ((word_of_bases(digits.drop_last()) << 2u64) | (
        digits.last() & 3)));
        assert(word_of_bases(digits) == x);
    } else {
        let y = x >> 2u64;
        assert(y < (1u64 << (2 * (k - 1)) as u64)) by (bit_vector)
            requires
                2 <= k <= 31,
                x < (1u64 << (2 * k) as u64),
                y == x >> 2u64,
        ;
        lemma_word_of_digits_id(y, (k - 1) as u64);
        let ydigits = digits_of(y, (k - 1) as int);
        assert forall|i: int| 0 <= i < k - 1 implies digits[i] == ydigits[i] by {
            let iu = i as u64;
            assert(((x >> 2u64) >> (2 * ((k - 1) - 1 - iu)) as u64) == (x >> (2 * (k - 1
                - iu)) as u64)) by (bit_vector)
                requires
                    2 <= k <= 31,
                    iu < k - 1,
            ;
        }
        assert(digits.drop_last() =~= ydigits);
        assert(word_of_bases(digits.drop_last()) == y);
        assert(digits.last() == (x >> (2 * 0) as u64) & 3);
        assert(((y << 2u64) | (((x >> (2 * 0) as u64) & 3) & 3)) == x) by (bit_vector)
            requires
                y == x >> 2u64,
        ;
        assert(word_of_bases(digits) == ((y << 2u64) | (((x >> (2 * 0) as u64) & 3) & 3)));
    }
}

/// Every decodable base of `s`, in order, with other bytes skipped.
pub open spec fn all_bases(s: Seq<u8>) -> Seq<u64>
    decreases s.len(),
{
    if s.len() == 0 {
        Seq::empty()
    } else {
        match spec_from_nuc(s.last()) {
            Some(b) => all_bases(s.drop_last()).push(b),
            None => all_bases(s.drop_last()),
        }
    }
}

/// Every base yielded by `all_bases` is below 4.
proof fn lemma_all_bases_le3(s: Seq<u8>)
    ensures
        forall|i: int| 0 <= i < all_bases(s).len() ==> #[trigger] all_bases(s)[i] <= 3,
    decreases s.len(),
{
    if s.len() != 0 {
        lemma_all_bases_le3(s.drop_last());
        let prev = all_bases(s.drop_last());
        assert forall|i: int| 0 <= i < all_bases(s).len() implies #[trigger] all_bases(s)[i]
            <= 3 by {
            if i < prev.len() {
                assert(all_bases(s)[i] == prev[i]);
            }
        }
    }
}

/// Masking a word already below `2k` bits changes nothing.
proof fn lemma_mask_noop(x: u64, kk: u64)
    by (bit_vector)
    requires
        1 <= kk <= 31,
        x < (1u64 << (2 * kk) as u64),
    ensures
        x & (((1u64 << (2 * kk) as u64) - 1) as u64) == x,
{
}

/// Masking before a two-bit shift-in gives the same low `2k` bits as
/// masking only afterwards.
proof fn lemma_masked_shift2(w: u64, b: u64, kk: u64)
    by (bit_vector)
    requires
        1 <= kk <= 31,
    ensures
        ((((w & (((1u64 << (2 * kk) as u64) - 1) as u64)) << 2u64) | b) & (((1u64 << (2
            * kk) as u64) - 1) as u64)) == (((w << 2u64) | b) & (((1u64 << (2 * kk) as u64)
            - 1) as u64)),
{
}

/// The ASCII spelling of the low `k` bases of `x`, most significant first.
pub open spec fn nucs_of(x: u64, k: int) -> Seq<u8> {
    Seq::new(k as nat, |i: int| spec_to_nuc(nuc_at(x, i, k)))
}

/// On a text of exactly `k` decodable nucleotides, `take_bases` is the
/// pointwise decoding.
proof fn lemma_take_bases_all_valid(s: Seq<u8>, k: nat)
    requires
        s.len() == k,
        forall|i: int| 0 <= i < s.len() ==> (#[trigger] spec_from_nuc(s[i])) is Some,
    ensures
        take_bases(s, k).len() == k,
        forall|i: int|
            0 <= i < k ==> #[trigger] take_bases(s, k)[i] == spec_from_nuc(s[i])->Some_0,
    decreases k,
{
    if k != 0 {
        lemma_take_bases_all_valid(s.drop_first(), (k - 1) as nat);
        let b0 = spec_from_nuc(s[0])->Some_0;
        assert(take_bases(s, k) == seq![b0] + take_bases(s.drop_first(), (k - 1) as nat));
        assert forall|i: int| 0 <= i < k implies #[trigger] take_bases(s, k)[i] == spec_from_nuc(
            s[i],
        )->Some_0 by {
            if i > 0 {
                assert(take_bases(s, k)[i] == take_bases(s.drop_first(), (k - 1) as nat)[i - 1]);
                assert(s.drop_first()[i - 1] == s[i]);
            }
        }
    }
}

/// Decoding the spelling of a well-formed word gives the word back.
pub proof fn lemma_nucs_round_trip(x: u64, k: usize)
    requires
        valid_k(k),
        x <= spec_mask(k),
    ensures
        word_of_bases(take_bases(nucs_of(x, k as int), k as nat)) == x,
{
    let kk = k as u64;
    let nucs = nucs_of(x, k as int);
    assert(x < (1u64 << (2 * kk) as u64)) by (bit_vector)
        requires
            1 <= kk <= 31,
            x <= ((1u64 << (2 * kk) as u64) - 1) as u64,
    ;
    assert forall|i: int| 0 <= i < nucs.len() implies (#[trigger] spec_from_nuc(
        nucs[i],
    )) is Some by {
        lemma_and_mask_le(x >> (2 * (k - 1 - i)) as u64, 3);
    }
    lemma_take_bases_all_valid(nucs, k as nat);
    assert forall|i: int| 0 <= i < k implies #[trigger] take_bases(nucs, k as nat)[i] == digits_of(
        x,
        k as int,
    )[i] by {
        lemma_and_mask_le(x >> (2 * (k - 1 - i)) as u64, 3);
    }
    assert(take_bases(nucs, k as nat) =~= digits_of(x, k as int));
    lemma_word_of_digits_id(x, kk);
}

/// Spelling the word decoded from `k` valid nucleotides gives the text back.
pub proof fn lemma_word_round_trip(s: Seq<u8>, k: usize)
    requires
        valid_k(k),
        s.len() == k,
        forall|i: int| 0 <= i < s.len() ==> (#[trigger] spec_from_nuc(s[i])) is Some,
    ensures
        nucs_of(word_of_bases(take_bases(s, k as nat)), k as int) == s,
{
    let kk = k as u64;
    let bs = take_bases(s, k as nat);
    let w = word_of_bases(bs);
    lemma_take_bases_all_valid(s, k as nat);
    lemma_take_bases_len(s, k as nat);
    lemma_word_of_bases_bound(bs, kk);
    assert forall|i: int| 0 <= i < k implies #[trigger] nucs_of(w, k as int)[i] == s[i] by {
        lemma_word_of_bases_digits(bs, kk, i as u64);
        assert(bs[i] == spec_from_nuc(s[i])->Some_0);
    }
    assert(nucs_of(w, k as int) =~= s);
}

/// Reverse complement is an involution on well-formed `2k`-bit values.
pub proof fn lemma_rev_comp_involutive(x: u64, k: usize)
    requires
        valid_k(k),
        x <= spec_mask(k),
    ensures
        spec_rev_comp(spec_rev_comp(x, k as nat), k as nat) == x,
{
    let kk = k as u64;
    let r1 = spec_rev_comp(x, k as nat);
    let r2 = spec_rev_comp(r1, k as nat);
    assert(x < (1u64 << (2 * kk) as u64)) by (bit_vector)
        requires
            1 <= kk <= 31,
            x <= ((1u64 << (2 * kk) as u64) - 1) as u64,
    ;
    lemma_spec_rc_digit(x, kk, 0);
    lemma_spec_rc_digit(r1, kk, 0);
    assert forall|j: u64| j < kk implies (#[trigger] ((r2 >> (2 * j) as u64) & 3)) == ((x >> (2
        * j) as u64) & 3) by {
        lemma_spec_rc_digit(r1, kk, j);
        lemma_spec_rc_digit(x, kk, (kk - 1 - j) as u64);
        lemma_and_mask_le(x >> (2 * j) as u64, 3);
    }
    lemma_digit_ext(r2, x, kk);
}

/// Decode one ASCII nucleotide.
pub fn from_nuc(b: &u8) -> (r: Option<u64>)
    ensures
        r == spec_from_nuc(*b),
{
    match *b {
        65u8 | 67u8 | 71u8 | 84u8 => Some((((*b as u64) / 3) - 1) % 4),
        _ => None,
    }
}

/// Encode a base value below 4 as its ASCII nucleotide.
pub fn to_nuc(x: u64) -> (r: u8)
    requires
        x < 4,
    ensures
        r == spec_to_nuc(x),
{
    if x == 0 {
        65
    } else if x == 1 {
        67
    } else if x == 2 {
        71
    } else {
        84
    }
}

/// A k-mer of `K` bases, packed two bits per base in the low `2K` bits.
#[derive(Clone, Copy, Debug, PartialEq, Eq, Hash)]
pub struct Kmer<const K: usize>(u64);

impl<const K: usize> Kmer<K> {
    /// The packed integer value.
    pub closed spec fn spec_int(self) -> u64 {
        self.0
    }

    /// All bits above position 2K are clear.
    pub open spec fn wf(self) -> bool {
        self.spec_int() <= spec_mask(K)
    }

    /// Low `2K` bits set: every well-formed k-mer value is at most this.
    pub fn mask() -> (r: u64)
        requires
            valid_k(K),
        ensures
            r == spec_mask(K),
    {
        let s = (2 * K) as u64;
        proof {
            assert(1u64 << s >= 1) by (bit_vector)
                requires
                    s <= 62,
            ;
        }
        (1u64 << s) - 1
    }

    /// The zero k-mer (all bases A).
    pub fn new() -> (r: Self)
        ensures
            r.spec_int() == 0,
    {
        Kmer(0)
    }

    /// The k-mer with packed value `s`.
    pub fn from_int(s: u64) -> (r: Self)
        ensures
            r.spec_int() == s,
    {
        Kmer(s)
    }

    /// The packed value.
    pub fn to_int(self) -> (r: u64)
        ensures
            r == self.spec_int(),
    {
        self.0
    }

    /// Shift the k-mer left one base and bring `base` in at the low end,
    /// without masking: bits may move above position 2K.
    pub fn extend(self, base: u64) -> (r: Self)
        ensures
            r.spec_int() == ((self.spec_int() << 2u64) | base),
    {
        Kmer((self.0 << 2u64) | base)
    }

    /// Shift one base in at the low end and mask back to 2K bits.
    pub fn append(self, base: u64) -> (r: Self)
        requires
            valid_k(K),
        ensures
            r.spec_int() == (((self.spec_int() << 2u64) | base) & spec_mask(K)),
            r.wf(),
    {
        let m = Self::mask();
        let r = ((self.0 << 2u64) | base) & m;
        proof {
            lemma_and_mask_le(((self.spec_int() << 2u64) | base), m);
        }
        Kmer(r)
    }

    /// The reverse complement: the order of the K 2-bit groups reversed and
    /// every group complemented. Computed by complementing the whole word,
    /// swapping its bytes, then the nibbles within each byte, then the bit
    /// pairs within each nibble, and dropping the `64 - 2K` padding bits.
    pub fn rev_comp(self) -> (r: Self)
        requires
            valid_k(K),
            self.wf(),
        ensures
            r.wf(),
            r.spec_int() == spec_rev_comp(self.spec_int(), K as nat),
    {
        let x = self.0;
        let y = !x.swap_bytes();
        let a = ((y >> 4u64) & 0x0F0F_0F0F_0F0F_0F0Fu64) | ((y & 0x0F0F_0F0F_0F0F_0F0Fu64)
            << 4u64);
        let b = ((a >> 2u64) & 0x3333_3333_3333_3333u64) | ((a & 0x3333_3333_3333_3333u64)
            << 2u64);
        let r = b >> (2 * (32 - K)) as u64;
        proof {
            let kk = K as u64;
            assert(y == !spec_swap_bytes(x));
            assert(r == rc_pipeline(x, kk));
            assert(x < (1u64 << (2 * kk) as u64)) by (bit_vector)
                requires
                    1 <= kk <= 31,
                    x <= ((1u64 << (2 * kk) as u64) - 1) as u64,
            ;
            lemma_rc_pipeline_digit(x, kk, 0);
            lemma_spec_rc_digit(x, kk, 0);
            assert forall|j: u64| j < kk implies (#[trigger] ((r >> (2 * j) as u64) & 3)) == ((
            spec_rev_comp(x, K as nat) >> (2 * j) as u64) & 3) by {
                lemma_rc_pipeline_digit(x, kk, j);
                lemma_spec_rc_digit(x, kk, j);
            }
            lemma_digit_ext(r, spec_rev_comp(x, K as nat), kk);
            let rc = spec_rev_comp(x, K as nat);
            let m = spec_mask(K);
            assert(rc <= m) by (bit_vector)
                requires
                    1 <= kk <= 31,
                    rc < (1u64 << (2 * kk) as u64),
                    m == ((1u64 << (2 * kk) as u64) - 1) as u64,
            ;
        }
        Kmer(r)
    }

    /// The smaller of this k-mer and its reverse complement, by integer value.
    pub fn canonical(self) -> (r: Self)
        requires
            valid_k(K),
            self.wf(),
        ensures
            r.wf(),
            r.spec_int() == if self.spec_int() <= spec_rev_comp(self.spec_int(), K as nat) {
                self.spec_int()
            } else {
                spec_rev_comp(self.spec_int(), K as nat)
            },
    {
        let rc = self.rev_comp();
        if self.0 <= rc.0 {
            self
        } else {
            rc
        }
    }

    /// Decode the first K valid nucleotides of `nucs`, skipping other bytes.
    /// With fewer than K valid nucleotides the result holds just those, so an
    /// all-invalid text gives the zero k-mer.
    pub fn from_nucs(nucs: &[u8]) -> (r: Self)
        requires
            valid_k(K),
        ensures
            r.spec_int() == word_of_bases(take_bases(nucs@, K as nat)),
    {
        let ghost whole = nucs@;
        let mut kmer = Kmer(0u64);
        let mut count: usize = 0;
        let mut i: usize = 0;
        proof {
            assert(whole.take(0) =~= Seq::<u8>::empty());
        }
        while i < nucs.len() && count < K
            invariant
                valid_k(K),
                whole == nucs@,
                0 <= i <= whole.len(),
                count == take_bases(whole.take(i as int), K as nat).len(),
                count <= K,
                kmer.spec_int() == word_of_bases(take_bases(whole.take(i as int), K as nat)),
            decreases whole.len() - i,
        {
            let ghost tb = take_bases(whole.take(i as int), K as nat);
            proof {
                lemma_take_bases_push(whole.take(i as int), whole[i as int], K as nat);
                assert(whole.take(i as int + 1) =~= whole.take(i as int).push(whole[i as int]));
            }
            match from_nuc(&nucs[i]) {
                Some(b) => {
                    proof {
                        assert(b <= 3);
                        lemma_low2_noop(b);
                        assert(take_bases(whole.take(i as int + 1), K as nat) == tb.push(b));
                        assert(tb.push(b).drop_last() =~= tb);
                        assert(word_of_bases(tb.push(b)) == ((word_of_bases(tb) << 2u64) | (b
                            & 3)));
                    }
                    kmer = kmer.extend(b);
                    count = count + 1;
                },
                None => {
                    proof {
                        assert(take_bases(whole.take(i as int + 1), K as nat) == tb);
                    }
                },
            }
            i = i + 1;
        }
        proof {
            if count == K {
                lemma_take_bases_saturated(whole, i as int, K as nat);
            } else {
                assert(whole.take(i as int) =~= whole);
            }
        }
        kmer
    }

    /// The ASCII spelling of this k-mer, most significant base first.
    pub fn to_nucs(self) -> (r: Vec<u8>)
        requires
            valid_k(K),
            self.wf(),
        ensures
            r@ == nucs_of(self.spec_int(), K as int),
    {
        let mut res: Vec<u8> = Vec::new();
        let mut i: usize = 0;
        while i < K
            invariant
                valid_k(K),
                i <= K,
                res@.len() == i,
                forall|j: int|
                    0 <= j < i ==> res@[j] == spec_to_nuc(nuc_at(self.spec_int(), j, K as int)),
            decreases K - i,
        {
            let sh = (2 * (K - 1 - i)) as u64;
            let d = (self.0 >> sh) & 3;
            proof {
                lemma_and_mask_le(self.0 >> sh, 3);
            }
            res.push(to_nuc(d));
            i = i + 1;
        }
        proof {
            assert(res@ =~= nucs_of(self.spec_int(), K as int));
        }
        res
    }

    /// The K - M + 1 overlapping sub-k-mers of length M, from the most
    /// significant position to the least.
    pub fn submers<const M: usize>(self) -> (r: Vec<Kmer<M>>)
        requires
            valid_k(K),
            valid_k(M),
            M <= K,
        ensures
            r@.len() == K - M + 1,
            forall|j: int|
                0 <= j < r@.len() ==> (#[trigger] r@[j]).spec_int() == ((self.spec_int() >> (2 * (K
                    - M - j)) as u64) & spec_mask(M)),
            forall|j: int| 0 <= j < r@.len() ==> (#[trigger] r@[j]).wf(),
    {
        let m = Kmer::<M>::mask();
        let mut res: Vec<Kmer<M>> = Vec::new();
        let mut j: usize = 0;
        while j < K - M + 1
            invariant
                valid_k(K),
                valid_k(M),
                M <= K,
                m == spec_mask(M),
                j <= K - M + 1,
                res@.len() == j,
                forall|t: int|
                    0 <= t < j ==> (#[trigger] res@[t]).spec_int() == ((self.spec_int() >> (2 * (K
                        - M - t)) as u64) & spec_mask(M)),
                forall|t: int| 0 <= t < j ==> (#[trigger] res@[t]).wf(),
            decreases K - M + 1 - j,
        {
            let sh = (2 * (K - M - j)) as u64;
            let v = (self.0 >> sh) & m;
            proof {
                lemma_and_mask_le(self.0 >> sh, m);
            }
            res.push(Kmer::<M>(v));
            j = j + 1;
        }
        res
    }

    /// The four k-mers reached by appending one base.
    pub fn successors(self) -> (r: [Self; 4])
        requires
            valid_k(K),
        ensures
            forall|b: int|
                0 <= b < 4 ==> (#[trigger] r[b]).spec_int() == (((self.spec_int() << 2u64) | (
                b as u64)) & spec_mask(K)),
    {
        [self.append(0), self.append(1), self.append(2), self.append(3)]
    }

    /// A rolling decoder over `nucs`: the first item appears once K valid
    /// nucleotides have been read, later items advance one base at a time.
    pub fn iter_from_nucs<'a>(nucs: &'a [u8]) -> (r: KmerIterator<'a, K>)
        ensures
            r.wf_iter(),
            !r.spec_init(),
            r.spec_nucs() == nucs@,
            r.spec_idx() == 0,
    {
        KmerIterator { kmer: Kmer(0), nucs, idx: 0, init: false }
    }
}

/// A lazy stream of k-mers over a byte text; bytes that are not nucleotides
/// are skipped.
pub struct KmerIterator<'a, const K: usize> {
    kmer: Kmer<K>,
    nucs: &'a [u8],
    idx: usize,
    init: bool,
}

impl<'a, const K: usize> KmerIterator<'a, K> {
    /// The text this iterator reads.
    pub closed spec fn spec_nucs(self) -> Seq<u8> {
        self.nucs@
    }

    /// How many bytes have been consumed.
    pub closed spec fn spec_idx(self) -> int {
        self.idx as int
    }

    /// Whether the initial window of K bases has been read.
    pub closed spec fn spec_init(self) -> bool {
        self.init
    }

    /// The bases decoded so far.
    pub open spec fn seen(self) -> Seq<u64> {
        all_bases(self.spec_nucs().take(self.spec_idx()))
    }

    /// The iterator's kmer always holds the low 2K bits of the word built
    /// from every base seen so far.
    pub closed spec fn wf_iter(self) -> bool {
        &&& self.idx <= self.nucs@.len()
        &&& (self.init ==> self.kmer.spec_int() == (word_of_bases(self.seen()) & spec_mask(K)))
        &&& (!self.init ==> self.idx == 0)
    }

    /// The next k-mer: the first call reads K valid nucleotides, later calls
    /// slide the window by one. Returns nothing once the text has no further
    /// valid nucleotide to offer.
    pub fn next(&mut self) -> (r: Option<Kmer<K>>)
        requires
            valid_k(K),
            old(self).wf_iter(),
        ensures
            final(self).wf_iter(),
            final(self).spec_nucs() == old(self).spec_nucs(),
            match r {
                Some(km) => {
                    &&& km.spec_int() == (word_of_bases(final(self).seen()) & spec_mask(K))
                    &&& final(self).seen().len() == if old(self).spec_init() {
                        old(self).seen().len() as int + 1
                    } else {
                        K as int
                    }
                    &&& final(self).spec_init()
                },
                None => {
                    &&& final(self).spec_idx() == final(self).spec_nucs().len()
                    &&& all_bases(final(self).spec_nucs()).len() < if old(self).spec_init() {
                        old(self).seen().len() as int + 1
                    } else {
                        K as int
                    }
                },
            },
    {
        let ghost whole = self.nucs@;
        if !self.init {
            let mut km = Kmer::<K>(0);
            let mut count: usize = 0;
            proof {
                assert(whole.take(0) =~= Seq::<u8>::empty());
            }
            while count < K
                invariant
                    valid_k(K),
                    whole == self.nucs@,
                    whole == old(self).spec_nucs(),
                    !old(self).spec_init(),
                    self.idx <= whole.len(),
                    count <= K,
                    count == all_bases(whole.take(self.idx as int)).len(),
                    km.spec_int() == word_of_bases(all_bases(whole.take(self.idx as int))),
                    self.init == false,
                    self.kmer == old(self).kmer,
                decreases whole.len() - self.idx,
            {
                let ghost sofar = all_bases(whole.take(self.idx as int));
                if self.idx >= self.nucs.len() {
                    self.init = true;
                    self.kmer = km;
                    proof {
                        assert(whole.take(self.idx as int) =~= whole);
                        lemma_all_bases_le3(whole);
                        lemma_word_of_bases_bound(all_bases(whole), K as u64);
                        lemma_mask_noop(word_of_bases(all_bases(whole)), K as u64);
                    }
                    return None;
                }
                let c = self.nucs[self.idx];
                proof {
                    assert(whole.take(self.idx as int + 1) =~= whole.take(self.idx as int).push(
                        c,
                    ));
                    assert(whole.take(self.idx as int + 1).drop_last() =~= whole.take(
                        self.idx as int,
                    ));
                }
                match from_nuc(&c) {
                    Some(b) => {
                        proof {
                            assert(all_bases(whole.take(self.idx as int + 1)) == sofar.push(b));
                            assert(sofar.push(b).drop_last() =~= sofar);
                            lemma_low2_noop(b);
                        }
                        km = km.extend(b);
                        count = count + 1;
                    },
                    None => {
                        proof {
                            assert(all_bases(whole.take(self.idx as int + 1)) == sofar);
                        }
                    },
                }
                self.idx = self.idx + 1;
            }
            self.init = true;
            self.kmer = km;
            proof {
                lemma_all_bases_le3(whole.take(self.idx as int));
                lemma_word_of_bases_bound(all_bases(whole.take(self.idx as int)), K as u64);
                lemma_mask_noop(word_of_bases(all_bases(whole.take(self.idx as int))), K as u64);
            }
            Some(km)
        } else {
            let ghost seen0 = self.seen();
            while self.idx < self.nucs.len()
                invariant
                    valid_k(K),
                    whole == self.nucs@,
                    whole == old(self).spec_nucs(),
                    old(self).spec_init(),
                    seen0 == old(self).seen(),
                    self.idx <= whole.len(),
                    all_bases(whole.take(self.idx as int)) == seen0,
                    self.init,
                    self.kmer == old(self).kmer,
                    self.kmer.spec_int() == (word_of_bases(seen0) & spec_mask(K)),
                decreases whole.len() - self.idx,
            {
                let c = self.nucs[self.idx];
                proof {
                    assert(whole.take(self.idx as int + 1) =~= whole.take(self.idx as int).push(
                        c,
                    ));
                    assert(whole.take(self.idx as int + 1).drop_last() =~= whole.take(
                        self.idx as int,
                    ));
                }
                match from_nuc(&c) {
                    Some(b) => {
                        proof {
                            assert(all_bases(whole.take(self.idx as int + 1)) == seen0.push(b));
                            assert(seen0.push(b).drop_last() =~= seen0);
                            lemma_low2_noop(b);
                            lemma_masked_shift2(word_of_bases(seen0), b, K as u64);
                        }
                        self.idx = self.idx + 1;
                        self.kmer = self.kmer.append(b);
                        return Some(self.kmer);
                    },
                    None => {
                        proof {
                            assert(all_bases(whole.take(self.idx as int + 1)) == seen0);
                        }
                        self.idx = self.idx + 1;
                    },
                }
            }
            proof {
                assert(whole.take(self.idx as int) =~= whole);
            }
            None
        }
    }
}

} // verus!
