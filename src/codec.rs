//! Two-bit packing of DNA k-mers (`A=00, C=01, T=10, G=11`, last nucleotide in
//! the low bits), reverse complement and canonical form.
use vstd::arithmetic::power2::{pow2, lemma_pow2_adds, lemma_pow2_pos, lemma2_to64, lemma2_to64_rest};
use vstd::arithmetic::div_mod::{
    lemma_breakdown, lemma_div_denominator, lemma_fundamental_div_mod_converse,
};
use vstd::bits::lemma_u64_shl_is_mul;
use vstd::prelude::*;

verus! {

/// `4^n`.
pub open spec fn pow4(n: nat) -> nat {
    pow2(2 * n)
}

/// A k-mer length that fits two bits per nucleotide in a `u64`.
pub open spec fn valid_k(k: u8) -> bool {
    2 <= k <= 31
}

/// A packed k-mer: no bit above position `2k - 1` is set.
pub open spec fn is_kcode(x: u64, k: u8) -> bool {
    x < pow4(k as nat)
}

/// The two-bit code of a nucleotide letter: bits 1 and 2 of its ASCII byte, so
/// that `A/a -> 0`, `C/c -> 1`, `T/t -> 2`, `G/g -> 3`.
pub open spec fn nuc_code(c: u8) -> int {
    (c as int / 2) % 4
}

/// The upper-case letter of a two-bit code.
pub open spec fn nuc_char(v: int) -> u8 {
    if v == 0 {
        65u8
    } else if v == 1 {
        67u8
    } else if v == 2 {
        84u8
    } else {
        71u8
    }
}

/// The complementary nucleotide code (`A <-> T`, `C <-> G`).
pub open spec fn comp(v: int) -> int {
    if v < 2 {
        v + 2
    } else {
        v - 2
    }
}

/// Every element is a two-bit nucleotide code.
pub open spec fn is_digits(s: Seq<int>) -> bool {
    forall|i: int| 0 <= i < s.len() ==> 0 <= #[trigger] s[i] < 4
}

/// The `k` nucleotide codes of `x`, first nucleotide first.
pub open spec fn nucs(x: nat, k: nat) -> Seq<int>
    decreases k,
{
    if k == 0 {
        Seq::empty()
    } else {
        nucs(x / 4, (k - 1) as nat).push((x % 4) as int)
    }
}

/// The number whose base-4 digits, most significant first, are `s`.
pub open spec fn value(s: Seq<int>) -> int
    decreases s.len(),
{
    if s.len() == 0 {
        0
    } else {
        value(s.drop_last()) * 4 + s.last()
    }
}

/// Reverse complement of a sequence of nucleotide codes.
pub open spec fn rc_nucs(s: Seq<int>) -> Seq<int> {
    Seq::new(s.len(), |i: int| comp(s[s.len() - 1 - i]))
}

/// Reverse complement of the k-mer `x`.
pub open spec fn revcomp_spec(x: u64, k: u8) -> u64 {
    value(rc_nucs(nucs(x as nat, k as nat))) as u64
}

/// The smaller of `x` and its reverse complement.
pub open spec fn canonical_spec(x: u64, k: u8) -> u64 {
    let r = revcomp_spec(x, k);
    if x <= r {
        x
    } else {
        r
    }
}

/// `x` is its own canonical form.
pub open spec fn is_canonical(x: u64, k: u8) -> bool {
    canonical_spec(x, k) == x
}

/// The letters of the k-mer `x`.
pub open spec fn kmer_seq(x: u64, k: u8) -> Seq<u8> {
    nucs(x as nat, k as nat).map_values(|v: int| nuc_char(v))
}

/// The packed value of a string of nucleotide letters.
pub open spec fn seq_code(s: Seq<u8>) -> int {
    value(s.map_values(|c: u8| nuc_code(c)))
}

/// Size of the canonical index space, `4^k / 2`.
pub open spec fn space_size(k: u8) -> nat {
    pow2((2 * k - 1) as nat)
}

/// The index of a canonical k-mer: the k-mer with its highest bit dropped.
pub open spec fn index_spec(x: u64, k: u8) -> nat {
    (x as nat) % space_size(k)
}

/// Number of set bits.
pub open spec fn popcount(x: nat) -> nat
    decreases x,
{
    if x == 0 {
        0
    } else {
        x % 2 + popcount(x / 2)
    }
}

pub proof fn lemma_pow4_unfold(n: nat)
    ensures
        pow4(n + 1) == 4 * pow4(n),
        pow4(n) > 0,
{
    lemma_pow2_adds(2, 2 * n);
    lemma2_to64();
    lemma_pow2_pos(2 * n);
}

pub proof fn lemma_pow4_adds(a: nat, b: nat)
    ensures
        pow4(a) * pow4(b) == pow4(a + b),
{
    lemma_pow2_adds(2 * a, 2 * b);
}

pub proof fn lemma_pow4_monotone(a: nat, b: nat)
    requires
        a <= b,
    ensures
        pow4(a) <= pow4(b),
    decreases b - a,
{
    lemma_pow4_unfold(a);
    if a < b {
        lemma_pow4_unfold((b - 1) as nat);
        lemma_pow4_monotone(a, (b - 1) as nat);
    }
}

pub proof fn lemma_pow4_31()
    ensures
        pow4(31) == 0x4000_0000_0000_0000,
        pow2(61) == 0x2000_0000_0000_0000,
{
    lemma2_to64_rest();
}

/// A `valid_k` k-mer space fits in a `u64` with room to spare.
pub proof fn lemma_pow4_bound(k: u8)
    requires
        k <= 31,
    ensures
        pow4(k as nat) <= 0x4000_0000_0000_0000,
{
    lemma_pow4_31();
    lemma_pow4_monotone(k as nat, 31);
}

pub proof fn lemma_space_size(k: u8)
    requires
        1 <= k,
    ensures
        2 * space_size(k) == pow4(k as nat),
{
    lemma_pow2_adds(1, (2 * k - 1) as nat);
    lemma2_to64();
}

pub proof fn lemma_nucs_digits(x: nat, k: nat)
    ensures
        nucs(x, k).len() == k,
        is_digits(nucs(x, k)),
    decreases k,
{
    if k > 0 {
        lemma_nucs_digits(x / 4, (k - 1) as nat);
    }
}

/// Unpacking and packing again gives the k-mer back.
pub proof fn lemma_value_nucs(x: nat, k: nat)
    requires
        x < pow4(k),
    ensures
        value(nucs(x, k)) == x,
    decreases k,
{
    if k == 0 {
        lemma_pow2_pos(0);
        assert(pow4(0) == 1) by {
            lemma2_to64();
        }
    } else {
        let k1 = (k - 1) as nat;
        lemma_pow4_unfold(k1);
        assert(x / 4 < pow4(k1));
        lemma_value_nucs(x / 4, k1);
        assert(nucs(x, k).drop_last() =~= nucs(x / 4, k1));
    }
}

/// Packing digits and unpacking them again gives the digits back.
pub proof fn lemma_nucs_value(s: Seq<int>)
    requires
        is_digits(s),
    ensures
        0 <= value(s) < pow4(s.len()),
        nucs(value(s) as nat, s.len()) =~= s,
    decreases s.len(),
{
    if s.len() == 0 {
        assert(pow4(0) == 1) by {
            lemma2_to64();
        }
    } else {
        let t = s.drop_last();
        lemma_nucs_value(t);
        lemma_pow4_unfold(t.len());
        let v = value(s);
        assert(v / 4 == value(t));
        assert(v % 4 == s.last());
        assert(nucs(v as nat, s.len()) =~= nucs(value(t) as nat, t.len()).push(s.last()));
    }
}

pub proof fn lemma_value_push(s: Seq<int>, d: int)
    ensures
        value(s.push(d)) == value(s) * 4 + d,
{
    assert(s.push(d).drop_last() =~= s);
}

pub proof fn lemma_rc_nucs_involution(s: Seq<int>)
    requires
        is_digits(s),
    ensures
        rc_nucs(rc_nucs(s)) =~= s,
        is_digits(rc_nucs(s)),
{
}

/// The reverse complement of a k-mer is a k-mer.
pub proof fn lemma_revcomp_bound(x: u64, k: u8)
    requires
        k <= 31,
    ensures
        is_kcode(revcomp_spec(x, k), k),
        revcomp_spec(x, k) as int == value(rc_nucs(nucs(x as nat, k as nat))),
{
    lemma_nucs_digits(x as nat, k as nat);
    let r = rc_nucs(nucs(x as nat, k as nat));
    lemma_rc_nucs_involution(nucs(x as nat, k as nat));
    lemma_nucs_value(r);
    lemma_pow4_bound(k);
}

/// Unpacking a k-mer to letters and packing them again gives it back, and the
/// reverse complement is an involution.
pub proof fn lemma_codec_round_trip(x: u64, k: u8)
    requires
        k <= 31,
        is_kcode(x, k),
    ensures
        seq_code(kmer_seq(x, k)) == x,
        revcomp_spec(revcomp_spec(x, k), k) == x,
{
    let n = nucs(x as nat, k as nat);
    lemma_nucs_digits(x as nat, k as nat);
    assert(kmer_seq(x, k).map_values(|c: u8| nuc_code(c)) =~= n) by {
        assert forall|i: int| 0 <= i < n.len() implies nuc_code(nuc_char(#[trigger] n[i])) == n[i] by {
            assert(nuc_code(65u8) == 0 && nuc_code(67u8) == 1 && nuc_code(84u8) == 2 && nuc_code(71u8) == 3);
        }
    }
    lemma_value_nucs(x as nat, k as nat);
    lemma_revcomp_bound(x, k);
    let r = rc_nucs(n);
    lemma_rc_nucs_involution(n);
    lemma_nucs_value(r);
    lemma_revcomp_bound(revcomp_spec(x, k), k);
    assert(nucs(revcomp_spec(x, k) as nat, k as nat) =~= r);
}

/// Canonical forms agree on a k-mer and its reverse complement.
pub proof fn lemma_canonical_revcomp(x: u64, k: u8)
    requires
        k <= 31,
        is_kcode(x, k),
    ensures
        canonical_spec(revcomp_spec(x, k), k) == canonical_spec(x, k),
        is_kcode(canonical_spec(x, k), k),
        is_canonical(canonical_spec(x, k), k),
{
    lemma_codec_round_trip(x, k);
    lemma_revcomp_bound(x, k);
}

/// The k-mer length actually used: an even `k` is lowered to the odd `k - 1`.
pub fn odd_kmer_size(k: u8) -> (r: u8)
    requires
        k >= 1,
    ensures
        r == if k % 2 == 0 {
            (k - 1) as u8
        } else {
            k
        },
        r % 2 == 1,
{
    if k % 2 == 0 {
        k - 1
    } else {
        k
    }
}

/// Packs a string of nucleotide letters, first letter in the high bits.
pub fn seq2bit(seq: &[u8]) -> (r: u64)
    requires
        seq@.len() <= 31,
    ensures
        r as int == seq_code(seq@),
        r < pow4(seq@.len()),
{
    let ghost codes = seq@.map_values(|c: u8| nuc_code(c));
    let mut r: u64 = 0;
    let mut i: usize = 0;
    proof {
        lemma_pow4_bound(31);
        lemma_pow4_monotone(seq@.len(), 31);
        assert(pow4(0) == 1) by {
            lemma2_to64();
        }
    }
    while i < seq.len()
        invariant
            i <= seq@.len() <= 31,
            codes == seq@.map_values(|c: u8| nuc_code(c)),
            r as int == value(codes.take(i as int)),
            r < pow4(i as nat),
            pow4(seq@.len()) <= 0x4000_0000_0000_0000,
        decreases seq@.len() - i,
    {
        let d: u64 = ((seq[i] / 2) % 4) as u64;
        proof {
            lemma_pow4_unfold(i as nat);
            lemma_pow4_monotone((i + 1) as nat, seq@.len());
            assert(codes.take(i + 1) =~= codes.take(i as int).push(codes[i as int]));
            lemma_value_push(codes.take(i as int), codes[i as int]);
        }
        r = r * 4 + d;
        i = i + 1;
    }
    assert(codes.take(i as int) =~= codes);
    r
}

/// The letters of a packed k-mer.
pub fn kmer2seq(kmer: u64, k: u8) -> (r: Vec<u8>)
    requires
        k <= 31,
    ensures
        r@ == kmer_seq(kmer, k),
        r@.len() == k,
{
    let mut r: Vec<u8> = vec![65u8; k as usize];
    let mut y: u64 = kmer;
    let mut i: u8 = 0;
    let ghost tail: Seq<int> = Seq::empty();
    proof {
        lemma_nucs_digits(kmer as nat, k as nat);
    }
    while i < k
        invariant
            i <= k,
            r@.len() == k,
            nucs(kmer as nat, k as nat) == nucs(y as nat, (k - i) as nat) + tail,
            tail.len() == i,
            r@.subrange(k - i, k as int) == tail.map_values(|v: int| nuc_char(v)),
        decreases k - i,
    {
        let d: u64 = y % 4;
        let c: u8 = if d == 0 {
            65u8
        } else if d == 1 {
            67u8
        } else if d == 2 {
            84u8
        } else {
            71u8
        };
        proof {
            let rest = nucs((y / 4) as nat, (k - i - 1) as nat);
            assert(nucs(y as nat, (k - i) as nat) == rest.push(d as int));
            let t2 = seq![d as int] + tail;
            assert(rest.push(d as int) + tail =~= rest + t2);
            tail = t2;
        }
        let ghost old_r = r@;
        r.set((k - i - 1) as usize, c);
        y = y / 4;
        i = i + 1;
        assert(r@.subrange(k - i, k as int) =~= tail.map_values(|v: int| nuc_char(v))) by {
            assert(c == nuc_char(tail[0]));
            assert forall|j: int| 0 < j < i implies #[trigger] r@.subrange(k - i, k as int)[j]
                == old_r.subrange(k - i + 1, k as int)[j - 1] by {}
            assert(tail.subrange(1, i as int) =~= tail.drop_first());
        }
    }
    proof {
        assert(nucs(y as nat, 0) + tail =~= tail);
        assert(r@ =~= r@.subrange(0, k as int));
    }
    r
}

/// Reverse complement: nucleotides in reverse order, each one complemented.
pub fn revcomp(kmer: u64, k: u8) -> (r: u64)
    requires
        k <= 31,
    ensures
        r == revcomp_spec(kmer, k),
        is_kcode(r, k),
{
    let mut r: u64 = 0;
    let mut y: u64 = kmer;
    let mut i: u8 = 0;
    let ghost tail: Seq<int> = Seq::empty();
    proof {
        lemma_pow4_bound(k);
        assert(pow4(0) == 1) by {
            lemma2_to64();
        }
    }
    while i < k
        invariant
            i <= k <= 31,
            nucs(kmer as nat, k as nat) == nucs(y as nat, (k - i) as nat) + tail,
            tail.len() == i,
            is_digits(tail),
            r as int == value(rc_nucs(tail)),
            r < pow4(i as nat),
            pow4(k as nat) <= 0x4000_0000_0000_0000,
        decreases k - i,
    {
        let d: u64 = y % 4;
        let c: u64 = if d < 2 {
            d + 2
        } else {
            d - 2
        };
        proof {
            let rest = nucs((y / 4) as nat, (k - i - 1) as nat);
            assert(nucs(y as nat, (k - i) as nat) == rest.push(d as int));
            let t2 = seq![d as int] + tail;
            assert(rest.push(d as int) + tail =~= rest + t2);
            assert(rc_nucs(t2) =~= rc_nucs(tail).push(c as int));
            lemma_value_push(rc_nucs(tail), c as int);
            lemma_pow4_unfold(i as nat);
            lemma_pow4_monotone((i + 1) as nat, k as nat);
            tail = t2;
        }
        r = r * 4 + c;
        y = y / 4;
        i = i + 1;
    }
    proof {
        assert(nucs(y as nat, 0) + tail =~= tail);
        lemma_revcomp_bound(kmer, k);
    }
    r
}

/// The smaller of a k-mer and its reverse complement.
pub fn canonical(kmer: u64, k: u8) -> (r: u64)
    requires
        k <= 31,
    ensures
        r == canonical_spec(kmer, k),
{
    let rc = revcomp(kmer, k);
    if kmer <= rc {
        kmer
    } else {
        rc
    }
}

/// `4^k / 2`, the number of canonical indices.
pub fn kmer_space_size(k: u8) -> (r: u64)
    requires
        1 <= k <= 31,
    ensures
        r as nat == space_size(k),
        2 * r == pow4(k as nat),
        r > 0,
{
    let shift: u64 = (2 * k - 1) as u64;
    proof {
        lemma2_to64_rest();
        vstd::arithmetic::power2::lemma_pow2_strictly_increases(shift as nat, 62);
        lemma_u64_shl_is_mul(1, shift);
        lemma_space_size(k);
        lemma_pow2_pos(shift as nat);
    }
    1u64 << shift
}

/// The index of a canonical k-mer: its highest bit dropped.
pub fn remove_first_bit(kmer: u64, k: u8) -> (r: u64)
    requires
        1 <= k <= 31,
    ensures
        r as nat == index_spec(kmer, k),
        r < space_size(k),
{
    kmer % kmer_space_size(k)
}

/// Whether the number of set bits is even.
pub fn parity_even(kmer: u64) -> (r: bool)
    ensures
        r == (popcount(kmer as nat) % 2 == 0),
{
    let mut y: u64 = kmer;
    let mut c: u64 = 0;
    while y > 0
        invariant
            popcount(kmer as nat) == c + popcount(y as nat),
            c + y <= kmer,
        decreases y,
    {
        c = c + y % 2;
        y = y / 2;
    }
    c % 2 == 0
}

/// The digits of `a * 4^m + b`, for `b < 4^m`, are those of `a` followed by
/// those of `b`.
pub proof fn lemma_nucs_concat(a: nat, b: nat, d: nat, m: nat)
    requires
        b < pow4(m),
    ensures
        nucs(a * pow4(m) + b, d + m) =~= nucs(a, d) + nucs(b, m),
    decreases m,
{
    if m == 0 {
        assert(pow4(0) == 1) by {
            lemma2_to64();
        }
        assert(b == 0);
        assert(a * pow4(m) + b == a) by (nonlinear_arith)
            requires
                pow4(m) == 1,
                b == 0,
        ;
        assert(nucs(b, 0) =~= Seq::<int>::empty());
        assert(nucs(a, d) + nucs(b, 0) =~= nucs(a, d));
    } else {
        let m1 = (m - 1) as nat;
        lemma_pow4_unfold(m1);
        let p = pow4(m1);
        let x = a * pow4(m) + b;
        let q = a * p + b / 4;
        assert(x == q * 4 + b % 4) by (nonlinear_arith)
            requires
                x == a * pow4(m) + b,
                pow4(m) == 4 * p,
                q == a * p + b / 4,
                b == 4 * (b / 4) + b % 4,
        ;
        lemma_fundamental_div_mod_converse(x as int, 4, q as int, (b % 4) as int);
        assert(b / 4 < p);
        lemma_nucs_concat(a, b / 4, d, m1);
        assert(nucs(x, d + m) == nucs(q, (d + m1) as nat).push((b % 4) as int));
        assert(nucs(b, m) == nucs(b / 4, m1).push((b % 4) as int));
        assert((nucs(a, d) + nucs(b / 4, m1)).push((b % 4) as int) =~= nucs(a, d) + nucs(b / 4, m1).push(
            (b % 4) as int,
        ));
    }
}

/// The first `k - d` digits of a k-mer are the digits of its `k - d`
/// nucleotide prefix.
pub proof fn lemma_nucs_prefix(x: nat, k: nat, d: nat)
    requires
        d <= k,
    ensures
        nucs(x, k).take(k - d) =~= nucs(x / pow4(d), (k - d) as nat),
    decreases d,
{
    lemma_nucs_digits(x, k);
    if d == 0 {
        assert(pow4(0) == 1) by {
            lemma2_to64();
        }
    } else {
        let d1 = (d - 1) as nat;
        lemma_pow4_unfold(d1);
        lemma_nucs_prefix(x / 4, (k - 1) as nat, d1);
        lemma_div_denominator(x as int, 4, pow4(d1) as int);
        assert(nucs(x, k).take(k - d) =~= nucs(x / 4, (k - 1) as nat).take(k - d));
    }
}

/// The last `m` digits of a k-mer of `d + m` nucleotides are the digits of
/// its `m` nucleotide suffix.
pub proof fn lemma_nucs_zero(y: nat)
    ensures
        nucs(y, 0) =~= Seq::<int>::empty(),
{
}

pub proof fn lemma_nucs_suffix(x: nat, d: nat, m: nat)
    ensures
        nucs(x, d + m).skip(d as int) =~= nucs(x % pow4(m), m),
    decreases m,
{
    lemma_nucs_digits(x, d + m);
    if m == 0 {
        assert(nucs(x, d + m).skip(d as int) =~= Seq::<int>::empty());
        lemma_nucs_zero(x % pow4(m));
    } else {
        let m1 = (m - 1) as nat;
        lemma_pow4_unfold(m1);
        let p = pow4(m1);
        lemma_nucs_suffix(x / 4, d, m1);
        lemma_breakdown(x as int, 4, p as int);
        let r = x % pow4(m);
        lemma_fundamental_div_mod_converse(r as int, 4, ((x / 4) % p) as int, (x % 4) as int);
        assert(nucs(x, d + m) == nucs(x / 4, (d + m1) as nat).push((x % 4) as int));
        assert(nucs(x, d + m).skip(d as int) =~= nucs(x / 4, (d + m1) as nat).skip(d as int).push((x % 4) as int));
        assert(nucs(r, m) == nucs(r / 4, m1).push((r % 4) as int));
        assert(r / 4 == (x / 4) % p);
        assert(r % 4 == x % 4);
        assert(nucs(x / 4, (d + m1) as nat).skip(d as int) =~= nucs((x / 4) % p, m1));
        let lhs = nucs(x, d + m).skip(d as int);
        let mid = nucs((x / 4) % p, m1).push((x % 4) as int);
        assert(lhs =~= mid);
        assert(nucs(r, m) == mid);
        assert(lhs =~= nucs(x % pow4(m), m));
    }
}

} // verus!
