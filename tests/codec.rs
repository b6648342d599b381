use cabanis::codec::{
    canonical, kmer2seq, kmer_space_size, odd_kmer_size, parity_even, remove_first_bit, revcomp,
    seq2bit,
};
use cabanis::utils::{normalize_u64_2tuple, normalize_usize_2tuple};

#[test]
fn seq2bit_packs_two_bits_per_letter() {
    assert_eq!(seq2bit(b"ACGTA"), 120);
    assert_eq!(seq2bit(b"TACGT"), 542);
    assert_eq!(seq2bit(b"acgta"), 120);
    assert_eq!(seq2bit(b""), 0);
    assert_eq!(seq2bit(b"GGGGG"), 1023);
}

#[test]
fn kmer2seq_unpacks() {
    assert_eq!(kmer2seq(120, 5), b"ACGTA".to_vec());
    assert_eq!(kmer2seq(0, 3), b"AAA".to_vec());
    assert_eq!(kmer2seq(318, 5), b"CAGGT".to_vec());
}

#[test]
fn revcomp_reverses_and_complements() {
    assert_eq!(revcomp(seq2bit(b"ACGTA"), 5), seq2bit(b"TACGT"));
    assert_eq!(revcomp(seq2bit(b"ACCTG"), 5), seq2bit(b"CAGGT"));
    assert_eq!(revcomp(seq2bit(b"AAAAA"), 5), seq2bit(b"TTTTT"));
    assert_eq!(revcomp(seq2bit(b"CCC"), 3), seq2bit(b"GGG"));
}

#[test]
fn codec_round_trip_for_every_kmer() {
    for k in [2u8, 3, 5] {
        for x in 0..(2 * kmer_space_size(k)) {
            assert_eq!(seq2bit(&kmer2seq(x, k)), x);
            assert_eq!(revcomp(revcomp(x, k), k), x);
        }
    }
    let x = 0x3FFF_FFFF_FFFF_FFFFu64;
    assert_eq!(seq2bit(&kmer2seq(x, 31)), x);
    assert_eq!(revcomp(revcomp(x, 31), 31), x);
}

#[test]
fn canonical_is_the_smaller_strand() {
    assert_eq!(canonical(542, 5), 120);
    assert_eq!(canonical(120, 5), 120);
    for x in 0..1024u64 {
        assert_eq!(canonical(x, 5), canonical(revcomp(x, 5), 5));
        assert!(canonical(x, 5) <= x);
    }
}

#[test]
fn index_drops_the_highest_bit() {
    assert_eq!(remove_first_bit(542, 5), 30);
    assert_eq!(remove_first_bit(120, 5), 120);
    assert_eq!(remove_first_bit(1023, 5), 511);
}

#[test]
fn space_size_is_half_of_four_to_the_k() {
    assert_eq!(kmer_space_size(5), 512);
    assert_eq!(kmer_space_size(2), 8);
    assert_eq!(kmer_space_size(31), 1u64 << 61);
}

#[test]
fn parity_of_set_bits() {
    assert!(parity_even(0));
    assert!(parity_even(3));
    assert!(!parity_even(7));
    assert!(!parity_even(364));
    assert!(parity_even(591));
}

#[test]
fn even_kmer_size_is_lowered() {
    assert_eq!(odd_kmer_size(6), 5);
    assert_eq!(odd_kmer_size(5), 5);
    assert_eq!(odd_kmer_size(32), 31);
}

#[test]
fn pairs_are_normalized() {
    assert_eq!(normalize_u64_2tuple((5, 2)), (2, 5));
    assert_eq!(normalize_u64_2tuple((2, 5)), (2, 5));
    assert_eq!(normalize_u64_2tuple((3, 3)), (3, 3));
    assert_eq!(normalize_usize_2tuple((9, 1)), (1, 9));
}
