use cabanis::bitset::Bits;
use cabanis::codec::{canonical, kmer_space_size, remove_first_bit, revcomp, seq2bit};
use cabanis::graph::kmer::{build_kmermasks, build_subkmer, kmer_graph_lines, KmerGfaLine};
use cabanis::graph::unitig::{assemble, tig_kmer_kmer_tig, tig_kmer_tig};
use cabanis::graph::{Graph, Viewed};
use cabanis::utils::build_tig;

fn solidity(reads: &[&str], k: u8) -> Vec<bool> {
    let mut v = vec![false; kmer_space_size(k) as usize];
    for r in reads {
        for w in r.as_bytes().windows(k as usize) {
            let x = canonical(seq2bit(w), k);
            v[remove_first_bit(x, k) as usize] = true;
        }
    }
    v
}

fn graph_of(reads: &[&str], k: u8, max_deep: u8) -> Graph {
    Graph::new(Bits::from_bools(&solidity(reads, k)), k, max_deep)
}

#[test]
fn masks_keep_the_last_nucleotides() {
    assert_eq!(build_kmermasks(3, 5), vec![0xFF, 0x3F, 0xF]);
    assert_eq!(build_kmermasks(0, 5), Vec::<u64>::new());
}

#[test]
fn subkmers_enumerate_all_words() {
    let t = build_subkmer(2);
    assert_eq!(t.len(), 2);
    assert_eq!(t[0], vec![0, 1, 2, 3]);
    assert_eq!(t[1], (0..16).collect::<Vec<u64>>());
}

#[test]
fn solidity_is_shared_by_both_strands() {
    let g = graph_of(&["ACCTGAT", "GGATTACA"], 5, 2);
    for x in 0..1024u64 {
        assert_eq!(g.is_solid(x), g.is_solid(revcomp(x, 5)));
    }
    assert!(g.is_solid(seq2bit(b"ACCTG")));
    assert!(g.is_solid(seq2bit(b"CAGGT")));
    assert!(!g.is_solid(seq2bit(b"AAAAA")));
}

#[test]
fn neighbours_exclude_self_and_reverse_complement() {
    let g = graph_of(&["ACGTACGTACGTACGTAC", "AAAAACGTAA", "TTTTTCGTAA"], 5, 2);
    for x in 0..1024u64 {
        for r in [g.successors(x), g.predecessors(x)] {
            if let Some((v, depth)) = r {
                assert!(!v.is_empty());
                assert!(depth >= 1 && depth <= 2);
                for n in v {
                    assert_ne!(n, x);
                    assert_ne!(n, revcomp(x, 5));
                    assert!(g.is_solid(n));
                }
            }
        }
    }
}

#[test]
fn immediate_neighbours() {
    let g = graph_of(&["ACCTGAT"], 5, 1);
    assert_eq!(g.successors(seq2bit(b"ACCTG")), Some((vec![seq2bit(b"CCTGA")], 1)));
    assert_eq!(g.predecessors(seq2bit(b"CCTGA")), Some((vec![seq2bit(b"ACCTG")], 1)));
    assert_eq!(g.predecessors(seq2bit(b"ACCTG")), None);
    assert_eq!(g.successors(seq2bit(b"CTGAT")), None);
}

#[test]
fn gap_is_crossed_at_depth_two() {
    let mut v = vec![false; 512];
    v[remove_first_bit(canonical(seq2bit(b"ACCTG"), 5), 5) as usize] = true;
    v[remove_first_bit(canonical(seq2bit(b"CTGAT"), 5), 5) as usize] = true;
    let g1 = Graph::new(Bits::from_bools(&v), 5, 1);
    assert_eq!(g1.successors(seq2bit(b"ACCTG")), None);
    let g2 = Graph::new(Bits::from_bools(&v), 5, 2);
    assert_eq!(g2.successors(seq2bit(b"ACCTG")), Some((vec![seq2bit(b"CTGAT")], 2)));
    assert_eq!(g2.predecessors(seq2bit(b"CTGAT")), Some((vec![seq2bit(b"ACCTG")], 2)));
}

#[test]
fn visited_set_marks_both_strands() {
    let mut v = Viewed::new(512, 5);
    assert!(!v.contains(seq2bit(b"ACCTG")));
    v.insert(seq2bit(b"ACCTG"));
    assert!(v.contains(seq2bit(b"ACCTG")));
    assert!(v.contains(seq2bit(b"CAGGT")));
    assert!(!v.contains(seq2bit(b"CCTGA")));
}

#[test]
fn lone_tip_seed_gives_no_unitig() {
    let g = graph_of(&["ACCTGAT"], 5, 1);
    let mut v = Viewed::new(512, 5);
    let seed = seq2bit(b"ACCTG");
    v.insert(seed);
    assert!(build_tig(seed, 5, &g, &mut v).is_none());
    assert!(v.contains(seed));
    assert!(!v.contains(seq2bit(b"CCTGA")));
}

#[test]
fn middle_seed_spells_the_read() {
    let g = graph_of(&["ACCTGAT"], 5, 1);
    let mut v = Viewed::new(512, 5);
    let seed = seq2bit(b"CCTGA");
    v.insert(seed);
    let (tig, begin, end) = build_tig(seed, 5, &g, &mut v).unwrap();
    assert_eq!(tig, b"ACCTGAT".to_vec());
    assert_eq!(begin, seq2bit(b"ACCTG"));
    assert_eq!(end, seq2bit(b"ATCAG"));
    assert!(v.contains(seq2bit(b"ACCTG")));
    assert!(v.contains(seq2bit(b"CTGAT")));
}

#[test]
fn linear_read_gives_one_unitig() {
    let a = assemble(graph_of(&["ACCTGAT"], 5, 1), 5);
    assert_eq!(a.tigs.len(), 1);
    let t = &a.tigs[0];
    assert_eq!(t.seq, b"ACCTGAT".to_vec());
    assert_eq!(t.tig.id, 0);
    assert_eq!(t.tig.len, 7);
    assert!(!t.tig.circular);
    assert_eq!(t.begin, 91);
    assert_eq!(t.end, 147);
    assert!(a.links.is_empty());
}

#[test]
fn empty_solid_set_gives_nothing() {
    let g = Graph::new(Bits::from_bools(&vec![false; 512]), 5, 1);
    assert!(kmer_graph_lines(5, &g).is_empty());
    let a = assemble(g, 5);
    assert!(a.tigs.is_empty());
    assert!(a.links.is_empty());
}

fn link(from: u64, from_sign: char, to: u64, to_sign: char, overlap: u8) -> (u64, char, u64, char, u8) {
    (from, from_sign, to, to_sign, overlap)
}

#[test]
fn kmer_graph_of_a_linear_read() {
    let g = graph_of(&["ACCTGAT"], 5, 1);
    let lines = kmer_graph_lines(5, &g);
    let mut segs = Vec::new();
    let mut links = Vec::new();
    for l in lines {
        match l {
            KmerGfaLine::Segment { kmer, seq, rc_seq, rc } => segs.push((kmer, seq, rc_seq, rc)),
            KmerGfaLine::Link { from, from_sign, to, to_sign, overlap } => {
                links.push(link(from, from_sign, to, to_sign, overlap))
            }
        }
    }
    assert_eq!(
        segs,
        vec![
            (91, b"ACCTG".to_vec(), b"CAGGT".to_vec(), 318),
            (147, b"ATCAG".to_vec(), b"CTGAT".to_vec(), 434),
            (364, b"CCTGA".to_vec(), b"TCAGG".to_vec(), 591),
        ]
    );
    assert_eq!(
        links,
        vec![
            link(91, '+', 364, '-', 4),
            link(147, '+', 364, '+', 4),
            link(91, '-', 364, '+', 4),
            link(364, '+', 147, '-', 4),
        ]
    );
}

#[test]
fn kmer_graph_overlap_across_a_gap() {
    let mut v = vec![false; 512];
    v[remove_first_bit(canonical(seq2bit(b"ACCTG"), 5), 5) as usize] = true;
    v[remove_first_bit(canonical(seq2bit(b"CTGAT"), 5), 5) as usize] = true;
    let g = Graph::new(Bits::from_bools(&v), 5, 2);
    let lines = kmer_graph_lines(5, &g);
    let overlaps: Vec<u8> = lines
        .iter()
        .filter_map(|l| match l {
            KmerGfaLine::Link { overlap, .. } => Some(*overlap),
            _ => None,
        })
        .collect();
    assert!(!overlaps.is_empty());
    assert!(overlaps.iter().all(|o| *o == 3));
}

#[test]
fn unitigs_are_well_formed_and_links_sound() {
    let reads = ["ACGTACGTACGTACGTAC", "AAAAACGTAA", "TTTTTCGTAA", "GGATTACAGATTC", "CCATGCAATCGG"];
    for max_deep in [1u8, 2] {
        let a = assemble(graph_of(&reads, 5, max_deep), 5);
        for (i, t) in a.tigs.iter().enumerate() {
            assert_eq!(t.tig.id, i);
            assert_eq!(t.tig.len, t.seq.len());
            assert!(t.seq.len() >= 5);
            assert_eq!(canonical(t.begin, 5), t.begin);
            assert_eq!(canonical(t.end, 5), t.end);
            assert_eq!(t.tig.circular, t.begin == t.end);
        }
        for w in a.links.windows(2) {
            assert!(w[0] < w[1]);
        }
        let g = graph_of(&reads, 5, max_deep);
        let spelled = |x: u64| {
            a.tigs.iter().any(|t| {
                t.seq
                    .windows(5)
                    .any(|w| remove_first_bit(canonical(seq2bit(w), 5), 5) == remove_first_bit(canonical(x, 5), 5))
            })
        };
        for x in 0..512u64 {
            if g.is_solid(x) && !spelled(x) {
                let np = g.predecessors(x).map_or(0, |(v, _)| v.len());
                let ns = g.successors(x).map_or(0, |(v, _)| v.len());
                assert!(np < 2 || ns < 2);
            }
        }
        for l in &a.links {
            if l.0 == l.2 {
                assert!(a.tigs[l.0].tig.circular);
                assert_eq!((l.1, l.3), ('-', '+'));
            } else {
                let (u, v) = (&a.tigs[l.0], &a.tigs[l.2]);
                let nu = (u.begin.min(u.end), u.begin.max(u.end));
                let nv = (v.begin.min(v.end), v.begin.max(v.end));
                assert_ne!(nu, nv);
            }
        }
    }
}

#[test]
fn two_runs_give_the_same_output() {
    let reads = ["ACGTACGTACGTACGTAC", "AAAAACGTAA", "TTTTTCGTAA", "GGATTACAGATTC"];
    let a = assemble(graph_of(&reads, 5, 2), 5);
    let b = assemble(graph_of(&reads, 5, 2), 5);
    assert_eq!(a.tigs.len(), b.tigs.len());
    for (x, y) in a.tigs.iter().zip(b.tigs.iter()) {
        assert_eq!(x.seq, y.seq);
        assert_eq!((x.begin, x.end, x.tig), (y.begin, y.end, y.tig));
    }
    assert_eq!(a.links, b.links);
}

#[test]
fn unitigs_joined_through_neighbouring_end_kmers() {
    // TTTCA shares its index with ATTCA, so TTCAG has two predecessors and
    // the read splits after it; the second unitig ends on the end k-mer of
    // the first.
    let a = assemble(graph_of(&["GCATTCAGGC"], 5, 1), 5);
    assert_eq!(a.tigs.len(), 2);
    assert_eq!(a.tigs[0].seq, b"GCATTCAG".to_vec());
    assert_eq!((a.tigs[0].begin, a.tigs[0].end), (seq2bit(b"AATGC"), seq2bit(b"CTGAA")));
    assert_eq!(a.tigs[1].seq, b"GCCTGAA".to_vec());
    assert_eq!((a.tigs[1].begin, a.tigs[1].end), (seq2bit(b"CAGGC"), seq2bit(b"CTGAA")));
    let mut one = tig_kmer_tig(&a.graph);
    one.sort();
    assert_eq!(one, vec![(0, '+', 1, '-'), (1, '+', 0, '-')]);
    assert!(tig_kmer_kmer_tig(&a.graph).is_empty());
    assert_eq!(a.links, vec![(0, '+', 1, '-'), (1, '+', 0, '-')]);
}

#[test]
fn scenario_read_of_reverse_complement_pairs() {
    // ACGTA/TACGT and CGTAC/GTACG are reverse complements: on its other side
    // each k-mer meets only its own reverse complement, which is never a
    // neighbour, so every k-mer is a tip and no walk leaves its seed.
    for read in ["ACGTACGTAC", "ACGTACGTACGTACGTAC"] {
        let a = assemble(graph_of(&[read], 5, 1), 5);
        assert!(a.tigs.is_empty());
        assert!(a.links.is_empty());
    }
}

#[test]
fn scenario_y_junction() {
    let a = assemble(graph_of(&["AAAAACGTAA", "TTTTTCGTAA"], 5, 1), 5);
    let got: Vec<(Vec<u8>, u64, u64, bool)> =
        a.tigs.iter().map(|t| (t.seq.clone(), t.begin, t.end, t.tig.circular)).collect();
    assert_eq!(
        got,
        vec![
            (b"AAACG".to_vec(), 7, 7, true),
            (b"AAACGAA".to_vec(), 7, 112, false),
            (b"AAACGTAA".to_vec(), 7, 480, false),
            (b"CGAAA".to_vec(), 448, 448, true),
        ]
    );
    assert_eq!(a.links, vec![(0, '-', 0, '+'), (1, '-', 2, '+'), (2, '-', 1, '+'), (3, '-', 3, '+')]);
}
