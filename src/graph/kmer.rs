//! The gap-tolerant graph of solid k-mers, and the set of k-mers visited while
//! building unitigs.
use itertools::Itertools;
use vstd::arithmetic::power2::{pow2, lemma_pow2_pos};
use vstd::bits::{
    low_bits_mask, lemma_u64_low_bits_mask_is_mod, lemma_u64_shl_is_mul, lemma_u64_shr_is_div,
};
use vstd::prelude::*;

use crate::bitset::{bits_of, Bits};
use crate::codec::{
    canonical, canonical_spec, index_spec, is_canonical, is_kcode, kmer2seq, kmer_seq, parity_even,
    popcount, lemma_canonical_revcomp,
    lemma_codec_round_trip, lemma_pow4_adds, lemma_pow4_bound, lemma_pow4_monotone,
    lemma_pow4_unfold, lemma_revcomp_bound, lemma_space_size, pow4, remove_first_bit, revcomp,
    revcomp_spec, seq2bit, space_size, valid_k,
};

verus! {

/// The successor of `x` at depth `d` (a gap of `d` k-mers) that ends with the
/// `d + 1` nucleotides packed in `s`.
pub open spec fn succ_cand(x: u64, k: u8, d: nat, s: nat) -> int {
    ((x as nat % pow4((k - d - 1) as nat)) * pow4(d + 1) + s) as int
}

/// The predecessor of `x` at depth `d` that starts with the `d + 1` nucleotides
/// packed in `p`.
pub open spec fn pred_cand(x: u64, k: u8, d: nat, p: nat) -> int {
    (p * pow4((k - d - 1) as nat) + x as nat / pow4(d + 1)) as int
}

/// All successor candidates at depth `d`, in the order of their last nucleotides.
pub open spec fn succ_cands(x: u64, k: u8, d: nat) -> Seq<u64> {
    Seq::new(pow4(d + 1), |s: int| succ_cand(x, k, d, s as nat) as u64)
}

/// All predecessor candidates at depth `d`, in the order of their first nucleotides.
pub open spec fn pred_cands(x: u64, k: u8, d: nat) -> Seq<u64> {
    Seq::new(pow4(d + 1), |p: int| pred_cand(x, k, d, p as nat) as u64)
}

pub proof fn lemma_cand_bounds(x: u64, k: u8, d: nat, s: nat)
    requires
        k <= 31,
        d + 1 < k,
        is_kcode(x, k),
        s < pow4(d + 1),
    ensures
        0 <= succ_cand(x, k, d, s) < pow4(k as nat),
        0 <= pred_cand(x, k, d, s) < pow4(k as nat),
{
    let m = (k - d - 1) as nat;
    let a = pow4(m);
    let b = pow4(d + 1);
    lemma_pow4_adds(m, d + 1);
    assert(m + d + 1 == k);
    lemma_pow4_unfold(m);
    lemma_pow4_unfold(d);
    let xn = x as nat;
    assert(xn % a < a);
    assert((xn % a) * b + s < a * b) by (nonlinear_arith)
        requires
            xn % a < a,
            s < b,
            0 <= xn % a,
    ;
    assert(xn / b < a) by (nonlinear_arith)
        requires
            xn < a * b,
            b > 0,
    ;
    assert(s * a + xn / b < a * b) by (nonlinear_arith)
        requires
            xn / b < a,
            s < b,
    ;
}

/// Masks that keep the last `k - d - 1` nucleotides, for `d` in `0..deep`.
pub fn build_kmermasks(deep: u8, k: u8) -> (r: Vec<u64>)
    requires
        valid_k(k),
        deep <= k,
    ensures
        r@.len() == deep,
        forall|d: int| 0 <= d < deep ==> #[trigger] r@[d] == pow4((k - d - 1) as nat) - 1,
{
    let mut kmermasks: Vec<u64> = Vec::new();
    proof {
        lemma_pow4_bound(k);
        lemma_pow4_unfold(0);
    }
    let mut mask: u64 = (crate::codec::kmer_space_size(k) * 2 - 1) as u64;
    let mut i: u8 = 0;
    while i < deep
        invariant
            valid_k(k),
            deep <= k,
            i <= deep,
            mask == pow4((k - i) as nat) - 1,
            kmermasks@.len() == i,
            forall|d: int| 0 <= d < i ==> #[trigger] kmermasks@[d] == pow4((k - d - 1) as nat) - 1,
        decreases deep - i,
    {
        proof {
            lemma_pow4_unfold((k - i - 1) as nat);
        }
        mask = mask / 4;
        kmermasks.push(mask);
        i = i + 1;
    }
    kmermasks
}

/// Relies on itertools' `multi_cartesian_product`: over `n` copies of a
/// four-letter alphabet it yields the `4^n` words of length `n` in
/// lexicographic order, the last position varying fastest; so word `i` spells
/// the base-4 digits of `i`.
#[verifier::external_body]
fn alphabet_words(alphabet: &Vec<u8>, n: u8) -> (r: Vec<Vec<u8>>)
    requires
        alphabet@.len() == 4,
        1 <= n <= 31,
    ensures
        r@.len() == pow4(n as nat),
        forall|i: int|
            0 <= i < r@.len() ==> #[trigger] r@[i]@ == crate::codec::nucs(i as nat, n as nat).map_values(
                |v: int| alphabet@[v],
            ),
{
    std::iter::repeat(alphabet.iter().copied()).take(n as usize).multi_cartesian_product().collect()
}

/// For each depth `d` in `0..deep`, the packed codes of all `d + 1`-nucleotide
/// words, in increasing order: entry `i` is `i`.
pub fn build_subkmer(deep: u8) -> (r: Vec<Vec<u64>>)
    requires
        deep < 31,
    ensures
        r@.len() == deep,
        forall|d: int|
            0 <= d < deep ==> #[trigger] r@[d]@ == Seq::new(pow4((d + 1) as nat), |i: int| i as u64),
{
    let nucs: Vec<u8> = vec![65u8, 67u8, 84u8, 71u8];
    let mut kseq: Vec<Vec<u64>> = Vec::new();
    let mut i: u8 = 0;
    while i < deep
        invariant
            deep < 31,
            i <= deep,
            nucs@ == seq![65u8, 67u8, 84u8, 71u8],
            kseq@.len() == i,
            forall|d: int|
                0 <= d < i ==> #[trigger] kseq@[d]@ == Seq::new(pow4((d + 1) as nat), |j: int| j as u64),
        decreases deep - i,
    {
        let length: u8 = i + 1;
        let words = alphabet_words(&nucs, length);
        let mut row: Vec<u64> = Vec::new();
        let mut j: usize = 0;
        while j < words.len()
            invariant
                1 <= length <= 31,
                nucs@ == seq![65u8, 67u8, 84u8, 71u8],
                words@.len() == pow4(length as nat),
                forall|w: int|
                    0 <= w < words@.len() ==> #[trigger] words@[w]@ == crate::codec::nucs(
                        w as nat,
                        length as nat,
                    ).map_values(|v: int| nucs@[v]),
                j <= words@.len(),
                row@ == Seq::new(j as nat, |w: int| w as u64),
            decreases words@.len() - j,
        {
            proof {
                let w = j as int;
                assert(pow4(length as nat) <= pow4(31)) by {
                    lemma_pow4_monotone(length as nat, 31);
                    lemma_pow4_bound(31);
                }
                lemma_codec_round_trip(j as u64, length);
                crate::codec::lemma_nucs_digits(w as nat, length as nat);
                assert(words@[w]@ =~= kmer_seq(j as u64, length));
            }
            let code = seq2bit(words[j].as_slice());
            row.push(code);
            j = j + 1;
            assert(row@ =~= Seq::new(j as nat, |w: int| w as u64));
        }
        kseq.push(row);
        i = i + 1;
    }
    kseq
}

/// The solid k-mers, with the tables used to enumerate neighbours across gaps
/// of up to `max_deep - 1` missing k-mers.
pub struct Graph {
    solidity: Bits,
    kmermasks: Vec<u64>,
    subkmer: Vec<Vec<u64>>,
    max_deep: u8,
    k: u8,
}

impl Graph {
    pub closed spec fn spec_k(&self) -> u8 {
        self.k
    }

    pub closed spec fn spec_max_deep(&self) -> u8 {
        self.max_deep
    }

    /// The solidity bit of each canonical index.
    pub closed spec fn solid_bits(&self) -> Seq<bool> {
        bits_of(self.solidity)
    }

    pub closed spec fn tables_ok(&self) -> bool {
        &&& self.kmermasks@.len() == self.max_deep
        &&& forall|d: int|
            0 <= d < self.max_deep ==> #[trigger] self.kmermasks@[d] == pow4((self.k - d - 1) as nat) - 1
        &&& self.subkmer@.len() == self.max_deep
        &&& forall|d: int|
            0 <= d < self.max_deep ==> #[trigger] self.subkmer@[d]@ == Seq::new(
                pow4((d + 1) as nat),
                |i: int| i as u64,
            )
    }

    pub open spec fn wf(&self) -> bool {
        &&& valid_k(self.spec_k())
        &&& 1 <= self.spec_max_deep() < self.spec_k()
        &&& self.solid_bits().len() == space_size(self.spec_k())
        &&& self.tables_ok()
    }

    /// The solidity bit of the canonical form of `x`.
    pub open spec fn solid_at(&self, x: u64) -> bool {
        self.solid_bits()[index_spec(canonical_spec(x, self.spec_k()), self.spec_k()) as int]
    }

    /// A candidate neighbour `c` of `x` is kept: solid, neither `x` itself nor
    /// its reverse complement.
    pub open spec fn accepts(&self, x: u64, c: u64) -> bool {
        c != x && c != revcomp_spec(x, self.spec_k()) && self.solid_at(c)
    }

    pub open spec fn accept_fn(&self, x: u64) -> spec_fn(u64) -> bool {
        |c: u64| self.accepts(x, c)
    }

    /// The kept successors of `x` at depth `d`.
    pub open spec fn succ_level(&self, x: u64, d: nat) -> Seq<u64> {
        succ_cands(x, self.spec_k(), d).filter(self.accept_fn(x))
    }

    /// The kept predecessors of `x` at depth `d`.
    pub open spec fn pred_level(&self, x: u64, d: nat) -> Seq<u64> {
        pred_cands(x, self.spec_k(), d).filter(self.accept_fn(x))
    }

    /// The first non-empty level of successors from depth `d` on, with its
    /// depth counted from one.
    pub open spec fn first_succ(&self, x: u64, d: nat) -> Option<(Seq<u64>, u8)>
        decreases self.spec_max_deep() - d,
    {
        if d >= self.spec_max_deep() {
            None
        } else if self.succ_level(x, d).len() > 0 {
            Some((self.succ_level(x, d), (d + 1) as u8))
        } else {
            self.first_succ(x, d + 1)
        }
    }

    /// The first non-empty level of predecessors from depth `d` on.
    pub open spec fn first_pred(&self, x: u64, d: nat) -> Option<(Seq<u64>, u8)>
        decreases self.spec_max_deep() - d,
    {
        if d >= self.spec_max_deep() {
            None
        } else if self.pred_level(x, d).len() > 0 {
            Some((self.pred_level(x, d), (d + 1) as u8))
        } else {
            self.first_pred(x, d + 1)
        }
    }

    /// The successors of `x` at the smallest depth that has any, and that depth.
    pub open spec fn successors_spec(&self, x: u64) -> Option<(Seq<u64>, u8)> {
        self.first_succ(x, 0)
    }

    /// The predecessors of `x` at the smallest depth that has any, and that depth.
    pub open spec fn predecessors_spec(&self, x: u64) -> Option<(Seq<u64>, u8)> {
        self.first_pred(x, 0)
    }

    /// A graph over the solidity bits of the `4^k / 2` canonical indices,
    /// looking at most `max_deep` nucleotides ahead.
    pub fn new(solidity: Bits, k: u8, max_deep: u8) -> (r: Self)
        requires
            valid_k(k),
            1 <= max_deep < k,
            bits_of(solidity).len() == space_size(k),
        ensures
            r.wf(),
            r.spec_k() == k,
            r.spec_max_deep() == max_deep,
            r.solid_bits() == bits_of(solidity),
    {
        Graph {
            solidity,
            kmermasks: build_kmermasks(max_deep, k),
            subkmer: build_subkmer(max_deep),
            max_deep,
            k,
        }
    }

    /// Whether the canonical form of `kmer` is solid.
    pub fn is_solid(&self, kmer: u64) -> (r: bool)
        requires
            self.wf(),
            is_kcode(kmer, self.spec_k()),
        ensures
            r == self.solid_at(kmer),
    {
        let idx = remove_first_bit(canonical(kmer, self.k), self.k);
        self.solidity.get(idx)
    }

    /// The solid successors of `kmer` at the smallest depth that has any.
    pub fn successors(&self, kmer: u64) -> (r: Option<(Vec<u64>, u8)>)
        requires
            self.wf(),
            is_kcode(kmer, self.spec_k()),
        ensures
            match r {
                Some((v, depth)) => self.successors_spec(kmer) == Some((v@, depth)),
                None => self.successors_spec(kmer) == None::<(Seq<u64>, u8)>,
            },
    {
        let k = self.k;
        let rc = revcomp(kmer, k);
        let mut deep: u8 = 0;
        while deep < self.max_deep
            invariant
                self.wf(),
                k == self.spec_k(),
                is_kcode(kmer, k),
                rc == revcomp_spec(kmer, k),
                deep <= self.spec_max_deep(),
                self.first_succ(kmer, 0) == self.first_succ(kmer, deep as nat),
            decreases self.spec_max_deep() - deep,
        {
            let m: u8 = k - deep - 1;
            let shift: u64 = (2 * (deep + 1)) as u64;
            let low = kmer & self.kmermasks[deep as usize];
            proof {
                lemma_pow4_bound(k);
                lemma_pow4_adds(m as nat, (deep + 1) as nat);
                lemma_pow2_pos(2 * m as nat);
                lemma_u64_low_bits_mask_is_mod(kmer, 2 * m as nat);
                lemma_pow4_monotone(m as nat, k as nat);
                assert(self.kmermasks@[deep as int] == pow4(m as nat) - 1);
                assert(low_bits_mask(2 * m as nat) == pow2(2 * m as nat) - 1);
                assert(low == (kmer as nat) % pow4(m as nat));
                assert(low * pow4((deep + 1) as nat) <= pow4(k as nat)) by (nonlinear_arith)
                    requires
                        low < pow4(m as nat),
                        pow4(m as nat) * pow4((deep + 1) as nat) == pow4(k as nat),
                ;
                lemma_u64_shl_is_mul(low, shift);
            }
            let prefix = low << shift;
            let subs = &self.subkmer[deep as usize];
            let ghost cands = succ_cands(kmer, k, deep as nat);
            let ghost f = self.accept_fn(kmer);
            let mut exist_kmer: Vec<u64> = Vec::new();
            let mut j: usize = 0;
            while j < subs.len()
                invariant
                    self.wf(),
                    k == self.spec_k(),
                    is_kcode(kmer, k),
                    rc == revcomp_spec(kmer, k),
                    deep < self.spec_max_deep(),
                    prefix as nat == (kmer as nat % pow4((k - deep - 1) as nat)) * pow4((deep + 1) as nat),
                    subs@ == Seq::new(pow4((deep + 1) as nat), |i: int| i as u64),
                    cands == succ_cands(kmer, k, deep as nat),
                    f == self.accept_fn(kmer),
                    j <= subs@.len(),
                    exist_kmer@ == cands.take(j as int).filter(f),
                decreases subs@.len() - j,
            {
                proof {
                    lemma_cand_bounds(kmer, k, deep as nat, j as nat);
                    lemma_pow4_bound(k);
                }
                let next_kmer = prefix + subs[j];
                assert(next_kmer == cands[j as int]);
                let keep = next_kmer != kmer && next_kmer != rc && self.is_solid(next_kmer);
                proof {
                    reveal(Seq::filter);
                    assert(cands.take(j + 1).drop_last() =~= cands.take(j as int));
                }
                if keep {
                    exist_kmer.push(next_kmer);
                }
                j = j + 1;
            }
            assert(cands.take(j as int) =~= cands);
            if exist_kmer.len() > 0 {
                return Some((exist_kmer, deep + 1));
            }
            deep = deep + 1;
        }
        None
    }

    /// The solid predecessors of `kmer` at the smallest depth that has any.
    pub fn predecessors(&self, kmer: u64) -> (r: Option<(Vec<u64>, u8)>)
        requires
            self.wf(),
            is_kcode(kmer, self.spec_k()),
        ensures
            match r {
                Some((v, depth)) => self.predecessors_spec(kmer) == Some((v@, depth)),
                None => self.predecessors_spec(kmer) == None::<(Seq<u64>, u8)>,
            },
    {
        let k = self.k;
        let rc = revcomp(kmer, k);
        let mut deep: u8 = 0;
        while deep < self.max_deep
            invariant
                self.wf(),
                k == self.spec_k(),
                is_kcode(kmer, k),
                rc == revcomp_spec(kmer, k),
                deep <= self.spec_max_deep(),
                self.first_pred(kmer, 0) == self.first_pred(kmer, deep as nat),
            decreases self.spec_max_deep() - deep,
        {
            let m: u8 = k - deep - 1;
            let shift: u64 = (2 * (deep + 1)) as u64;
            let pshift: u64 = (2 * m) as u64;
            proof {
                lemma_pow4_bound(k);
                lemma_pow4_adds(m as nat, (deep + 1) as nat);
                lemma_u64_shr_is_div(kmer, shift);
            }
            let suffix = kmer >> shift;
            let subs = &self.subkmer[deep as usize];
            let ghost cands = pred_cands(kmer, k, deep as nat);
            let ghost f = self.accept_fn(kmer);
            let mut exist_kmer: Vec<u64> = Vec::new();
            let mut j: usize = 0;
            while j < subs.len()
                invariant
                    self.wf(),
                    k == self.spec_k(),
                    m == k - deep - 1,
                    pshift == 2 * m,
                    is_kcode(kmer, k),
                    rc == revcomp_spec(kmer, k),
                    deep < self.spec_max_deep(),
                    suffix as nat == kmer as nat / pow4((deep + 1) as nat),
                    subs@ == Seq::new(pow4((deep + 1) as nat), |i: int| i as u64),
                    cands == pred_cands(kmer, k, deep as nat),
                    f == self.accept_fn(kmer),
                    j <= subs@.len(),
                    exist_kmer@ == cands.take(j as int).filter(f),
                decreases subs@.len() - j,
            {
                proof {
                    lemma_cand_bounds(kmer, k, deep as nat, j as nat);
                    lemma_pow4_bound(k);
                    lemma_pow4_adds(m as nat, (deep + 1) as nat);
                    let p = j as u64;
                    assert(p * pow4(m as nat) <= pow4(k as nat)) by (nonlinear_arith)
                        requires
                            p < pow4((deep + 1) as nat),
                            pow4(m as nat) * pow4((deep + 1) as nat) == pow4(k as nat),
                    ;
                    lemma_u64_shl_is_mul(p, pshift);
                }
                let prefix = subs[j] << pshift;
                let next_kmer = prefix + suffix;
                assert(next_kmer == cands[j as int]);
                let keep = next_kmer != kmer && next_kmer != rc && self.is_solid(next_kmer);
                proof {
                    reveal(Seq::filter);
                    assert(cands.take(j + 1).drop_last() =~= cands.take(j as int));
                }
                if keep {
                    exist_kmer.push(next_kmer);
                }
                j = j + 1;
            }
            assert(cands.take(j as int) =~= cands);
            if exist_kmer.len() > 0 {
                return Some((exist_kmer, deep + 1));
            }
            deep = deep + 1;
        }
        None
    }
}

/// The position of the canonical form of `x` in a solidity or visited table.
pub open spec fn kmer_index(x: u64, k: u8) -> int {
    index_spec(canonical_spec(x, k), k) as int
}

pub proof fn lemma_kmer_index_bound(x: u64, k: u8)
    ensures
        0 <= kmer_index(x, k) < space_size(k),
{
    lemma_pow2_pos((2 * k - 1) as nat);
}

proof fn lemma_first_succ_accepted(g: Graph, x: u64, d: nat)
    ensures
        match g.first_succ(x, d) {
            Some((v, depth)) => d < depth <= g.spec_max_deep() && forall|i: int|
                0 <= i < v.len() ==> g.accepts(x, #[trigger] v[i]) && (g.wf() && is_kcode(x, g.spec_k())
                    ==> is_kcode(v[i], g.spec_k())),
            None => true,
        },
    decreases g.spec_max_deep() - d,
{
    if d < g.spec_max_deep() {
        let v = g.succ_level(x, d);
        if v.len() > 0 {
            assert forall|i: int| 0 <= i < v.len() implies g.accepts(x, #[trigger] v[i]) && (g.wf()
                && is_kcode(x, g.spec_k()) ==> is_kcode(v[i], g.spec_k())) by {
                let cands = succ_cands(x, g.spec_k(), d);
                cands.lemma_filter_pred(g.accept_fn(x), i);
                if g.wf() && is_kcode(x, g.spec_k()) {
                    assert(cands.filter(g.accept_fn(x)).contains(v[i]));
                    cands.lemma_filter_contains_rev(g.accept_fn(x), v[i]);
                    let j = choose|j: int| 0 <= j < cands.len() && cands[j] == v[i];
                    lemma_cand_bounds(x, g.spec_k(), d, j as nat);
                    lemma_pow4_bound(g.spec_k());
                }
            }
        } else {
            lemma_first_succ_accepted(g, x, d + 1);
        }
    }
}

proof fn lemma_first_pred_accepted(g: Graph, x: u64, d: nat)
    ensures
        match g.first_pred(x, d) {
            Some((v, depth)) => d < depth <= g.spec_max_deep() && forall|i: int|
                0 <= i < v.len() ==> g.accepts(x, #[trigger] v[i]) && (g.wf() && is_kcode(x, g.spec_k())
                    ==> is_kcode(v[i], g.spec_k())),
            None => true,
        },
    decreases g.spec_max_deep() - d,
{
    if d < g.spec_max_deep() {
        let v = g.pred_level(x, d);
        if v.len() > 0 {
            assert forall|i: int| 0 <= i < v.len() implies g.accepts(x, #[trigger] v[i]) && (g.wf()
                && is_kcode(x, g.spec_k()) ==> is_kcode(v[i], g.spec_k())) by {
                let cands = pred_cands(x, g.spec_k(), d);
                cands.lemma_filter_pred(g.accept_fn(x), i);
                if g.wf() && is_kcode(x, g.spec_k()) {
                    assert(cands.filter(g.accept_fn(x)).contains(v[i]));
                    cands.lemma_filter_contains_rev(g.accept_fn(x), v[i]);
                    let j = choose|j: int| 0 <= j < cands.len() && cands[j] == v[i];
                    lemma_cand_bounds(x, g.spec_k(), d, j as nat);
                    lemma_pow4_bound(g.spec_k());
                }
            }
        } else {
            lemma_first_pred_accepted(g, x, d + 1);
        }
    }
}

/// Every neighbour that the graph reports for `x` is solid and is neither `x`
/// itself nor its reverse complement; its depth is between one and `max_deep`.
pub proof fn lemma_neighbours_exclude_self(g: Graph, x: u64)
    requires
        g.wf(),
        is_kcode(x, g.spec_k()),
    ensures
        match g.successors_spec(x) {
            Some((v, depth)) => 1 <= depth <= g.spec_max_deep() && forall|i: int|
                0 <= i < v.len() ==> (#[trigger] v[i]) != x && v[i] != revcomp_spec(x, g.spec_k())
                    && g.solid_at(v[i]) && is_kcode(v[i], g.spec_k()),
            None => true,
        },
        match g.predecessors_spec(x) {
            Some((v, depth)) => 1 <= depth <= g.spec_max_deep() && forall|i: int|
                0 <= i < v.len() ==> (#[trigger] v[i]) != x && v[i] != revcomp_spec(x, g.spec_k())
                    && g.solid_at(v[i]) && is_kcode(v[i], g.spec_k()),
            None => true,
        },
{
    lemma_first_succ_accepted(g, x, 0);
    lemma_first_pred_accepted(g, x, 0);
}

proof fn lemma_first_levels(g: Graph, x: u64, d: nat)
    ensures
        g.first_succ(x, d) is Some ==> d < g.first_succ(x, d)->Some_0.1 <= g.spec_max_deep()
            && g.first_succ(x, d)->Some_0.0 == g.succ_level(x, (g.first_succ(x, d)->Some_0.1 - 1) as nat),
        g.first_pred(x, d) is Some ==> d < g.first_pred(x, d)->Some_0.1 <= g.spec_max_deep()
            && g.first_pred(x, d)->Some_0.0 == g.pred_level(x, (g.first_pred(x, d)->Some_0.1 - 1) as nat),
    decreases g.spec_max_deep() - d,
{
    if d < g.spec_max_deep() {
        lemma_first_levels(g, x, d + 1);
    }
}

/// The `i`-th successor of `x`, reported at depth `depth`, is the candidate of
/// that depth ending with some `depth`-nucleotide word `j`.
pub proof fn lemma_succ_shape(g: Graph, x: u64, i: int)
    requires
        g.successors_spec(x) is Some,
        0 <= i < g.successors_spec(x)->Some_0.0.len(),
    ensures
        1 <= g.successors_spec(x)->Some_0.1 <= g.spec_max_deep(),
        exists|j: nat|
            j < pow4(g.successors_spec(x)->Some_0.1 as nat) && g.successors_spec(x)->Some_0.0[i]
                == #[trigger] succ_cand(x, g.spec_k(), (g.successors_spec(x)->Some_0.1 - 1) as nat, j) as u64,
{
    lemma_first_levels(g, x, 0);
    let depth = g.successors_spec(x)->Some_0.1;
    let d = (depth - 1) as nat;
    let cands = succ_cands(x, g.spec_k(), d);
    let v = g.successors_spec(x)->Some_0.0;
    assert(v == cands.filter(g.accept_fn(x)));
    assert(cands.filter(g.accept_fn(x)).contains(v[i]));
    cands.lemma_filter_contains_rev(g.accept_fn(x), v[i]);
    let j = choose|j: int| 0 <= j < cands.len() && cands[j] == v[i];
    assert(v[i] == succ_cand(x, g.spec_k(), d, j as nat) as u64);
}

/// The `i`-th predecessor of `x`, reported at depth `depth`, is the candidate
/// of that depth starting with some `depth`-nucleotide word `j`.
pub proof fn lemma_pred_shape(g: Graph, x: u64, i: int)
    requires
        g.predecessors_spec(x) is Some,
        0 <= i < g.predecessors_spec(x)->Some_0.0.len(),
    ensures
        1 <= g.predecessors_spec(x)->Some_0.1 <= g.spec_max_deep(),
        exists|j: nat|
            j < pow4(g.predecessors_spec(x)->Some_0.1 as nat) && g.predecessors_spec(x)->Some_0.0[i]
                == #[trigger] pred_cand(x, g.spec_k(), (g.predecessors_spec(x)->Some_0.1 - 1) as nat, j) as u64,
{
    lemma_first_levels(g, x, 0);
    let depth = g.predecessors_spec(x)->Some_0.1;
    let d = (depth - 1) as nat;
    let cands = pred_cands(x, g.spec_k(), d);
    let v = g.predecessors_spec(x)->Some_0.0;
    assert(v == cands.filter(g.accept_fn(x)));
    assert(cands.filter(g.accept_fn(x)).contains(v[i]));
    cands.lemma_filter_contains_rev(g.accept_fn(x), v[i]);
    let j = choose|j: int| 0 <= j < cands.len() && cands[j] == v[i];
    assert(v[i] == pred_cand(x, g.spec_k(), d, j as nat) as u64);
}

/// A predecessor found at depth `d` starts with `d` new letters followed by
/// the first `k - d` letters of `x`.
pub proof fn lemma_pred_spells(x: u64, k: u8, d: nat, j: nat)
    requires
        k <= 31,
        1 <= d < k,
        j < pow4(d),
        is_kcode(x, k),
    ensures
        kmer_seq(pred_cand(x, k, (d - 1) as nat, j) as u64, k) =~= kmer_seq(pred_cand(x, k, (d - 1) as nat, j) as u64, k).take(
            d as int,
        ) + kmer_seq(x, k).take(k - d),
{
    let m = (k - d) as nat;
    lemma_cand_bounds(x, k, (d - 1) as nat, j);
    lemma_pow4_bound(k);
    let p = pred_cand(x, k, (d - 1) as nat, j);
    lemma_pow4_adds(m, d);
    assert(m + d == k);
    lemma_pow4_unfold(m);
    let b = x as nat / pow4(d);
    assert(b < pow4(m)) by (nonlinear_arith)
        requires
            (x as nat) < pow4(m) * pow4(d),
            pow4(d) > 0,
            b == x as nat / pow4(d),
    ;
    crate::codec::lemma_nucs_concat(j, b, d, m);
    crate::codec::lemma_nucs_prefix(x as nat, k as nat, d);
    crate::codec::lemma_nucs_digits(j, d);
    crate::codec::lemma_nucs_digits(x as nat, k as nat);
    assert(p as u64 as nat == j * pow4(m) + b);
    let n = crate::codec::nucs(p as u64 as nat, k as nat);
    assert(n.take(d as int) =~= crate::codec::nucs(j, d));
    let nx = crate::codec::nucs(x as nat, k as nat);
    assert(n =~= n.take(d as int) + nx.take(k - d));
    let f = |v: int| crate::codec::nuc_char(v);
    assert(kmer_seq(p as u64, k) == n.map_values(f));
    assert(kmer_seq(x, k) == nx.map_values(f));
    assert(kmer_seq(p as u64, k).take(d as int) =~= n.take(d as int).map_values(f));
    assert(kmer_seq(x, k).take(k - d) =~= nx.take(k - d).map_values(f));
    assert((n.take(d as int) + nx.take(k - d)).map_values(f) =~= n.take(d as int).map_values(f) + nx.take(k - d).map_values(f));
}

/// A successor found at depth `d` is the last `k - d` letters of `x` followed
/// by `d` new letters.
pub proof fn lemma_succ_spells(x: u64, k: u8, d: nat, j: nat)
    requires
        k <= 31,
        1 <= d < k,
        j < pow4(d),
        is_kcode(x, k),
    ensures
        kmer_seq(succ_cand(x, k, (d - 1) as nat, j) as u64, k) =~= kmer_seq(x, k).skip(d as int) + kmer_seq(
            succ_cand(x, k, (d - 1) as nat, j) as u64,
            k,
        ).skip(k - d),
{
    let m = (k - d) as nat;
    lemma_cand_bounds(x, k, (d - 1) as nat, j);
    lemma_pow4_bound(k);
    let s = succ_cand(x, k, (d - 1) as nat, j);
    assert(m + d == k);
    let a = x as nat % pow4(m);
    crate::codec::lemma_nucs_concat(a, j, m, d);
    crate::codec::lemma_nucs_suffix(x as nat, d, m);
    crate::codec::lemma_nucs_digits(a, m);
    crate::codec::lemma_nucs_digits(x as nat, k as nat);
    assert(s as u64 as nat == a * pow4(d) + j);
    let n = crate::codec::nucs(s as u64 as nat, k as nat);
    assert(n.skip(m as int) =~= crate::codec::nucs(j, d));
    let nx = crate::codec::nucs(x as nat, k as nat);
    assert(n =~= nx.skip(d as int) + n.skip(m as int));
    let f = |v: int| crate::codec::nuc_char(v);
    assert(kmer_seq(s as u64, k) == n.map_values(f));
    assert(kmer_seq(x, k) == nx.map_values(f));
    assert(kmer_seq(s as u64, k).skip(m as int) =~= n.skip(m as int).map_values(f));
    assert(kmer_seq(x, k).skip(d as int) =~= nx.skip(d as int).map_values(f));
    assert((nx.skip(d as int) + n.skip(m as int)).map_values(f) =~= nx.skip(d as int).map_values(f) + n.skip(m as int).map_values(f));
}

/// Two graphs with the same k-mer size, depth bound and solidity bits.
pub open spec fn same_solidity(g1: Graph, g2: Graph) -> bool {
    g1.spec_k() == g2.spec_k() && g1.spec_max_deep() == g2.spec_max_deep() && g1.solid_bits() == g2.solid_bits()
}

proof fn lemma_same_levels(g1: Graph, g2: Graph, x: u64, d: nat)
    requires
        same_solidity(g1, g2),
    ensures
        g1.first_succ(x, d) == g2.first_succ(x, d),
        g1.first_pred(x, d) == g2.first_pred(x, d),
    decreases g1.spec_max_deep() - d,
{
    assert(g1.accept_fn(x) =~= g2.accept_fn(x));
    assert(g1.succ_level(x, d) == g2.succ_level(x, d));
    assert(g1.pred_level(x, d) == g2.pred_level(x, d));
    if d < g1.spec_max_deep() {
        lemma_same_levels(g1, g2, x, d + 1);
    }
}

/// Graphs with the same solidity bits report the same neighbours.
pub proof fn lemma_same_neighbours(g1: Graph, g2: Graph, x: u64)
    requires
        same_solidity(g1, g2),
    ensures
        g1.successors_spec(x) == g2.successors_spec(x),
        g1.predecessors_spec(x) == g2.predecessors_spec(x),
{
    lemma_same_levels(g1, g2, x, 0);
}

/// A k-mer is solid exactly when its reverse complement is.
pub proof fn lemma_solid_revcomp(g: Graph, x: u64)
    requires
        g.wf(),
        is_kcode(x, g.spec_k()),
    ensures
        g.solid_at(x) == g.solid_at(revcomp_spec(x, g.spec_k())),
{
    lemma_canonical_revcomp(x, g.spec_k());
}

/// The set of k-mers already taken into a unitig, indexed like the solidity
/// table.
pub struct Viewed {
    bitvec: Bits,
    k: u8,
}

impl Viewed {
    pub closed spec fn spec_k(&self) -> u8 {
        self.k
    }

    /// The visited bit of each canonical index.
    pub closed spec fn seen(&self) -> Seq<bool> {
        bits_of(self.bitvec)
    }

    pub open spec fn wf(&self) -> bool {
        valid_k(self.spec_k()) && self.seen().len() == space_size(self.spec_k())
    }

    /// Whether the canonical form of `x` has been visited.
    pub open spec fn visited_at(&self, x: u64) -> bool {
        self.seen()[kmer_index(x, self.spec_k())]
    }

    /// An empty set over the `len == 4^k / 2` canonical indices.
    pub fn new(len: u64, k: u8) -> (r: Self)
        requires
            valid_k(k),
            len == space_size(k),
        ensures
            r.wf(),
            r.spec_k() == k,
            r.seen() == Seq::new(len as nat, |i: int| false),
    {
        Viewed { bitvec: Bits::filled(false, len), k }
    }

    /// Whether `kmer` (or its reverse complement) has been visited.
    pub fn contains(&self, kmer: u64) -> (r: bool)
        requires
            self.wf(),
        ensures
            r == self.visited_at(kmer),
            0 <= kmer_index(kmer, self.spec_k()) < self.seen().len(),
    {
        let idx = remove_first_bit(canonical(kmer, self.k), self.k);
        self.bitvec.get(idx)
    }

    /// Marks `kmer` (and its reverse complement) as visited.
    pub fn insert(&mut self, kmer: u64)
        requires
            old(self).wf(),
        ensures
            final(self).wf(),
            final(self).spec_k() == old(self).spec_k(),
            final(self).seen() == old(self).seen().update(kmer_index(kmer, old(self).spec_k()), true),
    {
        let idx = remove_first_bit(canonical(kmer, self.k), self.k);
        self.bitvec.set(idx, true);
    }
}

/// A line of the k-mer graph in GFA.
pub enum KmerGfaLine {
    /// A solid canonical k-mer, its letters, and those and the code of its
    /// reverse complement.
    Segment { kmer: u64, seq: Vec<u8>, rc_seq: Vec<u8>, rc: u64 },
    /// An oriented link with an overlap of `overlap` letters.
    Link { from: u64, from_sign: char, to: u64, to_sign: char, overlap: u8 },
}

/// The view of a GFA line, with letters as sequences.
pub enum KmerGfaView {
    Segment { kmer: u64, seq: Seq<u8>, rc_seq: Seq<u8>, rc: u64 },
    Link { from: u64, from_sign: char, to: u64, to_sign: char, overlap: u8 },
}

impl KmerGfaLine {
    pub open spec fn view(&self) -> KmerGfaView {
        match self {
            KmerGfaLine::Segment { kmer, seq, rc_seq, rc } => KmerGfaView::Segment {
                kmer: *kmer,
                seq: seq@,
                rc_seq: rc_seq@,
                rc: *rc,
            },
            KmerGfaLine::Link { from, from_sign, to, to_sign, overlap } => KmerGfaView::Link {
                from: *from,
                from_sign: *from_sign,
                to: *to,
                to_sign: *to_sign,
                overlap: *overlap,
            },
        }
    }
}

/// The orientation of the other end of a k-mer link: `+` when its code has an
/// even number of set bits.
pub open spec fn parity_sign(x: u64) -> char {
    if popcount(x as nat) % 2 == 0 {
        '+'
    } else {
        '-'
    }
}

/// The link line between `x` and its neighbour `q` found at depth `depth`: from
/// `q` to `x` when `incoming`, from `x` to `q` otherwise.
pub open spec fn link_line(x: u64, q: u64, depth: u8, k: u8, incoming: bool) -> KmerGfaView {
    if incoming {
        KmerGfaView::Link {
            from: canonical_spec(q, k),
            from_sign: parity_sign(q),
            to: x,
            to_sign: '+',
            overlap: (k - depth) as u8,
        }
    } else {
        KmerGfaView::Link {
            from: x,
            from_sign: '+',
            to: canonical_spec(q, k),
            to_sign: parity_sign(q),
            overlap: (k - depth) as u8,
        }
    }
}

/// The lines of the canonical k-mer `x`: its segment, a link from each
/// predecessor, a link to each successor.
pub open spec fn kmer_block(g: Graph, x: u64) -> Seq<KmerGfaView> {
    let k = g.spec_k();
    let rc = revcomp_spec(x, k);
    let seg = KmerGfaView::Segment { kmer: x, seq: kmer_seq(x, k), rc_seq: kmer_seq(rc, k), rc };
    let preds = match g.predecessors_spec(x) {
        Some((v, d)) => v.map_values(|p: u64| link_line(x, p, d, k, true)),
        None => Seq::empty(),
    };
    let succs = match g.successors_spec(x) {
        Some((v, d)) => v.map_values(|q: u64| link_line(x, q, d, k, false)),
        None => Seq::empty(),
    };
    seq![seg] + preds + succs
}

/// The lines of every solid canonical k-mer below `n`, in increasing order.
pub open spec fn kmer_lines_upto(g: Graph, n: nat) -> Seq<KmerGfaView>
    decreases n,
{
    if n == 0 {
        Seq::empty()
    } else {
        let x = (n - 1) as u64;
        let rest = kmer_lines_upto(g, (n - 1) as nat);
        if is_canonical(x, g.spec_k()) && g.solid_at(x) {
            rest + kmer_block(g, x)
        } else {
            rest
        }
    }
}

/// Appends one link line per neighbour.
fn push_kmer_links(lines: &mut Vec<KmerGfaLine>, x: u64, nbrs: &Vec<u64>, depth: u8, k: u8, incoming: bool)
    requires
        k <= 31,
        depth <= k,
    ensures
        final(lines)@.map_values(|l: KmerGfaLine| l.view()) == old(lines)@.map_values(|l: KmerGfaLine| l.view())
            + nbrs@.map_values(|q: u64| link_line(x, q, depth, k, incoming)),
{
    let ghost start = lines@.map_values(|l: KmerGfaLine| l.view());
    let ghost f = |q: u64| link_line(x, q, depth, k, incoming);
    let mut j: usize = 0;
    while j < nbrs.len()
        invariant
            k <= 31,
            depth <= k,
            j <= nbrs@.len(),
            f == (|q: u64| link_line(x, q, depth, k, incoming)),
            lines@.map_values(|l: KmerGfaLine| l.view()) == start + nbrs@.take(j as int).map_values(f),
        decreases nbrs@.len() - j,
    {
        let q = nbrs[j];
        let sign = if parity_even(q) {
            '+'
        } else {
            '-'
        };
        let c = canonical(q, k);
        let line = if incoming {
            KmerGfaLine::Link { from: c, from_sign: sign, to: x, to_sign: '+', overlap: k - depth }
        } else {
            KmerGfaLine::Link { from: x, from_sign: '+', to: c, to_sign: sign, overlap: k - depth }
        };
        let ghost lv = line.view();
        proof {
            assert(sign == parity_sign(q));
            assert(c == canonical_spec(q, k));
            if incoming {
                assert(lv == KmerGfaView::Link { from: c, from_sign: sign, to: x, to_sign: '+', overlap: (k - depth) as u8 });
            } else {
                assert(lv == KmerGfaView::Link { from: x, from_sign: '+', to: c, to_sign: sign, overlap: (k - depth) as u8 });
            }
        }
        assert(lv == f(q));
        let ghost old_lines = lines@;
        lines.push(line);
        proof {
            assert(nbrs@.take(j + 1) =~= nbrs@.take(j as int).push(q));
            assert(nbrs@.take(j + 1).map_values(f) =~= nbrs@.take(j as int).map_values(f).push(f(q)));
            assert(lines@.map_values(|l: KmerGfaLine| l.view()) =~= old_lines.map_values(|l: KmerGfaLine| l.view()).push(lv));
            assert(lines@.map_values(|l: KmerGfaLine| l.view()) =~= start + nbrs@.take(j + 1).map_values(f));
        }
        j = j + 1;
    }
    proof {
        assert(nbrs@.take(j as int) =~= nbrs@);
    }
}

/// The k-mer graph in GFA, line by line: for each solid canonical k-mer in
/// increasing order, its segment, then a link from each predecessor and a link
/// to each successor, with an overlap of `k - depth` letters; the other end
/// of a link is oriented `+` when its code has an even number of set bits.
pub fn kmer_graph_lines(k: u8, solid: &Graph) -> (r: Vec<KmerGfaLine>)
    requires
        solid.wf(),
        k == solid.spec_k(),
    ensures
        r@.map_values(|l: KmerGfaLine| l.view()) == kmer_lines_upto(*solid, crate::codec::pow4(k as nat)),
{
    proof {
        lemma_pow4_bound(k);
    }
    let n: u64 = crate::codec::kmer_space_size(k) * 2;
    let mut lines: Vec<KmerGfaLine> = Vec::new();
    let mut x: u64 = 0;
    while x < n
        invariant
            solid.wf(),
            k == solid.spec_k(),
            n == crate::codec::pow4(k as nat),
            x <= n,
            lines@.map_values(|l: KmerGfaLine| l.view()) == kmer_lines_upto(*solid, x as nat),
        decreases n - x,
    {
        let ghost before = lines@.map_values(|l: KmerGfaLine| l.view());
        let cano = canonical(x, k);
        if cano == x && solid.is_solid(x) {
            let rc = revcomp(x, k);
            let seq = kmer2seq(x, k);
            let rc_seq = kmer2seq(rc, k);
            lines.push(KmerGfaLine::Segment { kmer: x, seq, rc_seq, rc });
            proof {
                lemma_neighbours_exclude_self(*solid, x);
            }
            match solid.predecessors(x) {
                Some((preds, depth)) => {
                    push_kmer_links(&mut lines, x, &preds, depth, k, true);
                },
                None => {},
            }
            match solid.successors(x) {
                Some((succs, depth)) => {
                    push_kmer_links(&mut lines, x, &succs, depth, k, false);
                },
                None => {},
            }
            proof {
                assert(lines@.map_values(|l: KmerGfaLine| l.view()) =~= before + kmer_block(*solid, x));
            }
        }
        x = x + 1;
    }
    lines
}

} // verus!
