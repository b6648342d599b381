//! Unitig extraction: the walk along non-branching paths of the solid k-mer
//! graph, and small helpers on pairs.
use std::collections::HashSet;
use vstd::prelude::*;

use crate::codec::{
    canonical, canonical_spec, is_canonical, is_kcode, kmer2seq, kmer_seq, lemma_canonical_revcomp,
    lemma_codec_round_trip, remove_first_bit, seq_code, space_size,
};
use crate::graph::kmer::{
    kmer_index, lemma_neighbours_exclude_self, lemma_pred_shape, lemma_pred_spells, lemma_succ_shape,
    lemma_succ_spells, pred_cand, succ_cand, Graph, Viewed,
};

verus! {

/// Number of `true` entries.
pub open spec fn count_true(s: Seq<bool>) -> nat
    decreases s.len(),
{
    if s.len() == 0 {
        0
    } else {
        count_true(s.drop_last()) + if s.last() {
            1nat
        } else {
            0nat
        }
    }
}

proof fn lemma_count_true_bound(s: Seq<bool>)
    ensures
        count_true(s) <= s.len(),
    decreases s.len(),
{
    if s.len() > 0 {
        lemma_count_true_bound(s.drop_last());
    }
}

proof fn lemma_count_true_set(s: Seq<bool>, i: int)
    requires
        0 <= i < s.len(),
        !s[i],
    ensures
        count_true(s.update(i, true)) == count_true(s) + 1,
    decreases s.len(),
{
    let t = s.update(i, true);
    if i == s.len() - 1 {
        assert(t.drop_last() =~= s.drop_last());
    } else {
        assert(t.drop_last() =~= s.drop_last().update(i, true));
        lemma_count_true_set(s.drop_last(), i);
    }
}

/// How many neighbours a graph query returned.
pub open spec fn nb_of(r: Option<(Seq<u64>, u8)>) -> nat {
    match r {
        Some((v, _)) => v.len(),
        None => 0,
    }
}

/// The only neighbour, when there is exactly one.
pub open spec fn only_of(r: Option<(Seq<u64>, u8)>) -> u64 {
    match r {
        Some((v, _)) => v[0],
        None => 0,
    }
}

/// The k-mer spelled by the letters `pos .. pos + k` of `s`.
pub open spec fn kmer_at(s: Seq<u8>, pos: int, k: u8) -> u64 {
    seq_code(s.subrange(pos, pos + k)) as u64
}

/// Some k-mer spelled in `s` has the canonical index `i`.
pub open spec fn spells_index(s: Seq<u8>, k: u8, i: int) -> bool {
    exists|pos: int| 0 <= pos <= s.len() - k && #[trigger] kmer_index(kmer_at(s, pos, k), k) == i
}

/// Some k-mer spelled in `s`, ending `e` letters before the end of `s`, has
/// the canonical index `i`.
pub open spec fn spells_index_from_end(s: Seq<u8>, k: u8, i: int) -> bool {
    exists|e: int| 0 <= e <= s.len() - k && #[trigger] kmer_index(kmer_at(s, s.len() - k - e, k), k) == i
}

/// The canonical indices of a walk's own k-mers, as a table over all indices.
pub open spec fn own_of(s: Set<u64>, n: nat) -> Seq<bool> {
    Seq::new(n, |i: int| s.contains(i as u64))
}

proof fn lemma_space_size_fits(k: u8)
    requires
        1 <= k <= 31,
    ensures
        space_size(k) <= u64::MAX,
{
    crate::codec::lemma_pow4_bound(k);
    crate::codec::lemma_space_size(k);
}

proof fn lemma_own_insert(s: Set<u64>, i: u64, n: nat)
    requires
        i < n,
        n <= u64::MAX,
    ensures
        own_of(s.insert(i), n) =~= own_of(s, n).update(i as int, true),
{
}

/// The walk's own k-mers when it starts: only the seed.
pub open spec fn seed_own(g: Graph, seed: u64) -> Seq<bool> {
    Seq::new(space_size(g.spec_k()), |i: int| i == kmer_index(seed, g.spec_k()))
}

/// The walk to the left from `cur`, the k-mers of `own` being those already
/// walked. It steps to the predecessor when `cur` has exactly one predecessor
/// and one successor and that predecessor is not one of its own k-mers.
/// Result: the k-mer where it stops, the letters it prepends (in order), its
/// own k-mers at the end, and the number of predecessors where it stops.
pub open spec fn left_walk(g: Graph, cur: u64, own: Seq<bool>) -> (u64, Seq<u8>, Seq<bool>, nat)
    decreases own.len() - count_true(own),
    via left_walk_decreases
{
    let k = g.spec_k();
    let pr = g.predecessors_spec(cur);
    let p = only_of(pr);
    let i = kmer_index(p, k);
    if nb_of(pr) == 1 && nb_of(g.successors_spec(cur)) == 1 && 0 <= i < own.len() && !own[i] {
        let r = left_walk(g, p, own.update(i, true));
        (r.0, r.1 + kmer_seq(p, k).take(pr->Some_0.1 as int), r.2, r.3)
    } else {
        (cur, Seq::empty(), own, nb_of(pr))
    }
}

#[via_fn]
proof fn left_walk_decreases(g: Graph, cur: u64, own: Seq<bool>) {
    lemma_count_true_bound(own);
    let i = kmer_index(only_of(g.predecessors_spec(cur)), g.spec_k());
    if 0 <= i < own.len() && !own[i] {
        lemma_count_true_set(own, i);
        lemma_count_true_bound(own.update(i, true));
    }
}

/// The walk to the right from `cur`, symmetric to [`left_walk`]. When the
/// only successor is one of its own k-mers, the walk closes on it if it is
/// `begin`, the left end of the unitig, and stops otherwise.
/// Result: the k-mer where it stops, the letters it appends, its own k-mers
/// at the end, and the number of successors where it stops.
pub open spec fn right_walk(g: Graph, cur: u64, begin: u64, own: Seq<bool>) -> (u64, Seq<u8>, Seq<bool>, nat)
    decreases own.len() - count_true(own),
    via right_walk_decreases
{
    let k = g.spec_k();
    let sc = g.successors_spec(cur);
    let s = only_of(sc);
    let i = kmer_index(s, k);
    let added = kmer_seq(s, k).skip(k - sc->Some_0.1);
    if nb_of(sc) == 1 && nb_of(g.predecessors_spec(cur)) == 1 {
        if 0 <= i < own.len() && !own[i] {
            let r = right_walk(g, s, begin, own.update(i, true));
            (r.0, added + r.1, r.2, r.3)
        } else if s == begin {
            (s, added, own, 1)
        } else {
            (cur, Seq::empty(), own, 1)
        }
    } else {
        (cur, Seq::empty(), own, nb_of(sc))
    }
}

#[via_fn]
proof fn right_walk_decreases(g: Graph, cur: u64, begin: u64, own: Seq<bool>) {
    lemma_count_true_bound(own);
    let i = kmer_index(only_of(g.successors_spec(cur)), g.spec_k());
    if 0 <= i < own.len() && !own[i] {
        lemma_count_true_set(own, i);
        lemma_count_true_bound(own.update(i, true));
    }
}

/// The two walks from `seed`: first left, then right.
pub open spec fn walks(g: Graph, seed: u64) -> ((u64, Seq<u8>, Seq<bool>, nat), (u64, Seq<u8>, Seq<bool>, nat)) {
    let l = left_walk(g, seed, seed_own(g, seed));
    (l, right_walk(g, seed, l.0, l.2))
}

/// The k-mers walked from `seed`, seed included, by canonical index.
pub open spec fn walk_own(g: Graph, seed: u64) -> Seq<bool> {
    walks(g, seed).1.2
}

/// The unitig through `seed`: nothing when neither walk moves and the seed has
/// fewer than two predecessors or fewer than two successors where they
/// stopped; otherwise the letters of both walks around those of the seed,
/// with the canonical forms of the k-mers where the walks stopped.
pub open spec fn tig_spec(g: Graph, seed: u64) -> Option<(Seq<u8>, u64, u64)> {
    let (l, r) = walks(g, seed);
    if l.1.len() == 0 && r.1.len() == 0 && (l.3 < 2 || r.3 < 2) {
        None
    } else {
        Some((l.1 + kmer_seq(seed, g.spec_k()) + r.1, canonical_spec(l.0, g.spec_k()), canonical_spec(r.0, g.spec_k())))
    }
}

/// Appends the letters of `kmer` that a step of depth `not_ovl_len` adds: its
/// last `not_ovl_len` letters when walking right; when walking left
/// (`in_front`), its first `not_ovl_len` letters, nearest letter first.
pub fn add_kmer_in_tig(kmer: u64, k: u8, not_ovl_len: u8, tig: &mut Vec<u8>, in_front: bool)
    requires
        k <= 31,
        not_ovl_len <= k,
    ensures
        in_front ==> final(tig)@ == old(tig)@ + kmer_seq(kmer, k).take(not_ovl_len as int).reverse(),
        !in_front ==> final(tig)@ == old(tig)@ + kmer_seq(kmer, k).skip(k - not_ovl_len),
{
    let seq = kmer2seq(kmer, k);
    let ghost start = tig@;
    if in_front {
        let mut i: usize = not_ovl_len as usize;
        while i > 0
            invariant
                i <= not_ovl_len <= k,
                seq@ == kmer_seq(kmer, k),
                seq@.len() == k,
                tig@ == start + seq@.subrange(i as int, not_ovl_len as int).reverse(),
            decreases i,
        {
            i = i - 1;
            tig.push(seq[i]);
            assert(seq@.subrange(i as int, not_ovl_len as int).reverse() =~= seq@.subrange(
                i + 1,
                not_ovl_len as int,
            ).reverse().push(seq@[i as int]));
        }
        assert(seq@.subrange(0, not_ovl_len as int) =~= seq@.take(not_ovl_len as int));
    } else {
        let lo: usize = (k - not_ovl_len) as usize;
        let mut i: usize = lo;
        while i < k as usize
            invariant
                lo == k - not_ovl_len,
                lo <= i <= k,
                seq@ == kmer_seq(kmer, k),
                seq@.len() == k,
                tig@ == start + seq@.subrange(lo as int, i as int),
            decreases k - i,
        {
            tig.push(seq[i]);
            assert(seq@.subrange(lo as int, i + 1) =~= seq@.subrange(lo as int, i as int).push(seq@[i as int]));
            i = i + 1;
        }
        assert(seq@.subrange(k - not_ovl_len, k as int) =~= seq@.skip(k - not_ovl_len));
    }
}

/// One step of the right walk keeps the last `k` letters spelling the
/// current k-mer.
proof fn lemma_right_step(g: Graph, kmer: u64, current: u64, s: u64, depth: u8, old_right: Seq<u8>, new_right: Seq<u8>)
    requires
        g.wf(),
        is_kcode(current, g.spec_k()),
        g.successors_spec(current) is Some,
        g.successors_spec(current)->Some_0.0.len() == 1,
        g.successors_spec(current)->Some_0.0[0] == s,
        g.successors_spec(current)->Some_0.1 == depth,
        (kmer_seq(kmer, g.spec_k()) + old_right).skip(g.spec_k() + old_right.len() - g.spec_k()) == kmer_seq(current, g.spec_k()),
        new_right == old_right + kmer_seq(s, g.spec_k()).skip(g.spec_k() - depth),
    ensures
        (kmer_seq(kmer, g.spec_k()) + new_right).skip(g.spec_k() + new_right.len() - g.spec_k()) == kmer_seq(s, g.spec_k()),
{
    let k = g.spec_k();
    lemma_succ_shape(g, current, 0);
    let j = choose|j: nat| j < crate::codec::pow4(depth as nat)
        && g.successors_spec(current)->Some_0.0[0] == #[trigger] succ_cand(current, k, (depth - 1) as nat, j) as u64;
    lemma_succ_spells(current, k, depth as nat, j);
    crate::codec::lemma_nucs_digits(kmer as nat, k as nat);
    crate::codec::lemma_nucs_digits(s as nat, k as nat);
    crate::codec::lemma_nucs_digits(current as nat, k as nat);
    let r = kmer_seq(kmer, k) + old_right;
    let tail = kmer_seq(s, k).skip(k - depth);
    assert(kmer_seq(kmer, k) + new_right =~= r + tail);
    assert(r.skip(r.len() - k + depth) =~= r.skip(r.len() - k).skip(depth as int));
    assert((r + tail).skip(r.len() + depth - k) =~= r.skip(r.len() - k + depth) + tail);
}

/// A walk keeps the k-mers it started with among its own.
pub proof fn lemma_left_own_grows(g: Graph, cur: u64, own: Seq<bool>)
    ensures
        left_walk(g, cur, own).2.len() == own.len(),
        forall|j: int| 0 <= j < own.len() && #[trigger] own[j] ==> left_walk(g, cur, own).2[j],
    decreases own.len() - count_true(own),
{
    lemma_count_true_bound(own);
    let pr = g.predecessors_spec(cur);
    let p = only_of(pr);
    let i = kmer_index(p, g.spec_k());
    if nb_of(pr) == 1 && nb_of(g.successors_spec(cur)) == 1 && 0 <= i < own.len() && !own[i] {
        lemma_count_true_set(own, i);
        lemma_count_true_bound(own.update(i, true));
        let o2 = own.update(i, true);
        lemma_left_own_grows(g, p, o2);
        assert forall|j: int| 0 <= j < own.len() && #[trigger] own[j] implies left_walk(g, cur, own).2[j] by {
            assert(o2[j]);
        }
    }
}

/// A walk keeps the k-mers it started with among its own.
pub proof fn lemma_right_own_grows(g: Graph, cur: u64, begin: u64, own: Seq<bool>)
    ensures
        right_walk(g, cur, begin, own).2.len() == own.len(),
        forall|j: int| 0 <= j < own.len() && #[trigger] own[j] ==> right_walk(g, cur, begin, own).2[j],
    decreases own.len() - count_true(own),
{
    lemma_count_true_bound(own);
    let sc = g.successors_spec(cur);
    let s = only_of(sc);
    let i = kmer_index(s, g.spec_k());
    if nb_of(sc) == 1 && nb_of(g.predecessors_spec(cur)) == 1 && 0 <= i < own.len() && !own[i] {
        lemma_count_true_set(own, i);
        lemma_count_true_bound(own.update(i, true));
        let o2 = own.update(i, true);
        lemma_right_own_grows(g, s, begin, o2);
        assert forall|j: int| 0 <= j < own.len() && #[trigger] own[j] implies right_walk(g, cur, begin, own).2[j] by {
            assert(o2[j]);
        }
    }
}

/// A walk that adds no letter takes no step, so it adds no k-mer.
pub proof fn lemma_still_walks(g: Graph, cur: u64, begin: u64, own: Seq<bool>)
    requires
        g.wf(),
    ensures
        left_walk(g, cur, own).1.len() == 0 ==> left_walk(g, cur, own).2 == own,
        right_walk(g, cur, begin, own).1.len() == 0 ==> right_walk(g, cur, begin, own).2 == own,
{
    let k = g.spec_k();
    let pr = g.predecessors_spec(cur);
    if nb_of(pr) == 1 {
        crate::graph::kmer::lemma_pred_shape(g, cur, 0);
        crate::codec::lemma_nucs_digits(only_of(pr) as nat, k as nat);
    }
    let sc = g.successors_spec(cur);
    if nb_of(sc) == 1 {
        crate::graph::kmer::lemma_succ_shape(g, cur, 0);
        crate::codec::lemma_nucs_digits(only_of(sc) as nat, k as nat);
    }
}

/// The seed is among the k-mers of its walks.
pub proof fn lemma_seed_walked(g: Graph, seed: u64)
    ensures
        walk_own(g, seed).len() == space_size(g.spec_k()),
        0 <= kmer_index(seed, g.spec_k()) < space_size(g.spec_k()) ==> walk_own(g, seed)[kmer_index(seed, g.spec_k())],
        forall|j: int| 0 <= j < space_size(g.spec_k()) && #[trigger] walk_own(g, seed)[j] && tig_spec(g, seed) is None
            && g.wf() ==> j == kmer_index(seed, g.spec_k()),
{
    let o = seed_own(g, seed);
    let l = left_walk(g, seed, o);
    lemma_left_own_grows(g, seed, o);
    lemma_right_own_grows(g, seed, l.0, l.2);
    let i0 = kmer_index(seed, g.spec_k());
    if 0 <= i0 < space_size(g.spec_k()) {
        assert(o[i0]);
        assert(l.2[i0]);
    }
    if g.wf() {
        lemma_still_walks(g, seed, l.0, o);
        lemma_still_walks(g, seed, l.0, l.2);
    }
}

proof fn lemma_same_left_walk(g1: Graph, g2: Graph, cur: u64, own: Seq<bool>)
    requires
        crate::graph::kmer::same_solidity(g1, g2),
    ensures
        left_walk(g1, cur, own) == left_walk(g2, cur, own),
    decreases own.len() - count_true(own),
{
    crate::graph::kmer::lemma_same_neighbours(g1, g2, cur);
    lemma_count_true_bound(own);
    let pr = g1.predecessors_spec(cur);
    let p = only_of(pr);
    let i = kmer_index(p, g1.spec_k());
    if nb_of(pr) == 1 && nb_of(g1.successors_spec(cur)) == 1 && 0 <= i < own.len() && !own[i] {
        lemma_count_true_set(own, i);
        lemma_count_true_bound(own.update(i, true));
        lemma_same_left_walk(g1, g2, p, own.update(i, true));
    }
}

proof fn lemma_same_right_walk(g1: Graph, g2: Graph, cur: u64, begin: u64, own: Seq<bool>)
    requires
        crate::graph::kmer::same_solidity(g1, g2),
    ensures
        right_walk(g1, cur, begin, own) == right_walk(g2, cur, begin, own),
    decreases own.len() - count_true(own),
{
    crate::graph::kmer::lemma_same_neighbours(g1, g2, cur);
    lemma_count_true_bound(own);
    let sc = g1.successors_spec(cur);
    let s = only_of(sc);
    let i = kmer_index(s, g1.spec_k());
    if nb_of(sc) == 1 && nb_of(g1.predecessors_spec(cur)) == 1 && 0 <= i < own.len() && !own[i] {
        lemma_count_true_set(own, i);
        lemma_count_true_bound(own.update(i, true));
        lemma_same_right_walk(g1, g2, s, begin, own.update(i, true));
    }
}

/// Graphs with the same solidity bits give the same walks from a seed.
pub proof fn lemma_same_walks(g1: Graph, g2: Graph, seed: u64)
    requires
        crate::graph::kmer::same_solidity(g1, g2),
    ensures
        walks(g1, seed) == walks(g2, seed),
        tig_spec(g1, seed) == tig_spec(g2, seed),
        walk_own(g1, seed) == walk_own(g2, seed),
{
    let o = seed_own(g1, seed);
    assert(o == seed_own(g2, seed));
    lemma_same_left_walk(g1, g2, seed, o);
    let l = left_walk(g1, seed, o);
    lemma_same_right_walk(g1, g2, seed, l.0, l.2);
}

/// A walk's result with `acc` after the letters it prepends.
pub open spec fn left_then(r: (u64, Seq<u8>, Seq<bool>, nat), acc: Seq<u8>) -> (u64, Seq<u8>, Seq<bool>, nat) {
    (r.0, r.1 + acc, r.2, r.3)
}

/// A walk's result with `acc` before the letters it appends.
pub open spec fn right_then(acc: Seq<u8>, r: (u64, Seq<u8>, Seq<bool>, nat)) -> (u64, Seq<u8>, Seq<bool>, nat) {
    (r.0, acc + r.1, r.2, r.3)
}

/// Builds the unitig through the solid k-mer `kmer`, which the caller has
/// already marked as visited: the result is [`tig_spec`], and every k-mer of
/// the walks is marked visited.
///
/// The counts of predecessors and successors where each walk stopped are those
/// of the graph's answer there (zero when there is none).
#[verifier::spinoff_prover]
#[verifier::rlimit(100)]
pub fn build_tig(kmer: u64, k: u8, solid: &Graph, visited: &mut Viewed) -> (r: Option<(Vec<u8>, u64, u64)>)
    requires
        solid.wf(),
        k == solid.spec_k(),
        old(visited).wf(),
        old(visited).spec_k() == k,
        is_kcode(kmer, k),
        solid.solid_at(kmer),
        old(visited).visited_at(kmer),
    ensures
        final(visited).wf(),
        final(visited).spec_k() == k,
        final(visited).seen() == Seq::new(
            old(visited).seen().len(),
            |i: int| old(visited).seen()[i] || walk_own(*solid, kmer)[i],
        ),
        match r {
            Some((tig, begin, end)) => tig_spec(*solid, kmer) == Some((tig@, begin, end)),
            None => tig_spec(*solid, kmer) is None,
        },
        match r {
            Some((tig, begin, end)) => {
                &&& is_kcode(begin, k) && is_canonical(begin, k)
                &&& is_kcode(end, k) && is_canonical(end, k)
                &&& solid.solid_at(begin) && solid.solid_at(end)
                &&& tig@.len() >= k
                &&& begin == canonical_spec(seq_code(tig@.take(k as int)) as u64, k)
                &&& end == canonical_spec(seq_code(tig@.skip(tig@.len() - k)) as u64, k)
                &&& forall|i: int| 0 <= i < space_size(k) && #[trigger] walk_own(*solid, kmer)[i] ==> spells_index(tig@, k, i)
            },
            None => true,
        },
{
    broadcast use vstd::std_specs::hash::group_hash_axioms;

    let ghost seen0 = visited.seen();
    let ghost sp = space_size(k);
    let ghost own0 = seed_own(*solid, kmer);
    let mut left: Vec<u8> = Vec::new();
    let mut right: Vec<u8> = Vec::new();
    let mut current: u64 = kmer;
    let mut nb_pred: usize = 0;
    let mut nb_succ: usize = 0;
    let mut own: HashSet<u64> = HashSet::new();
    let i0 = remove_first_bit(canonical(kmer, k), k);
    let ghost empty_own = own@;
    own.insert(i0);
    proof {
        assert(empty_own == Set::<u64>::empty());
        assert(own@ == Set::<u64>::empty().insert(i0));
        lemma_space_size_fits(k);
        crate::codec::lemma_nucs_digits(kmer as nat, k as nat);
        assert((left@.reverse() + kmer_seq(kmer, k)).take(k as int) =~= kmer_seq(kmer, k));
        assert(own_of(own@, sp) =~= own0);
        assert(visited.seen() =~= Seq::new(seen0.len(), |i: int| seen0[i] || own_of(own@, sp)[i]));
        lemma_codec_round_trip(kmer, k);
        let w = left@.reverse() + kmer_seq(kmer, k);
        assert(w.subrange(0, k as int) =~= kmer_seq(kmer, k));
        assert(kmer_index(kmer_at(w, w.len() - k - 0, k), k) == kmer_index(kmer, k));
        assert(left_walk(*solid, kmer, own0) =~= left_then(left_walk(*solid, current, own_of(own@, sp)), left@.reverse()));
    }
    loop
        invariant
            solid.wf(),
            k == solid.spec_k(),
            visited.wf(),
            visited.spec_k() == k,
            sp == space_size(k),
            seen0.len() == sp,
            is_kcode(kmer, k),
            is_kcode(current, k),
            solid.solid_at(current),
            solid.solid_at(kmer),
            own0 == seed_own(*solid, kmer),
            visited.seen() == Seq::new(seen0.len(), |i: int| seen0[i] || own_of(own@, sp)[i]),
            left_walk(*solid, kmer, own0) == left_then(left_walk(*solid, current, own_of(own@, sp)), left@.reverse()),
            (left@.reverse() + kmer_seq(kmer, k)).take(k as int) == kmer_seq(current, k),
            forall|i: int|
                0 <= i < sp && #[trigger] own_of(own@, sp)[i] ==> spells_index_from_end(
                    left@.reverse() + kmer_seq(kmer, k),
                    k,
                    i,
                ),
        ensures
            visited.wf(),
            visited.spec_k() == k,
            is_kcode(current, k),
            solid.solid_at(current),
            visited.seen() == Seq::new(seen0.len(), |i: int| seen0[i] || own_of(own@, sp)[i]),
            left_walk(*solid, kmer, own0) == (current, left@.reverse(), own_of(own@, sp), nb_pred as nat),
            (left@.reverse() + kmer_seq(kmer, k)).take(k as int) == kmer_seq(current, k),
            forall|i: int|
                0 <= i < sp && #[trigger] own_of(own@, sp)[i] ==> spells_index_from_end(
                    left@.reverse() + kmer_seq(kmer, k),
                    k,
                    i,
                ),
        decreases sp - count_true(own_of(own@, sp)),
    {
        proof {
            lemma_neighbours_exclude_self(*solid, current);
            lemma_count_true_bound(own_of(own@, sp));
        }
        let preds = solid.predecessors(current);
        match preds {
            None => {
                nb_pred = 0;
                assert(left_walk(*solid, current, own_of(own@, sp)) == (current, Seq::<u8>::empty(), own_of(own@, sp), 0nat));
                assert(left@.reverse() =~= Seq::<u8>::empty() + left@.reverse());
                break;
            },
            Some((pred, depth)) => {
                nb_pred = pred.len();
                if pred.len() != 1 {
                    assert(left@.reverse() =~= Seq::<u8>::empty() + left@.reverse());
                    break;
                }
                let succs = solid.successors(current);
                let single = match &succs {
                    Some((succ, _)) => succ.len() == 1,
                    None => false,
                };
                if !single {
                    assert(left@.reverse() =~= Seq::<u8>::empty() + left@.reverse());
                    break;
                }
                let p = pred[0];
                proof {
                    assert(solid.predecessors_spec(current) == Some((pred@, depth)));
                    let w = solid.predecessors_spec(current)->Some_0.0;
                    assert(w[0] == p);
                    assert(is_kcode(p, k));
                    assert(solid.solid_at(p));
                }
                let ip = remove_first_bit(canonical(p, k), k);
                if own.contains(&ip) {
                    assert(left@.reverse() =~= Seq::<u8>::empty() + left@.reverse());
                    break;
                }
                let ghost old_left = left@;
                let ghost own_before = own_of(own@, sp);
                add_kmer_in_tig(p, k, depth, &mut left, true);
                proof {
                    lemma_pred_shape(*solid, current, 0);
                    let j = choose|j: nat| j < crate::codec::pow4(depth as nat)
                        && solid.predecessors_spec(current)->Some_0.0[0]
                        == #[trigger] pred_cand(current, k, (depth - 1) as nat, j) as u64;
                    lemma_pred_spells(current, k, depth as nat, j);
                    let ps = kmer_seq(p, k);
                    let w = old_left.reverse() + kmer_seq(kmer, k);
                    crate::codec::lemma_nucs_digits(kmer as nat, k as nat);
                    crate::codec::lemma_nucs_digits(p as nat, k as nat);
                    crate::codec::lemma_nucs_digits(current as nat, k as nat);
                    assert(left@.reverse() =~= ps.take(depth as int) + old_left.reverse());
                    assert(left@.reverse() + kmer_seq(kmer, k) =~= ps.take(depth as int) + w);
                    assert(w.take(k - depth) =~= w.take(k as int).take(k - depth));
                    assert((ps.take(depth as int) + w).take(k as int) =~= ps.take(depth as int) + w.take(k - depth));
                    lemma_count_true_set(own_before, ip as int);
                }
                let ghost seen_before = visited.seen();
                let ghost set_before = own@;
                own.insert(ip);
                proof {
                    assert(own@ == set_before.insert(ip));
                    lemma_space_size_fits(k);
                    lemma_own_insert(set_before, ip, sp);
                }
                current = p;
                visited.insert(p);
                proof {
                    let own_after = own_of(own@, sp);
                    assert(own_after =~= own_before.update(ip as int, true));
                    lemma_count_true_bound(own_after);
                    assert(visited.seen() =~= Seq::new(seen0.len(), |i: int| seen0[i] || own_after[i]));
                    let r = left_walk(*solid, p, own_after);
                    assert(left@.reverse() =~= kmer_seq(p, k).take(depth as int) + old_left.reverse());
                    assert(r.1 + kmer_seq(p, k).take(depth as int) + old_left.reverse() =~= r.1 + left@.reverse());
                    let w0 = old_left.reverse() + kmer_seq(kmer, k);
                    let w1 = left@.reverse() + kmer_seq(kmer, k);
                    let a = kmer_seq(p, k).take(depth as int);
                    assert(w1 =~= a + w0);
                    lemma_codec_round_trip(p, k);
                    assert(w1.subrange(0, k as int) =~= w1.take(k as int));
                    assert(kmer_at(w1, w1.len() - k - (w1.len() - k), k) == p);
                    assert forall|i: int| 0 <= i < sp && #[trigger] own_after[i]
                        implies spells_index_from_end(w1, k, i) by {
                        if i == ip as int {
                            assert(kmer_index(kmer_at(w1, w1.len() - k - (w1.len() - k), k), k) == i);
                        } else {
                            assert(own_before[i]);
                            let e = choose|e: int| 0 <= e <= w0.len() - k && #[trigger] kmer_index(kmer_at(w0, w0.len() - k - e, k), k) == i;
                            assert(w1.subrange(w1.len() - k - e, w1.len() - e) =~= w0.subrange(w0.len() - k - e, w0.len() - e));
                            assert(kmer_index(kmer_at(w1, w1.len() - k - e, k), k) == i);
                        }
                    }
                }
            },
        }
    }
    let begin: u64 = current;
    let ghost own_left = own_of(own@, sp);
    let ghost lw = left_walk(*solid, kmer, own0);
    current = kmer;
    proof {
        crate::codec::lemma_nucs_digits(kmer as nat, k as nat);
        assert((kmer_seq(kmer, k) + right@).skip(k + right@.len() - k) =~= kmer_seq(kmer, k));
        assert(right_walk(*solid, kmer, begin, own_left) =~= right_then(right@, right_walk(*solid, current, begin, own_of(own@, sp))));
    }
    loop
        invariant_except_break
            right_walk(*solid, kmer, begin, own_left) == right_then(right@, right_walk(*solid, current, begin, own_of(own@, sp))),
        invariant
            solid.wf(),
            k == solid.spec_k(),
            visited.wf(),
            visited.spec_k() == k,
            sp == space_size(k),
            seen0.len() == sp,
            is_kcode(kmer, k),
            is_kcode(current, k),
            is_kcode(begin, k),
            solid.solid_at(current),
            solid.solid_at(begin),
            lw == (begin, left@.reverse(), own_left, nb_pred as nat),
            visited.seen() == Seq::new(seen0.len(), |i: int| seen0[i] || own_of(own@, sp)[i]),
            forall|i: int| 0 <= i < sp && #[trigger] own_left[i] ==> own_of(own@, sp)[i],
            own_left.len() == sp,
            (left@.reverse() + kmer_seq(kmer, k)).take(k as int) == kmer_seq(begin, k),
            (kmer_seq(kmer, k) + right@).skip(k + right@.len() - k) == kmer_seq(current, k),
            forall|i: int|
                0 <= i < sp && #[trigger] own_left[i] ==> spells_index_from_end(
                    left@.reverse() + kmer_seq(kmer, k),
                    k,
                    i,
                ),
            forall|i: int|
                0 <= i < sp && #[trigger] own_of(own@, sp)[i] && !own_left[i] ==> spells_index(
                    kmer_seq(kmer, k) + right@,
                    k,
                    i,
                ),
        ensures
            visited.wf(),
            visited.spec_k() == k,
            is_kcode(current, k),
            solid.solid_at(current),
            visited.seen() == Seq::new(seen0.len(), |i: int| seen0[i] || own_of(own@, sp)[i]),
            right_walk(*solid, kmer, begin, own_left) == (current, right@, own_of(own@, sp), nb_succ as nat),
            forall|i: int| 0 <= i < sp && #[trigger] own_left[i] ==> own_of(own@, sp)[i],
            (left@.reverse() + kmer_seq(kmer, k)).take(k as int) == kmer_seq(begin, k),
            (kmer_seq(kmer, k) + right@).skip(k + right@.len() - k) == kmer_seq(current, k),
            forall|i: int|
                0 <= i < sp && #[trigger] own_left[i] ==> spells_index_from_end(
                    left@.reverse() + kmer_seq(kmer, k),
                    k,
                    i,
                ),
            forall|i: int|
                0 <= i < sp && #[trigger] own_of(own@, sp)[i] && !own_left[i] ==> spells_index(
                    kmer_seq(kmer, k) + right@,
                    k,
                    i,
                ),
        decreases sp - count_true(own_of(own@, sp)),
    {
        proof {
            lemma_neighbours_exclude_self(*solid, current);
            lemma_count_true_bound(own_of(own@, sp));
        }
        let succs = solid.successors(current);
        match succs {
            None => {
                nb_succ = 0;
                assert(right@ =~= right@ + Seq::<u8>::empty());
                break;
            },
            Some((succ, depth)) => {
                nb_succ = succ.len();
                if succ.len() != 1 {
                    assert(right@ =~= right@ + Seq::<u8>::empty());
                    break;
                }
                let preds = solid.predecessors(current);
                let single = match &preds {
                    Some((pred, _)) => pred.len() == 1,
                    None => false,
                };
                if !single {
                    assert(right@ =~= right@ + Seq::<u8>::empty());
                    break;
                }
                let s = succ[0];
                proof {
                    assert(solid.successors_spec(current) == Some((succ@, depth)));
                    let w = solid.successors_spec(current)->Some_0.0;
                    assert(w[0] == s);
                    assert(is_kcode(s, k));
                    assert(solid.solid_at(s));
                }
                let is_ = remove_first_bit(canonical(s, k), k);
                let ghost old_right = right@;
                let ghost own_before = own_of(own@, sp);
                if own.contains(&is_) {
                    let ghost cur_before = current;
                    if s == begin {
                        add_kmer_in_tig(s, k, depth, &mut right, false);
                        proof {
                            let added = kmer_seq(s, k).skip(k - depth);
                            assert(own_before[is_ as int]);
                            assert(kmer_index(s, k) == is_ as int);
                            assert(right_walk(*solid, cur_before, begin, own_before) == (s, added, own_before, 1nat));
                            assert(right@ =~= old_right + added);
                            lemma_right_step(*solid, kmer, current, s, depth, old_right, right@);
                            let r0 = kmer_seq(kmer, k) + old_right;
                            let r1 = kmer_seq(kmer, k) + right@;
                            assert forall|i: int| 0 <= i < sp && #[trigger] own_of(own@, sp)[i] && !own_left[i]
                                implies spells_index(r1, k, i) by {
                                let q = choose|q: int| 0 <= q <= r0.len() - k && #[trigger] kmer_index(kmer_at(r0, q, k), k) == i;
                                assert(r1.subrange(q, q + k) =~= r0.subrange(q, q + k));
                                assert(kmer_index(kmer_at(r1, q, k), k) == i);
                            }
                        }
                        current = s;
                    } else {
                        assert(own_before[is_ as int]);
                        assert(kmer_index(s, k) == is_ as int);
                        assert(right_walk(*solid, cur_before, begin, own_before) == (cur_before, Seq::<u8>::empty(), own_before, 1nat));
                        assert(right@ =~= right@ + Seq::<u8>::empty());
                    }
                    break;
                }
                add_kmer_in_tig(s, k, depth, &mut right, false);
                proof {
                    lemma_right_step(*solid, kmer, current, s, depth, old_right, right@);
                    lemma_count_true_set(own_before, is_ as int);
                }
                let ghost seen_before = visited.seen();
                let ghost set_before = own@;
                let ghost cur_before = current;
                own.insert(is_);
                proof {
                    assert(own@ == set_before.insert(is_));
                    lemma_space_size_fits(k);
                    lemma_own_insert(set_before, is_, sp);
                }
                current = s;
                visited.insert(s);
                proof {
                    let own_after = own_of(own@, sp);
                    assert(own_after =~= own_before.update(is_ as int, true));
                    lemma_count_true_bound(own_after);
                    assert(visited.seen() =~= Seq::new(seen0.len(), |i: int| seen0[i] || own_after[i]));
                    let added = kmer_seq(s, k).skip(k - depth);
                    assert(right@ =~= old_right + added);
                    let rr = right_walk(*solid, s, begin, own_after);
                    assert(!own_before[is_ as int]);
                    assert(kmer_index(s, k) == is_ as int);
                    assert(right_walk(*solid, cur_before, begin, own_before) == (rr.0, added + rr.1, rr.2, rr.3));
                    assert(old_right + (added + rr.1) =~= right@ + rr.1);
                    let r0 = kmer_seq(kmer, k) + old_right;
                    let r1 = kmer_seq(kmer, k) + right@;
                    crate::codec::lemma_nucs_digits(kmer as nat, k as nat);
                    lemma_codec_round_trip(s, k);
                    assert(r1.subrange(r1.len() - k, r1.len() as int) =~= r1.skip(r1.len() - k));
                    assert(kmer_at(r1, r1.len() - k, k) == s);
                    assert forall|i: int| 0 <= i < sp && #[trigger] own_after[i] && !own_left[i]
                        implies spells_index(r1, k, i) by {
                        if i == is_ as int {
                            assert(kmer_index(kmer_at(r1, r1.len() - k, k), k) == i);
                        } else {
                            assert(own_before[i]);
                            let q = choose|q: int| 0 <= q <= r0.len() - k && #[trigger] kmer_index(kmer_at(r0, q, k), k) == i;
                            assert(r1.subrange(q, q + k) =~= r0.subrange(q, q + k));
                            assert(kmer_index(kmer_at(r1, q, k), k) == i);
                        }
                    }
                }
            },
        }
    }
    if left.len() == 0 && right.len() == 0 && (nb_pred < 2 || nb_succ < 2) {
        return None;
    }
    let mut tig: Vec<u8> = Vec::new();
    let mut i: usize = left.len();
    while i > 0
        invariant
            i <= left@.len(),
            tig@ == left@.reverse().take(left@.len() - i),
        decreases i,
    {
        i = i - 1;
        tig.push(left[i]);
        assert(tig@ =~= left@.reverse().take(left@.len() - i));
    }
    assert(tig@ =~= left@.reverse());
    let mut seed = kmer2seq(kmer, k);
    let ghost rt = right@;
    tig.append(&mut seed);
    tig.append(&mut right);
    proof {
        let rl = left@.reverse();
        let sd = kmer_seq(kmer, k);
        assert(tig@ == rl + sd + rt);
        assert(tig@.take(k as int) =~= (rl + sd).take(k as int));
        assert(tig@.skip(tig@.len() - k) =~= (sd + rt).skip(k + rt.len() - k));
        lemma_codec_round_trip(begin, k);
        lemma_codec_round_trip(current, k);
        let w = rl + sd;
        assert(tig@ =~= w + rt);
        assert(tig@ =~= rl + (sd + rt));
        assert forall|i: int| 0 <= i < space_size(k) && #[trigger] walk_own(*solid, kmer)[i]
            implies spells_index(tig@, k, i) by {
            if own_left[i] {
                let e = choose|e: int| 0 <= e <= w.len() - k && #[trigger] kmer_index(kmer_at(w, w.len() - k - e, k), k) == i;
                assert(tig@.subrange(w.len() - k - e, w.len() - e) =~= w.subrange(w.len() - k - e, w.len() - e));
                assert(kmer_index(kmer_at(tig@, w.len() - k - e, k), k) == i);
            } else {
                let r = sd + rt;
                let q = choose|q: int| 0 <= q <= r.len() - k && #[trigger] kmer_index(kmer_at(r, q, k), k) == i;
                assert(tig@.subrange(rl.len() + q, rl.len() + q + k) =~= r.subrange(q, q + k));
                assert(kmer_index(kmer_at(tig@, rl.len() + q, k), k) == i);
            }
        }
        lemma_canonical_revcomp(begin, k);
        lemma_canonical_revcomp(current, k);
        crate::graph::kmer::lemma_solid_revcomp(*solid, begin);
        crate::graph::kmer::lemma_solid_revcomp(*solid, current);
    }
    Some((tig, canonical(begin, k), canonical(current, k)))
}

/// The pair, its two elements swapped when `swap` holds.
pub open spec fn normalized<T>(a: (T, T), swap: bool) -> (T, T) {
    if swap {
        (a.1, a.0)
    } else {
        a
    }
}

/// The pair with its smaller element first.
pub fn normalize_u64_2tuple(a: (u64, u64)) -> (r: (u64, u64))
    ensures
        r == normalized(a, a.0 > a.1),
        r.0 <= r.1,
{
    if a.0 > a.1 {
        (a.1, a.0)
    } else {
        a
    }
}

/// The pair with its smaller element first.
pub fn normalize_usize_2tuple(a: (usize, usize)) -> (r: (usize, usize))
    ensures
        r == normalized(a, a.0 > a.1),
        r.0 <= r.1,
{
    if a.0 > a.1 {
        (a.1, a.0)
    } else {
        a
    }
}

} // verus!
