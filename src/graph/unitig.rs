//! Unitigs, the graph that joins them through their end k-mers, and the links
//! between unitigs read from that graph.
use vstd::prelude::*;

use crate::codec::{canonical, canonical_spec, seq_code, is_canonical, is_kcode, kmer_space_size, lemma_space_size, space_size};
use crate::graph::kmer::{kmer_index, lemma_kmer_index_bound, Graph, Viewed};
use crate::graph::ungraph::{
    adj, edge_key, graph_add_edge, graph_add_node, graph_contains_node, graph_edge_weight,
    graph_edges, graph_neighbors, graph_new, graph_node_list, graph_nodes, tag, NodeKey,
    UnitigGraph,
};
use crate::utils::{
    build_tig, lemma_seed_walked, normalized, spells_index, tig_spec, walk_own,
};

verus! {

/// The tag of an edge of the unitig graph.
#[derive(Debug, PartialEq, Eq, Structural, Clone, Copy)]
pub enum Edge {
    /// Between two end k-mers that are neighbours in the k-mer graph.
    Kmer,
    /// From a unitig to the k-mer it begins with.
    Begin,
    /// From a unitig to the k-mer it ends with.
    End,
    /// From a unitig to the k-mer it both begins and ends with.
    Both,
}


/// A node of the unitig graph.
#[derive(Debug, PartialEq, Eq, Structural, Clone, Copy)]
pub enum Node {
    Tig(Tig),
    Kmer(Kmer),
}

/// A unitig: its number, its length in letters, and whether it closes on itself.
#[derive(Debug, PartialEq, Eq, Structural, Clone, Copy)]
pub struct Tig {
    pub id: usize,
    pub len: usize,
    pub circular: bool,
}

/// An end k-mer of unitigs, in canonical form.
#[derive(Debug, PartialEq, Eq, Structural, Clone, Copy)]
pub struct Kmer {
    pub id: u64,
}

/// An oriented link between two unitigs: `(id1, sign1, id2, sign2)`.
pub type Link = (usize, char, usize, char);

pub open spec fn tig_key(id: usize) -> NodeKey {
    (1u64, id as u64)
}

pub open spec fn kmer_key(x: u64) -> NodeKey {
    (0u64, x)
}

pub open spec fn is_tig_key(n: NodeKey) -> bool {
    n.0 == 1
}

pub open spec fn is_kmer_key(n: NodeKey) -> bool {
    n.0 == 0
}

/// The signs of a link whose two ends reach their shared k-mer through edges
/// tagged `e1` and `e2`; only begin and end tags orient a link.
pub open spec fn signs(e1: Edge, e2: Edge) -> Option<(char, char)> {
    match (e1, e2) {
        (Edge::Begin, Edge::Begin) => Some(('-', '+')),
        (Edge::Begin, Edge::End) => Some(('-', '-')),
        (Edge::End, Edge::Begin) => Some(('+', '+')),
        (Edge::End, Edge::End) => Some(('+', '-')),
        _ => None,
    }
}

/// The link read from a path that leaves unitig `s1` by the edge `s1 - t1` and
/// reaches unitig `t2` by the edge `s2 - t2`.
pub open spec fn link_spec(g: UnitigGraph, s1: NodeKey, t1: NodeKey, s2: NodeKey, t2: NodeKey) -> Option<Link> {
    if is_tig_key(s1) && is_tig_key(t2) && adj(g, s1, t1) && adj(g, s2, t2) {
        match signs(tag(g, s1, t1)->Some_0, tag(g, s2, t2)->Some_0) {
            Some((a, b)) => Some((s1.1 as usize, a, t2.1 as usize, b)),
            None => None,
        }
    } else {
        None
    }
}

/// The oriented link of the path `s1 - t1 ... s2 - t2`, if both ends are
/// unitigs joined to the path by begin or end edges.
pub fn build_link(s1: NodeKey, t1: NodeKey, s2: NodeKey, t2: NodeKey, graph: &UnitigGraph) -> (r: Option<Link>)
    ensures
        r == link_spec(*graph, s1, t1, s2, t2),
{
    if s1.0 != 1 || t2.0 != 1 {
        return None;
    }
    let e1 = graph_edge_weight(graph, s1, t1);
    let e2 = graph_edge_weight(graph, s2, t2);
    match (e1, e2) {
        (Some(a), Some(b)) => {
            let first = s1.1 as usize;
            let second = t2.1 as usize;
            match (a, b) {
                (Edge::Begin, Edge::Begin) => Some((first, '-', second, '+')),
                (Edge::Begin, Edge::End) => Some((first, '-', second, '-')),
                (Edge::End, Edge::Begin) => Some((first, '+', second, '+')),
                (Edge::End, Edge::End) => Some((first, '+', second, '-')),
                _ => None,
            }
        },
        _ => None,
    }
}

/// The path `s1 - t1 ... s2 - t` gives the link `l`, and `t` is another node
/// than `s1`.
pub open spec fn via(g: UnitigGraph, s1: NodeKey, t1: NodeKey, s2: NodeKey, t: NodeKey, l: Link) -> bool {
    adj(g, s2, t) && t != s1 && link_spec(g, s1, t1, s2, t) == Some(l)
}

/// Unitig `n`, end k-mer `m`, unitig `t`: a link through one shared k-mer.
pub open spec fn tkt_path(g: UnitigGraph, n: NodeKey, m: NodeKey, t: NodeKey, l: Link) -> bool {
    is_tig_key(n) && adj(g, n, m) && is_kmer_key(m) && via(g, n, m, m, t, l)
}

/// Unitig `n`, end k-mers `m` and `m2`, unitig `t`: a link through two
/// neighbouring end k-mers.
pub open spec fn tkkt_path(g: UnitigGraph, n: NodeKey, m: NodeKey, m2: NodeKey, t: NodeKey, l: Link) -> bool {
    is_tig_key(n) && adj(g, n, m) && is_kmer_key(m) && adj(g, m, m2) && is_kmer_key(m2) && via(
        g,
        n,
        m,
        m2,
        t,
        l,
    )
}

/// `l` is read from a path unitig - k-mer - unitig.
pub open spec fn tkt_link(g: UnitigGraph, l: Link) -> bool {
    exists|n: NodeKey, m: NodeKey, t: NodeKey|
        graph_nodes(g).contains(n) && #[trigger] tkt_path(g, n, m, t, l)
}

/// `l` is read from a path unitig - k-mer - k-mer - unitig.
pub open spec fn tkkt_link(g: UnitigGraph, l: Link) -> bool {
    exists|n: NodeKey, m: NodeKey, m2: NodeKey, t: NodeKey|
        graph_nodes(g).contains(n) && #[trigger] tkkt_path(g, n, m, m2, t, l)
}

/// Appends the links of the paths `s1 - t1 ... s2 - t` over every neighbour
/// `t` of `s2` other than `s1`.
fn links_via(graph: &UnitigGraph, s1: NodeKey, t1: NodeKey, s2: NodeKey, ret: &mut Vec<Link>)
    ensures
        forall|l: Link|
            #[trigger] final(ret)@.contains(l) <==> old(ret)@.contains(l) || exists|t: NodeKey|
                #[trigger] via(*graph, s1, t1, s2, t, l),
{
    let nbrs = graph_neighbors(graph, s2);
    let ghost start = ret@;
    let mut j: usize = 0;
    while j < nbrs.len()
        invariant
            j <= nbrs@.len(),
            forall|b: NodeKey| nbrs@.contains(b) <==> adj(*graph, s2, b),
            forall|l: Link|
                #[trigger] ret@.contains(l) <==> start.contains(l) || exists|j0: int|
                    0 <= j0 < j && #[trigger] via(*graph, s1, t1, s2, nbrs@[j0], l),
        decreases nbrs@.len() - j,
    {
        let t = nbrs[j];
        let mut found: Option<Link> = None;
        if t.0 != s1.0 || t.1 != s1.1 {
            found = build_link(s1, t1, s2, t, graph);
        }
        let ghost before = ret@;
        match found {
            Some(l) => {
                ret.push(l);
            },
            None => {},
        }
        proof {
            assert(nbrs@.contains(t));
            assert forall|l: Link| #[trigger] ret@.contains(l) <==> start.contains(l) || exists|j0: int|
                0 <= j0 < j + 1 && #[trigger] via(*graph, s1, t1, s2, nbrs@[j0], l) by {
                if ret@.contains(l) && !before.contains(l) {
                    assert(found == Some(l));
                    assert(via(*graph, s1, t1, s2, nbrs@[j as int], l));
                }
                if exists|j0: int| 0 <= j0 < j + 1 && #[trigger] via(*graph, s1, t1, s2, nbrs@[j0], l) {
                    let j0 = choose|j0: int| 0 <= j0 < j + 1 && #[trigger] via(*graph, s1, t1, s2, nbrs@[j0], l);
                    if j0 == j {
                        assert(found == Some(l));
                        assert(ret@.last() == l);
                        assert(ret@.contains(l));
                    } else {
                        assert(exists|j1: int| 0 <= j1 < j && #[trigger] via(*graph, s1, t1, s2, nbrs@[j1], l)) by {
                            assert(via(*graph, s1, t1, s2, nbrs@[j0], l));
                        }
                        assert(before.contains(l));
                        let i = choose|i: int| 0 <= i < before.len() && before[i] == l;
                        assert(ret@[i] == l);
                    }
                }
                if before.contains(l) {
                    let i = choose|i: int| 0 <= i < before.len() && before[i] == l;
                    assert(ret@[i] == l);
                }
            }
        }
        j = j + 1;
    }
    proof {
        assert forall|l: Link| #[trigger] ret@.contains(l) <==> start.contains(l) || exists|t: NodeKey|
            #[trigger] via(*graph, s1, t1, s2, t, l) by {
            if exists|t: NodeKey| #[trigger] via(*graph, s1, t1, s2, t, l) {
                let t = choose|t: NodeKey| #[trigger] via(*graph, s1, t1, s2, t, l);
                assert(nbrs@.contains(t));
                let j0 = choose|j0: int| 0 <= j0 < nbrs@.len() && nbrs@[j0] == t;
                assert(via(*graph, s1, t1, s2, nbrs@[j0], l));
            }
            if exists|j0: int| 0 <= j0 < j && #[trigger] via(*graph, s1, t1, s2, nbrs@[j0], l) {
                let j0 = choose|j0: int| 0 <= j0 < j && #[trigger] via(*graph, s1, t1, s2, nbrs@[j0], l);
                let t = nbrs@[j0];
                assert(via(*graph, s1, t1, s2, t, l));
            }
        }
    }
}

/// Appends the links of the paths unitig `node` - k-mer `m` - k-mer `m2` -
/// unitig, over every end k-mer `m2` joined to `m`.
fn links_kmer_kmer(graph: &UnitigGraph, node: NodeKey, m: NodeKey, ret: &mut Vec<Link>)
    requires
        is_tig_key(node),
        adj(*graph, node, m),
        is_kmer_key(m),
    ensures
        forall|l: Link|
            #[trigger] final(ret)@.contains(l) <==> old(ret)@.contains(l) || exists|m2: NodeKey, t: NodeKey|
                #[trigger] tkkt_path(*graph, node, m, m2, t, l),
{
    let nbrs = graph_neighbors(graph, m);
    let ghost start = ret@;
    let mut j: usize = 0;
    while j < nbrs.len()
        invariant
            is_tig_key(node),
            adj(*graph, node, m),
            is_kmer_key(m),
            j <= nbrs@.len(),
            forall|b: NodeKey| nbrs@.contains(b) <==> adj(*graph, m, b),
            forall|l: Link|
                #[trigger] ret@.contains(l) <==> start.contains(l) || exists|j0: int, t: NodeKey|
                    0 <= j0 < j && #[trigger] tkkt_path(*graph, node, m, nbrs@[j0], t, l),
        decreases nbrs@.len() - j,
    {
        let m2 = nbrs[j];
        let ghost before = ret@;
        proof {
            assert(nbrs@.contains(m2));
        }
        if m2.0 == 0 {
            links_via(graph, node, m, m2, ret);
        }
        proof {
            assert forall|l: Link| #[trigger] ret@.contains(l) <==> start.contains(l) || exists|j0: int, t: NodeKey|
                0 <= j0 < j + 1 && #[trigger] tkkt_path(*graph, node, m, nbrs@[j0], t, l) by {
                if exists|j0: int, t: NodeKey| 0 <= j0 < j + 1 && #[trigger] tkkt_path(*graph, node, m, nbrs@[j0], t, l) {
                    let (j0, t) = choose|j0: int, t: NodeKey| 0 <= j0 < j + 1 && #[trigger] tkkt_path(*graph, node, m, nbrs@[j0], t, l);
                    if j0 == j {
                        assert(via(*graph, node, m, m2, t, l));
                    } else {
                        assert(before.contains(l));
                    }
                }
                if ret@.contains(l) && !before.contains(l) {
                    let t = choose|t: NodeKey| #[trigger] via(*graph, node, m, m2, t, l);
                    assert(tkkt_path(*graph, node, m, nbrs@[j as int], t, l));
                }
                if before.contains(l) && !start.contains(l) {
                    let (j0, t) = choose|j0: int, t: NodeKey| 0 <= j0 < j && #[trigger] tkkt_path(*graph, node, m, nbrs@[j0], t, l);
                    assert(tkkt_path(*graph, node, m, nbrs@[j0], t, l));
                }
            }
        }
        j = j + 1;
    }
    proof {
        assert forall|l: Link| #[trigger] ret@.contains(l) <==> start.contains(l) || exists|m2: NodeKey, t: NodeKey|
            #[trigger] tkkt_path(*graph, node, m, m2, t, l) by {
            if exists|m2: NodeKey, t: NodeKey| #[trigger] tkkt_path(*graph, node, m, m2, t, l) {
                let (m2, t) = choose|m2: NodeKey, t: NodeKey| #[trigger] tkkt_path(*graph, node, m, m2, t, l);
                assert(nbrs@.contains(m2));
                let j0 = choose|j0: int| 0 <= j0 < nbrs@.len() && nbrs@[j0] == m2;
                assert(tkkt_path(*graph, node, m, nbrs@[j0], t, l));
            }
            if ret@.contains(l) && !start.contains(l) {
                let (j0, t) = choose|j0: int, t: NodeKey| 0 <= j0 < j && #[trigger] tkkt_path(*graph, node, m, nbrs@[j0], t, l);
                assert(tkkt_path(*graph, node, m, nbrs@[j0], t, l));
            }
        }
    }
}

/// Appends the links of the paths that leave the unitig `node` through one end
/// k-mer (`two_kmers == false`) or through two neighbouring end k-mers.
fn links_from_tig(graph: &UnitigGraph, node: NodeKey, two_kmers: bool, ret: &mut Vec<Link>)
    requires
        is_tig_key(node),
    ensures
        forall|l: Link|
            #[trigger] final(ret)@.contains(l) <==> old(ret)@.contains(l) || from_tig(*graph, node, two_kmers, l),
{
    let nbrs = graph_neighbors(graph, node);
    let ghost start = ret@;
    let mut j: usize = 0;
    while j < nbrs.len()
        invariant
            is_tig_key(node),
            j <= nbrs@.len(),
            forall|b: NodeKey| nbrs@.contains(b) <==> adj(*graph, node, b),
            forall|l: Link|
                #[trigger] ret@.contains(l) <==> start.contains(l) || exists|j0: int|
                    0 <= j0 < j && #[trigger] from_tig_via(*graph, node, nbrs@[j0], two_kmers, l),
        decreases nbrs@.len() - j,
    {
        let m = nbrs[j];
        let ghost before = ret@;
        proof {
            assert(nbrs@.contains(m));
        }
        if m.0 == 0 {
            if two_kmers {
                links_kmer_kmer(graph, node, m, ret);
            } else {
                links_via(graph, node, m, m, ret);
            }
        }
        proof {
            assert forall|l: Link| #[trigger] ret@.contains(l) <==> start.contains(l) || exists|j0: int|
                0 <= j0 < j + 1 && #[trigger] from_tig_via(*graph, node, nbrs@[j0], two_kmers, l) by {
                if exists|j0: int| 0 <= j0 < j + 1 && #[trigger] from_tig_via(*graph, node, nbrs@[j0], two_kmers, l) {
                    let j0 = choose|j0: int| 0 <= j0 < j + 1 && #[trigger] from_tig_via(*graph, node, nbrs@[j0], two_kmers, l);
                    if j0 == j {
                        if two_kmers {
                            let (m2, t) = choose|m2: NodeKey, t: NodeKey| #[trigger] tkkt_path(*graph, node, m, m2, t, l);
                        } else {
                            let t = choose|t: NodeKey| #[trigger] tkt_path(*graph, node, m, t, l);
                            assert(via(*graph, node, m, m, t, l));
                        }
                    } else {
                        assert(before.contains(l));
                    }
                }
                if ret@.contains(l) && !before.contains(l) {
                    if two_kmers {
                        let (m2, t) = choose|m2: NodeKey, t: NodeKey| #[trigger] tkkt_path(*graph, node, m, m2, t, l);
                        assert(from_tig_via(*graph, node, nbrs@[j as int], two_kmers, l));
                    } else {
                        let t = choose|t: NodeKey| #[trigger] via(*graph, node, m, m, t, l);
                        assert(tkt_path(*graph, node, m, t, l));
                        assert(from_tig_via(*graph, node, nbrs@[j as int], two_kmers, l));
                    }
                }
                if before.contains(l) && !start.contains(l) {
                    let j0 = choose|j0: int| 0 <= j0 < j && #[trigger] from_tig_via(*graph, node, nbrs@[j0], two_kmers, l);
                    assert(from_tig_via(*graph, node, nbrs@[j0], two_kmers, l));
                }
            }
        }
        j = j + 1;
    }
    proof {
        assert forall|l: Link| #[trigger] ret@.contains(l) <==> start.contains(l) || from_tig(*graph, node, two_kmers, l) by {
            if from_tig(*graph, node, two_kmers, l) {
                let m = choose|m: NodeKey| #[trigger] from_tig_via(*graph, node, m, two_kmers, l);
                assert(nbrs@.contains(m)) by {
                    if two_kmers {
                        let (m2, t) = choose|m2: NodeKey, t: NodeKey| #[trigger] tkkt_path(*graph, node, m, m2, t, l);
                    } else {
                        let t = choose|t: NodeKey| #[trigger] tkt_path(*graph, node, m, t, l);
                    }
                }
                let j0 = choose|j0: int| 0 <= j0 < nbrs@.len() && nbrs@[j0] == m;
                assert(from_tig_via(*graph, node, nbrs@[j0], two_kmers, l));
            }
            if ret@.contains(l) && !start.contains(l) {
                let j0 = choose|j0: int| 0 <= j0 < j && #[trigger] from_tig_via(*graph, node, nbrs@[j0], two_kmers, l);
                assert(from_tig_via(*graph, node, nbrs@[j0], two_kmers, l));
            }
        }
    }
}

/// The unitig `node` reaches the end k-mer `m` and, from there, gives the link
/// `l` by a path through one or two end k-mers.
pub open spec fn from_tig_via(g: UnitigGraph, node: NodeKey, m: NodeKey, two_kmers: bool, l: Link) -> bool {
    if two_kmers {
        exists|m2: NodeKey, t: NodeKey| #[trigger] tkkt_path(g, node, m, m2, t, l)
    } else {
        exists|t: NodeKey| #[trigger] tkt_path(g, node, m, t, l)
    }
}

/// The unitig `node` gives the link `l` by a path through one or two end k-mers.
pub open spec fn from_tig(g: UnitigGraph, node: NodeKey, two_kmers: bool, l: Link) -> bool {
    exists|m: NodeKey| #[trigger] from_tig_via(g, node, m, two_kmers, l)
}

/// The links of all paths from a unitig through one or two end k-mers.
fn links_of(graph: &UnitigGraph, two_kmers: bool) -> (r: Vec<Link>)
    ensures
        forall|l: Link|
            #[trigger] r@.contains(l) <==> exists|n: NodeKey|
                graph_nodes(*graph).contains(n) && is_tig_key(n) && #[trigger] from_tig(*graph, n, two_kmers, l),
{
    let nodes = graph_node_list(graph);
    let mut ret: Vec<Link> = Vec::new();
    let mut i: usize = 0;
    while i < nodes.len()
        invariant
            i <= nodes@.len(),
            forall|n: NodeKey| nodes@.contains(n) <==> graph_nodes(*graph).contains(n),
            forall|l: Link|
                #[trigger] ret@.contains(l) <==> exists|i0: int|
                    0 <= i0 < i && is_tig_key(nodes@[i0]) && #[trigger] from_tig(*graph, nodes@[i0], two_kmers, l),
        decreases nodes@.len() - i,
    {
        let node = nodes[i];
        let ghost before = ret@;
        if node.0 == 1 {
            links_from_tig(graph, node, two_kmers, &mut ret);
        }
        proof {
            assert forall|l: Link| #[trigger] ret@.contains(l) <==> exists|i0: int|
                0 <= i0 < i + 1 && is_tig_key(nodes@[i0]) && #[trigger] from_tig(*graph, nodes@[i0], two_kmers, l) by {
                if exists|i0: int| 0 <= i0 < i + 1 && is_tig_key(nodes@[i0]) && #[trigger] from_tig(*graph, nodes@[i0], two_kmers, l) {
                    let i0 = choose|i0: int| 0 <= i0 < i + 1 && is_tig_key(nodes@[i0]) && #[trigger] from_tig(*graph, nodes@[i0], two_kmers, l);
                    if i0 < i {
                        assert(before.contains(l));
                    }
                }
                if before.contains(l) {
                    let i0 = choose|i0: int| 0 <= i0 < i && is_tig_key(nodes@[i0]) && #[trigger] from_tig(*graph, nodes@[i0], two_kmers, l);
                    assert(from_tig(*graph, nodes@[i0], two_kmers, l));
                }
            }
        }
        i = i + 1;
    }
    proof {
        assert forall|l: Link| #[trigger] ret@.contains(l) <==> exists|n: NodeKey|
            graph_nodes(*graph).contains(n) && is_tig_key(n) && #[trigger] from_tig(*graph, n, two_kmers, l) by {
            if exists|n: NodeKey| graph_nodes(*graph).contains(n) && is_tig_key(n) && #[trigger] from_tig(*graph, n, two_kmers, l) {
                let n = choose|n: NodeKey| graph_nodes(*graph).contains(n) && is_tig_key(n) && #[trigger] from_tig(*graph, n, two_kmers, l);
                assert(nodes@.contains(n));
                let i0 = choose|i0: int| 0 <= i0 < nodes@.len() && nodes@[i0] == n;
                assert(from_tig(*graph, nodes@[i0], two_kmers, l));
            }
            if ret@.contains(l) {
                let i0 = choose|i0: int| 0 <= i0 < i && is_tig_key(nodes@[i0]) && #[trigger] from_tig(*graph, nodes@[i0], two_kmers, l);
                assert(graph_nodes(*graph).contains(nodes@[i0]));
            }
        }
    }
    ret
}

/// The links of the paths unitig - end k-mer - unitig.
pub fn tig_kmer_tig(graph: &UnitigGraph) -> (r: Vec<Link>)
    ensures
        forall|l: Link| #[trigger] r@.contains(l) <==> tkt_link(*graph, l),
{
    let r = links_of(graph, false);
    proof {
        assert forall|l: Link| #[trigger] r@.contains(l) <==> tkt_link(*graph, l) by {
            if tkt_link(*graph, l) {
                let (n, m, t) = choose|n: NodeKey, m: NodeKey, t: NodeKey|
                    graph_nodes(*graph).contains(n) && #[trigger] tkt_path(*graph, n, m, t, l);
                assert(from_tig_via(*graph, n, m, false, l));
                assert(from_tig(*graph, n, false, l));
            }
            if r@.contains(l) {
                let n = choose|n: NodeKey| graph_nodes(*graph).contains(n) && is_tig_key(n) && #[trigger] from_tig(*graph, n, false, l);
                let m = choose|m: NodeKey| #[trigger] from_tig_via(*graph, n, m, false, l);
                let t = choose|t: NodeKey| #[trigger] tkt_path(*graph, n, m, t, l);
                assert(graph_nodes(*graph).contains(n) && tkt_path(*graph, n, m, t, l));
            }
        }
    }
    r
}

/// The links of the paths unitig - end k-mer - end k-mer - unitig.
pub fn tig_kmer_kmer_tig(graph: &UnitigGraph) -> (r: Vec<Link>)
    ensures
        forall|l: Link| #[trigger] r@.contains(l) <==> tkkt_link(*graph, l),
{
    let r = links_of(graph, true);
    proof {
        assert forall|l: Link| #[trigger] r@.contains(l) <==> tkkt_link(*graph, l) by {
            if tkkt_link(*graph, l) {
                let (n, m, m2, t) = choose|n: NodeKey, m: NodeKey, m2: NodeKey, t: NodeKey|
                    graph_nodes(*graph).contains(n) && #[trigger] tkkt_path(*graph, n, m, m2, t, l);
                assert(from_tig_via(*graph, n, m, true, l));
                assert(from_tig(*graph, n, true, l));
            }
            if r@.contains(l) {
                let n = choose|n: NodeKey| graph_nodes(*graph).contains(n) && is_tig_key(n) && #[trigger] from_tig(*graph, n, true, l);
                let m = choose|m: NodeKey| #[trigger] from_tig_via(*graph, n, m, true, l);
                let (m2, t) = choose|m2: NodeKey, t: NodeKey| #[trigger] tkkt_path(*graph, n, m, m2, t, l);
                assert(graph_nodes(*graph).contains(n) && tkkt_path(*graph, n, m, m2, t, l));
            }
        }
    }
    r
}

/// A unitig with its sequence and the canonical forms of its first and last
/// k-mers.
pub struct Unitig {
    pub tig: Tig,
    pub seq: Vec<u8>,
    pub begin: u64,
    pub end: u64,
}

/// Unitigs `u` and `v` are distinct and share both end k-mers.
pub open spec fn parallel(tigs: Seq<Unitig>, u: usize, v: usize) -> bool {
    &&& u != v
    &&& u < tigs.len()
    &&& v < tigs.len()
    &&& normalized((tigs[u as int].begin, tigs[u as int].end), tigs[u as int].begin > tigs[u as int].end)
        == normalized((tigs[v as int].begin, tigs[v as int].end), tigs[v as int].begin > tigs[v as int].end)
}

/// The links written for the unitigs: those read from paths through one or
/// two end k-mers between two distinct unitigs that are not parallel, and one
/// self link `(id, -, id, +)` for each circular unitig.
pub open spec fn emitted(tigs: Seq<Unitig>, g: UnitigGraph, l: Link) -> bool {
    ||| ((tkt_link(g, l) || tkkt_link(g, l)) && l.0 != l.2 && !parallel(tigs, l.0, l.2))
    ||| (l.0 == l.2 && l.1 == '-' && l.3 == '+' && l.0 < tigs.len() && tigs[l.0 as int].tig.circular)
}

/// The lexicographic order of links; signs compare by their code points.
pub open spec fn link_lt(a: Link, b: Link) -> bool {
    ||| a.0 < b.0
    ||| (a.0 == b.0 && (a.1 as u32) < (b.1 as u32))
    ||| (a.0 == b.0 && a.1 == b.1 && a.2 < b.2)
    ||| (a.0 == b.0 && a.1 == b.1 && a.2 == b.2 && (a.3 as u32) < (b.3 as u32))
}

pub open spec fn link_le(a: Link, b: Link) -> bool {
    a == b || link_lt(a, b)
}

/// Relies on `slice::sort_unstable`: the same elements, in increasing order
/// (tuples compare lexicographically, characters by code point).
#[verifier::external_body]
fn sort_links(v: &mut Vec<Link>)
    ensures
        final(v)@.to_multiset() == old(v)@.to_multiset(),
        forall|i: int, j: int| 0 <= i < j < final(v)@.len() ==> link_le(#[trigger] final(v)@[i], #[trigger] final(v)@[j]),
{
    v.sort_unstable();
}

/// The links to write, each once, in increasing order.
pub fn unitig_links(tigs: &Vec<Unitig>, graph: &UnitigGraph) -> (r: Vec<Link>)
    ensures
        forall|i: int, j: int| 0 <= i < j < r@.len() ==> link_lt(#[trigger] r@[i], #[trigger] r@[j]),
        forall|l: Link| #[trigger] r@.contains(l) <==> emitted(tigs@, *graph, l),
{
    let mut all: Vec<Link> = Vec::new();
    let mut i: usize = 0;
    while i < tigs.len()
        invariant
            i <= tigs@.len(),
            forall|l: Link| #[trigger] all@.contains(l) <==> (l.0 == l.2 && l.1 == '-' && l.3 == '+' && l.0 < i
                && tigs@[l.0 as int].tig.circular),
        decreases tigs@.len() - i,
    {
        let ghost before = all@;
        if tigs[i].tig.circular {
            all.push((i, '-', i, '+'));
        }
        proof {
            assert forall|l: Link| #[trigger] all@.contains(l) <==> (l.0 == l.2 && l.1 == '-' && l.3 == '+' && l.0 < i + 1
                && tigs@[l.0 as int].tig.circular) by {
                if before.contains(l) {
                    let k = choose|k: int| 0 <= k < before.len() && before[k] == l;
                    assert(all@[k] == l);
                }
                if l.0 == l.2 && l.1 == '-' && l.3 == '+' && l.0 == i && tigs@[l.0 as int].tig.circular {
                    assert(all@.last() == l);
                }
            }
        }
        i = i + 1;
    }
    let tkt = tig_kmer_tig(graph);
    let mut tkkt = tig_kmer_kmer_tig(graph);
    let ghost tkt_s = tkt@;
    let ghost tkkt_s = tkkt@;
    let mut gathered = tkt;
    gathered.append(&mut tkkt);
    let ghost circ = all@;
    let mut j: usize = 0;
    while j < gathered.len()
        invariant
            gathered@ == tkt_s + tkkt_s,
            j <= gathered@.len(),
            forall|l: Link| #[trigger] tkt_s.contains(l) <==> tkt_link(*graph, l),
            forall|l: Link| #[trigger] tkkt_s.contains(l) <==> tkkt_link(*graph, l),
            forall|l: Link| #[trigger] all@.contains(l) <==> circ.contains(l) || exists|j0: int|
                0 <= j0 < j && #[trigger] kept(tigs@, tkt_s + tkkt_s, j0, l),
        decreases gathered@.len() - j,
    {
        let l = gathered[j];
        let ghost both = tkt_s + tkkt_s;
        let keep = l.0 != l.2 && !is_parallel(tigs, l.0, l.2);
        let ghost before = all@;
        if keep {
            all.push(l);
        }
        proof {
            assert forall|x: Link| #[trigger] all@.contains(x) <==> circ.contains(x) || exists|j0: int|
                0 <= j0 < j + 1 && #[trigger] kept(tigs@, both, j0, x) by {
                if before.contains(x) {
                    let k = choose|k: int| 0 <= k < before.len() && before[k] == x;
                    assert(all@[k] == x);
                }
                if exists|j0: int| 0 <= j0 < j + 1 && #[trigger] kept(tigs@, both, j0, x) {
                    let j0 = choose|j0: int| 0 <= j0 < j + 1 && #[trigger] kept(tigs@, both, j0, x);
                    if j0 == j {
                        assert(all@.last() == x);
                    } else {
                        assert(before.contains(x));
                    }
                }
                if all@.contains(x) && !before.contains(x) {
                    assert(kept(tigs@, both, j as int, x));
                }
            }
        }
        j = j + 1;
    }
    proof {
        let both = tkt_s + tkkt_s;
        assert forall|l: Link| #[trigger] all@.contains(l) <==> emitted(tigs@, *graph, l) by {
            if all@.contains(l) && !circ.contains(l) {
                let j0 = choose|j0: int| 0 <= j0 < j && #[trigger] kept(tigs@, both, j0, l);
                if j0 < tkt_s.len() {
                    assert(tkt_s.contains(both[j0]));
                } else {
                    assert(tkkt_s[j0 - tkt_s.len()] == both[j0]);
                    assert(tkkt_s.contains(both[j0]));
                }
            }
            if emitted(tigs@, *graph, l) && !circ.contains(l) {
                if tkt_link(*graph, l) {
                    assert(tkt_s.contains(l));
                    let j0 = choose|j0: int| 0 <= j0 < tkt_s.len() && tkt_s[j0] == l;
                    assert(kept(tigs@, both, j0, l));
                } else {
                    assert(tkkt_s.contains(l));
                    let j0 = choose|j0: int| 0 <= j0 < tkkt_s.len() && tkkt_s[j0] == l;
                    assert(kept(tigs@, both, j0 + tkt_s.len(), l));
                }
            }
        }
    }
    let ghost unsorted = all@;
    sort_links(&mut all);
    proof {
        unsorted.to_multiset_ensures();
        all@.to_multiset_ensures();
        assert forall|l: Link| #[trigger] all@.contains(l) <==> unsorted.contains(l) by {
            assert(all@.to_multiset().count(l) == unsorted.to_multiset().count(l));
        }
    }
    let mut r: Vec<Link> = Vec::new();
    let mut k: usize = 0;
    while k < all.len()
        invariant
            k <= all@.len(),
            forall|a: int, b: int| 0 <= a < b < all@.len() ==> link_le(#[trigger] all@[a], #[trigger] all@[b]),
            forall|a: int, b: int| 0 <= a < b < r@.len() ==> link_lt(#[trigger] r@[a], #[trigger] r@[b]),
            r@.len() > 0 ==> k > 0 && r@.last() == all@[k - 1],
            k > 0 ==> r@.len() > 0,
            forall|l: Link| #[trigger] r@.contains(l) <==> all@.subrange(0, k as int).contains(l),
        decreases all@.len() - k,
    {
        let l = all[k];
        let ghost before = r@;
        let fresh = if r.len() == 0 {
            true
        } else {
            let p = r[r.len() - 1];
            p.0 != l.0 || p.1 != l.1 || p.2 != l.2 || p.3 != l.3
        };
        if fresh {
            r.push(l);
        }
        proof {
            let pre0 = all@.subrange(0, k as int);
            let pre1 = all@.subrange(0, k + 1);
            assert forall|x: Link| #[trigger] r@.contains(x) <==> all@.subrange(0, k + 1).contains(x) by {
                if before.contains(x) {
                    let a = choose|a: int| 0 <= a < before.len() && before[a] == x;
                    assert(r@[a] == x);
                    assert(pre0.contains(x));
                    let b = choose|b: int| 0 <= b < k && pre0[b] == x;
                    assert(pre1[b] == x);
                }
                if pre1.contains(x) {
                    let b = choose|b: int| 0 <= b < k + 1 && pre1[b] == x;
                    if b < k {
                        assert(pre0[b] == x);
                        assert(before.contains(x));
                        let a = choose|a: int| 0 <= a < before.len() && before[a] == x;
                        assert(r@[a] == x);
                    } else {
                        assert(r@.last() == x);
                    }
                }
                if r@.contains(x) && !before.contains(x) {
                    assert(x == l);
                    assert(pre1[k as int] == x);
                }
            }
            assert forall|a: int, b: int| 0 <= a < b < r@.len() implies link_lt(#[trigger] r@[a], #[trigger] r@[b]) by {
                if b == r@.len() - 1 && r@.len() > before.len() && a < before.len() {
                    assert(before.contains(r@[a]));
                    assert(pre0.contains(r@[a]));
                    let c = choose|c: int| 0 <= c < k && pre0[c] == r@[a];
                    assert(all@[c] == r@[a]);
                    assert(link_le(all@[c], all@[k as int]));
                }
            }
        }
        k = k + 1;
    }
    proof {
        assert(all@.subrange(0, k as int) =~= all@);
        assert forall|l: Link| #[trigger] r@.contains(l) <==> emitted(tigs@, *graph, l) by {
            assert(r@.contains(l) <==> all@.contains(l));
            assert(all@.contains(l) <==> unsorted.contains(l));
        }
    }
    r
}

/// Entry `j0` of the gathered links is `l`, and it joins two distinct
/// unitigs that are not parallel.
pub open spec fn kept(tigs: Seq<Unitig>, links: Seq<Link>, j0: int, l: Link) -> bool {
    links[j0] == l && l.0 != l.2 && !parallel(tigs, l.0, l.2)
}

/// Whether unitigs `u` and `v` are distinct and share both end k-mers.
fn is_parallel(tigs: &Vec<Unitig>, u: usize, v: usize) -> (r: bool)
    ensures
        r == parallel(tigs@, u, v),
{
    if u == v || u >= tigs.len() || v >= tigs.len() {
        return false;
    }
    let a = crate::utils::normalize_u64_2tuple((tigs[u].begin, tigs[u].end));
    let b = crate::utils::normalize_u64_2tuple((tigs[v].begin, tigs[v].end));
    a.0 == b.0 && a.1 == b.1
}

/// The tag of the edge from a unitig to its first k-mer.
pub open spec fn begin_tag(u: Unitig) -> Edge {
    if u.begin == u.end {
        Edge::Both
    } else {
        Edge::Begin
    }
}

/// The tag of the edge from a unitig to its last k-mer.
pub open spec fn end_tag(u: Unitig) -> Edge {
    if u.begin == u.end {
        Edge::Both
    } else {
        Edge::End
    }
}

/// `n` is unitig `i` or one of its end k-mers.
pub open spec fn tig_node(tigs: Seq<Unitig>, i: int, n: NodeKey) -> bool {
    n == tig_key(i as usize) || n == kmer_key(tigs[i].begin) || n == kmer_key(tigs[i].end)
}

/// `e` is the edge from unitig `i` to one of its end k-mers.
pub open spec fn tig_edge(tigs: Seq<Unitig>, i: int, e: (NodeKey, NodeKey)) -> bool {
    e == edge_key(tig_key(i as usize), kmer_key(tigs[i].begin)) || e == edge_key(
        tig_key(i as usize),
        kmer_key(tigs[i].end),
    )
}

/// The nodes are exactly the unitigs and their end k-mers.
pub open spec fn nodes_of_tigs(tigs: Seq<Unitig>, nodes: Set<NodeKey>) -> bool {
    forall|n: NodeKey| #[trigger] nodes.contains(n) <==> exists|i: int| 0 <= i < tigs.len() && #[trigger] tig_node(tigs, i, n)
}

/// The graph holds exactly the unitigs, their end k-mers, and one tagged edge
/// from each unitig to each of its end k-mers.
pub open spec fn graph_of_tigs(tigs: Seq<Unitig>, g: UnitigGraph) -> bool {
    &&& nodes_of_tigs(tigs, graph_nodes(g))
    &&& forall|e: (NodeKey, NodeKey)|
        #[trigger] graph_edges(g).contains_key(e) <==> exists|i: int|
            0 <= i < tigs.len() && #[trigger] tig_edge(tigs, i, e)
    &&& forall|i: int|
        0 <= i < tigs.len() ==> graph_edges(g)[edge_key(tig_key(i as usize), kmer_key(#[trigger] tigs[i].begin))]
            == begin_tag(tigs[i]) && graph_edges(g)[edge_key(tig_key(i as usize), kmer_key(tigs[i].end))]
            == end_tag(tigs[i])
}

/// Unitig `i` is well formed: numbered `i`, its length that of its sequence (at
/// least one k-mer), its ends the canonical forms of the k-mers that its
/// first and last `k` letters spell, circular when they are equal.
pub open spec fn tig_ok(tigs: Seq<Unitig>, i: int, k: u8) -> bool {
    &&& tigs[i].begin == canonical_spec(seq_code(tigs[i].seq@.take(k as int)) as u64, k)
    &&& tigs[i].end == canonical_spec(seq_code(tigs[i].seq@.skip(tigs[i].seq@.len() - k)) as u64, k)
    &&& tigs[i].tig.id == i
    &&& tigs[i].tig.len == tigs[i].seq@.len()
    &&& tigs[i].seq@.len() >= k
    &&& is_kcode(tigs[i].begin, k) && is_canonical(tigs[i].begin, k)
    &&& is_kcode(tigs[i].end, k) && is_canonical(tigs[i].end, k)
    &&& tigs[i].tig.circular == (tigs[i].begin == tigs[i].end)
}

/// The end k-mers of each unitig, first and last, in unitig order.
pub open spec fn ends_listed(ext: Seq<Node>, tigs: Seq<Unitig>) -> bool {
    &&& ext.len() == 2 * tigs.len()
    &&& forall|i: int|
        0 <= i < tigs.len() ==> ext[2 * i] == Node::Kmer(Kmer { id: #[trigger] tigs[i].begin }) && ext[2 * i + 1]
            == Node::Kmer(Kmer { id: tigs[i].end })
}

proof fn lemma_ends_listed_push(ext: Seq<Node>, tigs: Seq<Unitig>, u: Unitig)
    requires
        ends_listed(ext, tigs),
    ensures
        ends_listed(ext.push(Node::Kmer(Kmer { id: u.begin })).push(Node::Kmer(Kmer { id: u.end })), tigs.push(u)),
{
    let e2 = ext.push(Node::Kmer(Kmer { id: u.begin })).push(Node::Kmer(Kmer { id: u.end }));
    let t2 = tigs.push(u);
    assert forall|i: int| 0 <= i < t2.len() implies e2[2 * i] == Node::Kmer(Kmer { id: #[trigger] t2[i].begin })
        && e2[2 * i + 1] == Node::Kmer(Kmer { id: t2[i].end }) by {
        if i < tigs.len() {
            assert(t2[i] == tigs[i]);
            assert(e2[2 * i] == ext[2 * i]);
            assert(e2[2 * i + 1] == ext[2 * i + 1]);
        }
    }
}

/// A unitig as a value: its letters and the canonical forms of its ends.
pub open spec fn tig_view(u: Unitig) -> (Seq<u8>, u64, u64) {
    (u.seq@, u.begin, u.end)
}

/// The unitigs built from the seeds below `n`, in increasing order, and the
/// visited table after them. A seed is skipped when it is not solid or
/// already visited; otherwise it is marked with every k-mer of its walks, and
/// gives its unitig if it has one.
pub open spec fn fold_seeds(g: Graph, n: nat) -> (Seq<(Seq<u8>, u64, u64)>, Seq<bool>)
    decreases n,
{
    let k = g.spec_k();
    if n == 0 {
        (Seq::empty(), Seq::new(space_size(k), |i: int| false))
    } else {
        let prev = fold_seeds(g, (n - 1) as nat);
        let x = (n - 1) as u64;
        if !g.solid_at(x) || prev.1[kmer_index(x, k)] {
            prev
        } else {
            let vis = Seq::new(prev.1.len(), |i: int| prev.1[i] || i == kmer_index(x, k) || walk_own(g, x)[i]);
            match tig_spec(g, x) {
                Some(t) => (prev.0.push(t), vis),
                None => (prev.0, vis),
            }
        }
    }
}

/// Some unitig spells a k-mer with the canonical index `i`.
pub open spec fn spelled_by(tigs: Seq<Unitig>, k: u8, i: int) -> bool {
    exists|t: int| 0 <= t < tigs.len() && #[trigger] spells_index(tigs[t].seq@, k, i)
}

/// `i` is the canonical index of a solid seed below `n` whose walks give no
/// unitig: one that no walk can leave and that has fewer than two
/// predecessors or successors.
pub open spec fn discarded(g: Graph, n: nat, i: int) -> bool {
    exists|y: u64| y < n && #[trigger] kmer_index(y, g.spec_k()) == i && g.solid_at(y) && tig_spec(g, y) is None
}

/// The visited table after a seed that gives the unitig `u` still covers
/// only spelled or discarded indices.
proof fn lemma_cover_some(g: Graph, tigs: Seq<Unitig>, u: Unitig, prev: Seq<bool>, next: Seq<bool>, kmer: u64)
    requires
        g.wf(),
        prev.len() == space_size(g.spec_k()),
        next == Seq::new(prev.len(), |i: int| prev[i] || i == kmer_index(kmer, g.spec_k()) || walk_own(g, kmer)[i]),
        forall|i: int| 0 <= i < space_size(g.spec_k()) && #[trigger] walk_own(g, kmer)[i] ==> spells_index(u.seq@, g.spec_k(), i),
        forall|i: int|
            0 <= i < prev.len() && #[trigger] prev[i] ==> spelled_by(tigs, g.spec_k(), i) || discarded(g, kmer as nat, i),
    ensures
        forall|i: int|
            0 <= i < next.len() && #[trigger] next[i] ==> spelled_by(tigs.push(u), g.spec_k(), i) || discarded(
                g,
                (kmer + 1) as nat,
                i,
            ),
{
    let k = g.spec_k();
    let t2 = tigs.push(u);
    lemma_seed_walked(g, kmer);
    crate::graph::kmer::lemma_kmer_index_bound(kmer, k);
    assert forall|i: int| 0 <= i < next.len() && #[trigger] next[i] implies spelled_by(t2, k, i) || discarded(
        g,
        (kmer + 1) as nat,
        i,
    ) by {
        assert(t2[tigs.len() as int] == u);
        if prev[i] {
            if spelled_by(tigs, k, i) {
                let t = choose|t: int| 0 <= t < tigs.len() && #[trigger] spells_index(tigs[t].seq@, k, i);
                assert(t2[t] == tigs[t]);
            } else {
                let y = choose|y: u64| y < kmer as nat && #[trigger] kmer_index(y, k) == i && g.solid_at(y) && tig_spec(g, y) is None;
                assert(kmer_index(y, k) == i);
            }
        } else {
            assert(walk_own(g, kmer)[i]);
            assert(spells_index(t2[tigs.len() as int].seq@, k, i));
        }
    }
}

/// The visited table after a seed that gives no unitig still covers only
/// spelled or discarded indices.
proof fn lemma_cover_none(g: Graph, tigs: Seq<Unitig>, prev: Seq<bool>, next: Seq<bool>, kmer: u64)
    requires
        g.wf(),
        g.solid_at(kmer),
        tig_spec(g, kmer) is None,
        prev.len() == space_size(g.spec_k()),
        next == Seq::new(prev.len(), |i: int| prev[i] || i == kmer_index(kmer, g.spec_k()) || walk_own(g, kmer)[i]),
        forall|i: int|
            0 <= i < prev.len() && #[trigger] prev[i] ==> spelled_by(tigs, g.spec_k(), i) || discarded(g, kmer as nat, i),
    ensures
        forall|i: int|
            0 <= i < next.len() && #[trigger] next[i] ==> spelled_by(tigs, g.spec_k(), i) || discarded(
                g,
                (kmer + 1) as nat,
                i,
            ),
{
    let k = g.spec_k();
    lemma_seed_walked(g, kmer);
    assert forall|i: int| 0 <= i < next.len() && #[trigger] next[i] implies spelled_by(tigs, k, i) || discarded(
        g,
        (kmer + 1) as nat,
        i,
    ) by {
        if prev[i] {
            if !spelled_by(tigs, k, i) {
                let y = choose|y: u64| y < kmer as nat && #[trigger] kmer_index(y, k) == i && g.solid_at(y) && tig_spec(g, y) is None;
                assert(kmer_index(y, k) == i);
            }
        } else {
            assert(i == kmer_index(kmer, k));
            assert(kmer_index(kmer, k) == i);
        }
    }
}

/// Determinism: two graphs with the same k-mer size, depth bound and
/// solidity bits give the same unitigs, in the same order, and the same
/// visited table, from the same seeds.
pub proof fn lemma_fold_deterministic(g1: Graph, g2: Graph, n: nat)
    requires
        crate::graph::kmer::same_solidity(g1, g2),
    ensures
        fold_seeds(g1, n) == fold_seeds(g2, n),
    decreases n,
{
    if n > 0 {
        lemma_fold_deterministic(g1, g2, (n - 1) as nat);
        let x = (n - 1) as u64;
        crate::utils::lemma_same_walks(g1, g2, x);
        let prev = fold_seeds(g1, (n - 1) as nat);
        if !(!g1.solid_at(x) || prev.1[kmer_index(x, g1.spec_k())]) {
            let v1 = Seq::new(prev.1.len(), |i: int| prev.1[i] || i == kmer_index(x, g1.spec_k()) || walk_own(g1, x)[i]);
            let v2 = Seq::new(prev.1.len(), |i: int| prev.1[i] || i == kmer_index(x, g2.spec_k()) || walk_own(g2, x)[i]);
            assert(v1 =~= v2);
        }
    }
}

/// One seed of [`fold_seeds`]: the seed `x` after the state `prev`.
pub open spec fn fold_seeds_step(g: Graph, prev: (Seq<(Seq<u8>, u64, u64)>, Seq<bool>), x: u64) -> (
    Seq<(Seq<u8>, u64, u64)>,
    Seq<bool>,
) {
    let k = g.spec_k();
    if !g.solid_at(x) || prev.1[kmer_index(x, k)] {
        prev
    } else {
        let vis = Seq::new(prev.1.len(), |i: int| prev.1[i] || i == kmer_index(x, k) || walk_own(g, x)[i]);
        match tig_spec(g, x) {
            Some(t) => (prev.0.push(t), vis),
            None => (prev.0, vis),
        }
    }
}

/// The unitigs of a solid k-mer graph, the end k-mers of each (first and
/// last, in unitig order), and the graph that joins them.
pub struct Unitigs {
    pub tigs: Vec<Unitig>,
    pub ext_nodes: Vec<Node>,
    pub graph: UnitigGraph,
}

/// Builds the unitigs of `solid`, seeding a walk at every solid k-mer below
/// `4^k / 2` not yet visited, in increasing order, and records each unitig
/// with its end k-mers in the unitig graph.
///
/// The unitigs are those of [`fold_seeds`]. Every solid k-mer below
/// `4^k / 2` ends up spelled, up to its canonical index, by some unitig, or
/// shares its index with a solid seed whose own walks give no unitig.
#[verifier::spinoff_prover]
#[verifier::rlimit(80)]
pub fn build_unitigs(k: u8, solid: &Graph) -> (r: Unitigs)
    requires
        solid.wf(),
        k == solid.spec_k(),
    ensures
        forall|i: int| 0 <= i < r.tigs@.len() ==> #[trigger] tig_ok(r.tigs@, i, k),
        forall|i: int|
            0 <= i < r.tigs@.len() ==> solid.solid_at(#[trigger] r.tigs@[i].begin) && solid.solid_at(r.tigs@[i].end),
        ends_listed(r.ext_nodes@, r.tigs@),
        graph_of_tigs(r.tigs@, r.graph),
        r.tigs@.map_values(|u: Unitig| tig_view(u)) == fold_seeds(*solid, space_size(k)).0,
        forall|x: u64|
            x < space_size(k) && #[trigger] solid.solid_at(x) ==> spelled_by(r.tigs@, k, kmer_index(x, k))
                || discarded(*solid, space_size(k), kmer_index(x, k)),
{
    let n = kmer_space_size(k);
    let mut visited = Viewed::new(n, k);
    let mut tigs: Vec<Unitig> = Vec::new();
    let mut ext_nodes: Vec<Node> = Vec::new();
    let mut graph = graph_new();
    let mut kmer: u64 = 0;
    proof {
        lemma_space_size(k);
    }
    while kmer < n
        invariant
            solid.wf(),
            k == solid.spec_k(),
            n == space_size(k),
            2 * n == crate::codec::pow4(k as nat),
            visited.wf(),
            visited.spec_k() == k,
            tigs@.len() <= kmer <= n,
            forall|i: int| 0 <= i < tigs@.len() ==> #[trigger] tig_ok(tigs@, i, k),
            forall|i: int|
                0 <= i < tigs@.len() ==> solid.solid_at(#[trigger] tigs@[i].begin) && solid.solid_at(tigs@[i].end),
            ends_listed(ext_nodes@, tigs@),
            graph_of_tigs(tigs@, graph),
            tigs@.map_values(|u: Unitig| tig_view(u)) == fold_seeds(*solid, kmer as nat).0,
            visited.seen() == fold_seeds(*solid, kmer as nat).1,
            forall|i: int|
                0 <= i < visited.seen().len() && #[trigger] visited.seen()[i] ==> spelled_by(tigs@, k, i) || discarded(
                    *solid,
                    kmer as nat,
                    i,
                ),
            forall|x: u64| x < kmer && #[trigger] solid.solid_at(x) ==> visited.seen()[kmer_index(x, k)],
        decreases n - kmer,
    {
        let ghost prev = fold_seeds(*solid, kmer as nat);
        let ghost tigs_prev = tigs@;
        proof {
            lemma_kmer_index_bound(kmer, k);
            assert(fold_seeds(*solid, (kmer + 1) as nat) == fold_seeds_step(*solid, prev, kmer));
        }
        if !solid.is_solid(kmer) || visited.contains(kmer) {
            proof {
                assert forall|i: int| 0 <= i < visited.seen().len() && #[trigger] visited.seen()[i] implies spelled_by(tigs@, k, i)
                    || discarded(*solid, (kmer + 1) as nat, i) by {
                    if !spelled_by(tigs@, k, i) {
                        let y = choose|y: u64| y < kmer as nat && #[trigger] kmer_index(y, k) == i && solid.solid_at(y) && tig_spec(*solid, y) is None;
                        assert(kmer_index(y, k) == i);
                    }
                }
            }
            kmer = kmer + 1;
            continue;
        }
        visited.insert(kmer);
        let ghost marked = visited.seen();
        match build_tig(kmer, k, solid, &mut visited) {
            None => {
                proof {
                    assert(visited.seen() =~= fold_seeds(*solid, (kmer + 1) as nat).1);
                    lemma_cover_none(*solid, tigs@, prev.1, visited.seen(), kmer);
                    assert forall|x: u64| x < kmer + 1 && #[trigger] solid.solid_at(x) implies visited.seen()[kmer_index(x, k)] by {
                        lemma_kmer_index_bound(x, k);
                        if x < kmer {
                            assert(prev.1[kmer_index(x, k)]);
                        }
                    }
                }
            },
            Some((seq, begin, end)) => {
                let id = tigs.len();
                let tkey: NodeKey = (1u64, id as u64);
                let bkey: NodeKey = (0u64, begin);
                let ekey: NodeKey = (0u64, end);
                let u = Unitig { tig: Tig { id, len: seq.len(), circular: begin == end }, seq, begin, end };
                let ghost old_tigs = tigs@;
                let ghost g0 = graph;
                graph_add_node(&mut graph, tkey);
                graph_add_node(&mut graph, bkey);
                graph_add_node(&mut graph, ekey);
                if begin == end {
                    graph_add_edge(&mut graph, tkey, bkey, Edge::Both);
                } else {
                    graph_add_edge(&mut graph, tkey, bkey, Edge::Begin);
                    graph_add_edge(&mut graph, tkey, ekey, Edge::End);
                }
                let ghost old_ext = ext_nodes@;
                ext_nodes.push(Node::Kmer(Kmer { id: begin }));
                ext_nodes.push(Node::Kmer(Kmer { id: end }));
                tigs.push(u);
                assert(ext_nodes@ == old_ext.push(Node::Kmer(Kmer { id: begin })).push(Node::Kmer(Kmer { id: end })));
                proof {
                    let t = tigs@;
                    assert(t[id as int] == u);
                    assert forall|i: int| 0 <= i < t.len() implies #[trigger] tig_ok(t, i, k) by {
                        if i < id {
                            assert(t[i] == old_tigs[i]);
                            assert(tig_ok(old_tigs, i, k));
                        }
                    }
                    lemma_ends_listed_push(old_ext, old_tigs, u);
                    assert forall|i: int| 0 <= i < t.len() implies solid.solid_at(#[trigger] t[i].begin)
                        && solid.solid_at(t[i].end) by {
                        if i < id {
                            assert(t[i] == old_tigs[i]);
                        }
                    }
                    assert forall|nk: NodeKey| #[trigger] graph_nodes(graph).contains(nk) <==> exists|i: int|
                        0 <= i < t.len() && #[trigger] tig_node(t, i, nk) by {
                        if graph_nodes(g0).contains(nk) {
                            let i = choose|i: int| 0 <= i < old_tigs.len() && #[trigger] tig_node(old_tigs, i, nk);
                            assert(t[i] == old_tigs[i]);
                            assert(tig_node(t, i, nk));
                        } else if graph_nodes(graph).contains(nk) {
                            assert(tig_node(t, id as int, nk));
                        }
                        if exists|i: int| 0 <= i < t.len() && #[trigger] tig_node(t, i, nk) {
                            let i = choose|i: int| 0 <= i < t.len() && #[trigger] tig_node(t, i, nk);
                            if i < id {
                                assert(t[i] == old_tigs[i]);
                                assert(tig_node(old_tigs, i, nk));
                            }
                        }
                    }
                    assert forall|e: (NodeKey, NodeKey)| #[trigger] graph_edges(graph).contains_key(e) <==> exists|i: int|
                        0 <= i < t.len() && #[trigger] tig_edge(t, i, e) by {
                        if graph_edges(g0).contains_key(e) {
                            let i = choose|i: int| 0 <= i < old_tigs.len() && #[trigger] tig_edge(old_tigs, i, e);
                            assert(t[i] == old_tigs[i]);
                            assert(tig_edge(t, i, e));
                        } else if graph_edges(graph).contains_key(e) {
                            assert(tig_edge(t, id as int, e));
                        }
                        if exists|i: int| 0 <= i < t.len() && #[trigger] tig_edge(t, i, e) {
                            let i = choose|i: int| 0 <= i < t.len() && #[trigger] tig_edge(t, i, e);
                            if i < id {
                                assert(t[i] == old_tigs[i]);
                                assert(tig_edge(old_tigs, i, e));
                            }
                        }
                    }
                    assert forall|i: int| 0 <= i < t.len() implies graph_edges(graph)[edge_key(
                        tig_key(i as usize),
                        kmer_key(#[trigger] t[i].begin),
                    )] == begin_tag(t[i]) && graph_edges(graph)[edge_key(tig_key(i as usize), kmer_key(t[i].end))]
                        == end_tag(t[i]) by {
                        if i < id {
                            assert(t[i] == old_tigs[i]);
                            assert(old_tigs[i].begin == t[i].begin);
                        }
                    }
                    assert(old_tigs == tigs_prev);
                    assert(visited.seen() =~= fold_seeds(*solid, (kmer + 1) as nat).1);
                    lemma_cover_some(*solid, tigs_prev, u, prev.1, visited.seen(), kmer);
                    assert forall|x: u64| x < kmer + 1 && #[trigger] solid.solid_at(x) implies visited.seen()[kmer_index(x, k)] by {
                        lemma_kmer_index_bound(x, k);
                        if x < kmer {
                            assert(prev.1[kmer_index(x, k)]);
                        }
                    }
                    assert(t.map_values(|u: Unitig| tig_view(u)) =~= tigs_prev.map_values(|u: Unitig| tig_view(u)).push(
                        tig_view(u),
                    ));
                }
            },
        }
        kmer = kmer + 1;
    }
    Unitigs { tigs, ext_nodes, graph }
}

/// The neighbours listed by a graph query, none when it found none.
pub open spec fn listed(r: Option<(Seq<u64>, u8)>) -> Seq<u64> {
    match r {
        Some((v, _)) => v,
        None => Seq::empty(),
    }
}

/// `e` joins the end k-mer `x` to the canonical form of one of `nbrs` that is
/// a node of the graph.
pub open spec fn kmer_edge_from(x: u64, nbrs: Seq<u64>, k: u8, nodes: Set<NodeKey>, e: (NodeKey, NodeKey)) -> bool {
    exists|j: int|
        0 <= j < nbrs.len() && nodes.contains(kmer_key(canonical_spec(nbrs[j], k))) && e == edge_key(
            kmer_key(x),
            kmer_key(#[trigger] canonical_spec(nbrs[j], k)),
        )
}

/// `e` joins the end k-mer `ext[i]` to an end k-mer that is one of its
/// successors or predecessors, up to reverse complement.
pub open spec fn ext_kmer_edge(ext: Seq<Node>, solid: Graph, nodes: Set<NodeKey>, i: int, e: (NodeKey, NodeKey)) -> bool {
    match ext[i] {
        Node::Kmer(n) => kmer_edge_from(n.id, listed(solid.successors_spec(n.id)), solid.spec_k(), nodes, e)
            || kmer_edge_from(n.id, listed(solid.predecessors_spec(n.id)), solid.spec_k(), nodes, e),
        Node::Tig(_) => false,
    }
}

/// `e` is an edge that `add_missing_edge` adds.
pub open spec fn missing_edge(ext: Seq<Node>, solid: Graph, nodes: Set<NodeKey>, e: (NodeKey, NodeKey)) -> bool {
    exists|i: int| 0 <= i < ext.len() && #[trigger] ext_kmer_edge(ext, solid, nodes, i, e)
}

/// Adds a `Kmer` edge from the end k-mer `x` to the canonical form of each of
/// `nbrs` that is already a node.
fn add_kmer_edges(graph: &mut UnitigGraph, x: u64, nbrs: &Vec<u64>, k: u8)
    requires
        k <= 31,
        graph_nodes(*old(graph)).contains(kmer_key(x)),
    ensures
        graph_nodes(*final(graph)) == graph_nodes(*old(graph)),
        forall|e: (NodeKey, NodeKey)|
            #[trigger] graph_edges(*final(graph)).contains_key(e) <==> graph_edges(*old(graph)).contains_key(e)
                || kmer_edge_from(x, nbrs@, k, graph_nodes(*old(graph)), e),
        forall|e: (NodeKey, NodeKey)|
            kmer_edge_from(x, nbrs@, k, graph_nodes(*old(graph)), e) ==> #[trigger] graph_edges(*final(graph))[e]
                == Edge::Kmer,
        forall|e: (NodeKey, NodeKey)|
            graph_edges(*old(graph)).contains_key(e) && !kmer_edge_from(x, nbrs@, k, graph_nodes(*old(graph)), e)
                ==> #[trigger] graph_edges(*final(graph))[e] == graph_edges(*old(graph))[e],
{
    let ghost g0 = *graph;
    let ghost nodes = graph_nodes(g0);
    let mut j: usize = 0;
    while j < nbrs.len()
        invariant
            k <= 31,
            nodes == graph_nodes(g0),
            nodes.contains(kmer_key(x)),
            graph_nodes(*graph) == nodes,
            j <= nbrs@.len(),
            forall|e: (NodeKey, NodeKey)|
                #[trigger] graph_edges(*graph).contains_key(e) <==> graph_edges(g0).contains_key(e)
                    || kmer_edge_from(x, nbrs@.take(j as int), k, nodes, e),
            forall|e: (NodeKey, NodeKey)|
                kmer_edge_from(x, nbrs@.take(j as int), k, nodes, e) ==> #[trigger] graph_edges(*graph)[e]
                    == Edge::Kmer,
            forall|e: (NodeKey, NodeKey)|
                graph_edges(g0).contains_key(e) && !kmer_edge_from(x, nbrs@.take(j as int), k, nodes, e)
                    ==> #[trigger] graph_edges(*graph)[e] == graph_edges(g0)[e],
        decreases nbrs@.len() - j,
    {
        let c = canonical(nbrs[j], k);
        let ckey: NodeKey = (0u64, c);
        let present = graph_contains_node(graph, ckey);
        let ghost g1 = *graph;
        if present {
            graph_add_edge(graph, (0u64, x), ckey, Edge::Kmer);
        }
        proof {
            let pre = nbrs@.take(j as int);
            let post = nbrs@.take(j + 1);
            assert forall|e: (NodeKey, NodeKey)| kmer_edge_from(x, post, k, nodes, e) <==> kmer_edge_from(x, pre, k, nodes, e)
                || (present && e == edge_key(kmer_key(x), ckey)) by {
                if kmer_edge_from(x, post, k, nodes, e) {
                    let j0 = choose|j0: int| 0 <= j0 < post.len() && nodes.contains(kmer_key(canonical_spec(post[j0], k)))
                        && e == edge_key(kmer_key(x), kmer_key(#[trigger] canonical_spec(post[j0], k)));
                    if j0 < j {
                        assert(pre[j0] == post[j0]);
                    }
                }
                if kmer_edge_from(x, pre, k, nodes, e) {
                    let j0 = choose|j0: int| 0 <= j0 < pre.len() && nodes.contains(kmer_key(canonical_spec(pre[j0], k)))
                        && e == edge_key(kmer_key(x), kmer_key(#[trigger] canonical_spec(pre[j0], k)));
                    assert(pre[j0] == post[j0]);
                }
                if present && e == edge_key(kmer_key(x), ckey) {
                    assert(post[j as int] == nbrs@[j as int]);
                    assert(canonical_spec(post[j as int], k) == c);
                }
            }
        }
        j = j + 1;
    }
    proof {
        assert(nbrs@.take(j as int) =~= nbrs@);
    }
}

/// Joins each end k-mer to the end k-mers among its successors and
/// predecessors, up to reverse complement, by an edge tagged `Kmer`.
pub fn add_missing_edge(ext_nodes: Vec<Node>, solid: Graph, k: u8, graph: UnitigGraph) -> (r: UnitigGraph)
    requires
        solid.wf(),
        k == solid.spec_k(),
        forall|i: int|
            0 <= i < ext_nodes@.len() ==> match #[trigger] ext_nodes@[i] {
                Node::Kmer(n) => is_kcode(n.id, k) && graph_nodes(graph).contains(kmer_key(n.id)),
                Node::Tig(_) => true,
            },
    ensures
        graph_nodes(r) == graph_nodes(graph),
        forall|e: (NodeKey, NodeKey)|
            #[trigger] graph_edges(r).contains_key(e) <==> graph_edges(graph).contains_key(e) || missing_edge(
                ext_nodes@,
                solid,
                graph_nodes(graph),
                e,
            ),
        forall|e: (NodeKey, NodeKey)|
            missing_edge(ext_nodes@, solid, graph_nodes(graph), e) ==> #[trigger] graph_edges(r)[e] == Edge::Kmer,
        forall|e: (NodeKey, NodeKey)|
            graph_edges(graph).contains_key(e) && !missing_edge(ext_nodes@, solid, graph_nodes(graph), e)
                ==> #[trigger] graph_edges(r)[e] == graph_edges(graph)[e],
{
    let ghost g0 = graph;
    let ghost nodes = graph_nodes(graph);
    let mut unitig_graph = graph;
    let mut i: usize = 0;
    while i < ext_nodes.len()
        invariant
            solid.wf(),
            k == solid.spec_k(),
            nodes == graph_nodes(g0),
            forall|i: int|
                0 <= i < ext_nodes@.len() ==> match #[trigger] ext_nodes@[i] {
                    Node::Kmer(n) => is_kcode(n.id, k) && nodes.contains(kmer_key(n.id)),
                    Node::Tig(_) => true,
                },
            graph_nodes(unitig_graph) == nodes,
            i <= ext_nodes@.len(),
            forall|e: (NodeKey, NodeKey)|
                #[trigger] graph_edges(unitig_graph).contains_key(e) <==> graph_edges(g0).contains_key(e)
                    || missing_edge(ext_nodes@.take(i as int), solid, nodes, e),
            forall|e: (NodeKey, NodeKey)|
                missing_edge(ext_nodes@.take(i as int), solid, nodes, e) ==> #[trigger] graph_edges(unitig_graph)[e]
                    == Edge::Kmer,
            forall|e: (NodeKey, NodeKey)|
                graph_edges(g0).contains_key(e) && !missing_edge(ext_nodes@.take(i as int), solid, nodes, e)
                    ==> #[trigger] graph_edges(unitig_graph)[e] == graph_edges(g0)[e],
        decreases ext_nodes@.len() - i,
    {
        let node = ext_nodes[i];
        let ghost g1 = unitig_graph;
        let ghost pre = ext_nodes@.take(i as int);
        let ghost post = ext_nodes@.take(i + 1);
        proof {
            assert forall|e: (NodeKey, NodeKey)| missing_edge(post, solid, nodes, e) <==> missing_edge(pre, solid, nodes, e)
                || ext_kmer_edge(ext_nodes@, solid, nodes, i as int, e) by {
                if missing_edge(post, solid, nodes, e) {
                    let i0 = choose|i0: int| 0 <= i0 < post.len() && #[trigger] ext_kmer_edge(post, solid, nodes, i0, e);
                    assert(post[i0] == ext_nodes@[i0]);
                    if i0 < i {
                        assert(pre[i0] == post[i0]);
                        assert(ext_kmer_edge(pre, solid, nodes, i0, e));
                    }
                }
                if missing_edge(pre, solid, nodes, e) {
                    let i0 = choose|i0: int| 0 <= i0 < pre.len() && #[trigger] ext_kmer_edge(pre, solid, nodes, i0, e);
                    assert(pre[i0] == post[i0]);
                    assert(ext_kmer_edge(post, solid, nodes, i0, e));
                }
                if ext_kmer_edge(ext_nodes@, solid, nodes, i as int, e) {
                    assert(post[i as int] == ext_nodes@[i as int]);
                    assert(ext_kmer_edge(post, solid, nodes, i as int, e));
                }
            }
        }
        match node {
            Node::Kmer(n) => {
                proof {
                    assert(ext_nodes@[i as int] == node);
                }
                let succs = solid.successors(n.id);
                let succ_list: Vec<u64> = match succs {
                    Some((v, _)) => v,
                    None => Vec::new(),
                };
                assert(succ_list@ == listed(solid.successors_spec(n.id)));
                let preds = solid.predecessors(n.id);
                let pred_list: Vec<u64> = match preds {
                    Some((v, _)) => v,
                    None => Vec::new(),
                };
                assert(pred_list@ == listed(solid.predecessors_spec(n.id)));
                add_kmer_edges(&mut unitig_graph, n.id, &succ_list, k);
                let ghost g2 = unitig_graph;
                add_kmer_edges(&mut unitig_graph, n.id, &pred_list, k);
                proof {
                    assert forall|e: (NodeKey, NodeKey)| #[trigger] graph_edges(unitig_graph).contains_key(e)
                        <==> graph_edges(g0).contains_key(e) || missing_edge(post, solid, nodes, e) by {}
                    assert forall|e: (NodeKey, NodeKey)| missing_edge(post, solid, nodes, e)
                        implies #[trigger] graph_edges(unitig_graph)[e] == Edge::Kmer by {}
                    assert forall|e: (NodeKey, NodeKey)| graph_edges(g0).contains_key(e) && !missing_edge(post, solid, nodes, e)
                        implies #[trigger] graph_edges(unitig_graph)[e] == graph_edges(g0)[e] by {}
                }
            },
            Node::Tig(_) => {
                proof {
                    assert(ext_nodes@[i as int] == node);
                }
            },
        }
        i = i + 1;
    }
    proof {
        assert(ext_nodes@.take(i as int) =~= ext_nodes@);
    }
    unitig_graph
}

/// `m` is the node of the first or the last k-mer of `u`.
pub open spec fn is_end_of(u: Unitig, m: NodeKey) -> bool {
    m == kmer_key(u.begin) || m == kmer_key(u.end)
}

/// The role of the end k-mer `m` for `u`.
pub open spec fn role(u: Unitig, m: NodeKey) -> Edge {
    if m == kmer_key(u.begin) && m == kmer_key(u.end) {
        Edge::Both
    } else if m == kmer_key(u.begin) {
        Edge::Begin
    } else {
        Edge::End
    }
}

/// The unitig graph joins each unitig to its end k-mers by edges tagged with
/// their roles, and has no other edge at a unitig.
pub open spec fn assembly_graph(tigs: Seq<Unitig>, g: UnitigGraph) -> bool {
    &&& forall|i: int|
        0 <= i < tigs.len() ==> tag(g, tig_key(i as usize), kmer_key(#[trigger] tigs[i].begin))
            == Some(begin_tag(tigs[i])) && tag(g, tig_key(i as usize), kmer_key(tigs[i].end))
            == Some(end_tag(tigs[i]))
    &&& forall|e: (NodeKey, NodeKey)|
        #[trigger] graph_edges(g).contains_key(e) ==> (exists|i: int|
            0 <= i < tigs.len() && #[trigger] tig_edge(tigs, i, e)) || (is_kmer_key(e.0) && is_kmer_key(e.1))
}

proof fn lemma_tig_end(tigs: Seq<Unitig>, g: UnitigGraph, n: NodeKey, m: NodeKey)
    requires
        assembly_graph(tigs, g),
        tigs.len() <= usize::MAX,
        is_tig_key(n),
        adj(g, n, m),
    ensures
        (n.1 as usize) < tigs.len(),
        n == tig_key(n.1 as usize),
        is_end_of(tigs[n.1 as usize as int], m),
        tag(g, n, m) == Some(role(tigs[n.1 as usize as int], m)),
{
    let e = edge_key(n, m);
    assert(graph_edges(g).contains_key(e));
    let i = choose|i: int| 0 <= i < tigs.len() && #[trigger] tig_edge(tigs, i, e);
    assert(n == tig_key(i as usize));
    let u = tigs[i];
    assert(tigs[n.1 as usize as int] == u);
}

/// Link soundness: every link written between two distinct unitigs `u` and
/// `v` follows a path of the unitig graph from `u` to one of its end k-mers,
/// possibly on over one edge to an end k-mer of `v`, and to `v`; its signs
/// come from the roles of those end k-mers (begin-begin `- +`, begin-end
/// `- -`, end-begin `+ +`, end-end `+ -`).
pub proof fn lemma_link_soundness(tigs: Seq<Unitig>, g: UnitigGraph, links: Seq<Link>, l: Link)
    requires
        assembly_graph(tigs, g),
        tigs.len() <= usize::MAX,
        forall|x: Link| #[trigger] links.contains(x) <==> emitted(tigs, g, x),
        links.contains(l),
        l.0 != l.2,
    ensures
        l.0 < tigs.len(),
        l.2 < tigs.len(),
        exists|m: NodeKey, m2: NodeKey|
            #![trigger is_end_of(tigs[l.0 as int], m), is_end_of(tigs[l.2 as int], m2)]
            is_end_of(tigs[l.0 as int], m) && is_end_of(tigs[l.2 as int], m2) && (m2 == m || adj(g, m, m2))
                && signs(role(tigs[l.0 as int], m), role(tigs[l.2 as int], m2)) == Some((l.1, l.3)),
        !parallel(tigs, l.0, l.2),
{
    assert(emitted(tigs, g, l));
    if tkt_link(g, l) {
        let (n, m, t) = choose|n: NodeKey, m: NodeKey, t: NodeKey|
            graph_nodes(g).contains(n) && #[trigger] tkt_path(g, n, m, t, l);
        lemma_tig_end(tigs, g, n, m);
        lemma_tig_end(tigs, g, t, m);
        assert(is_end_of(tigs[l.0 as int], m) && is_end_of(tigs[l.2 as int], m));
    } else {
        let (n, m, m2, t) = choose|n: NodeKey, m: NodeKey, m2: NodeKey, t: NodeKey|
            graph_nodes(g).contains(n) && #[trigger] tkkt_path(g, n, m, m2, t, l);
        lemma_tig_end(tigs, g, n, m);
        lemma_tig_end(tigs, g, t, m2);
        assert(is_end_of(tigs[l.0 as int], m) && is_end_of(tigs[l.2 as int], m2));
    }
}

/// Parallel suppression: no link written joins two parallel unitigs, in
/// either order.
pub proof fn lemma_parallel_suppressed(tigs: Seq<Unitig>, g: UnitigGraph, links: Seq<Link>, u: usize, v: usize)
    requires
        forall|x: Link| #[trigger] links.contains(x) <==> emitted(tigs, g, x),
        parallel(tigs, u, v),
    ensures
        forall|x: Link| #[trigger] links.contains(x) ==> !(x.0 == u && x.2 == v) && !(x.0 == v && x.2 == u),
{
}

/// The unitigs of a solid k-mer graph, the unitig graph with its `Kmer` edges,
/// and the links to write.
pub struct Assembly {
    pub tigs: Vec<Unitig>,
    pub graph: UnitigGraph,
    pub links: Vec<Link>,
}

/// Builds the unitigs, joins their end k-mers that are neighbours in `solid`,
/// and reads the links between unitigs from the resulting graph.
pub fn assemble(solid: Graph, k: u8) -> (r: Assembly)
    requires
        solid.wf(),
        k == solid.spec_k(),
    ensures
        forall|i: int| 0 <= i < r.tigs@.len() ==> #[trigger] tig_ok(r.tigs@, i, k),
        forall|i: int|
            0 <= i < r.tigs@.len() ==> solid.solid_at(#[trigger] r.tigs@[i].begin) && solid.solid_at(r.tigs@[i].end),
        r.tigs@.map_values(|u: Unitig| tig_view(u)) == fold_seeds(solid, space_size(k)).0,
        forall|x: u64|
            x < space_size(k) && #[trigger] solid.solid_at(x) ==> spelled_by(r.tigs@, k, kmer_index(x, k))
                || discarded(solid, space_size(k), kmer_index(x, k)),
        nodes_of_tigs(r.tigs@, graph_nodes(r.graph)),
        assembly_graph(r.tigs@, r.graph),
        forall|i: int, j: int| 0 <= i < j < r.links@.len() ==> link_lt(#[trigger] r.links@[i], #[trigger] r.links@[j]),
        forall|l: Link| #[trigger] r.links@.contains(l) <==> emitted(r.tigs@, r.graph, l),
{
    let built = build_unitigs(k, &solid);
    let Unitigs { tigs, ext_nodes, graph } = built;
    let ghost g0 = graph;
    proof {
        assert forall|i: int| 0 <= i < ext_nodes@.len() implies match #[trigger] ext_nodes@[i] {
            Node::Kmer(n) => is_kcode(n.id, k) && graph_nodes(graph).contains(kmer_key(n.id)),
            Node::Tig(_) => true,
        } by {
            let t = i / 2;
            assert(0 <= t < tigs@.len());
            assert(tig_ok(tigs@, t, k));
            assert(tig_node(tigs@, t, kmer_key(tigs@[t].begin)));
            assert(tig_node(tigs@, t, kmer_key(tigs@[t].end)));
            if i == 2 * t {
                assert(ext_nodes@[i] == Node::Kmer(Kmer { id: tigs@[t].begin }));
            } else {
                assert(i == 2 * t + 1);
                assert(ext_nodes@[i] == Node::Kmer(Kmer { id: tigs@[t].end }));
            }
        }
    }
    let ghost ext = ext_nodes@;
    let graph = add_missing_edge(ext_nodes, solid, k, graph);
    proof {
        assert forall|e: (NodeKey, NodeKey)| missing_edge(ext, solid, graph_nodes(g0), e) implies is_kmer_key(e.0)
            && is_kmer_key(e.1) by {
            let i = choose|i: int| 0 <= i < ext.len() && #[trigger] ext_kmer_edge(ext, solid, graph_nodes(g0), i, e);
        }
        assert forall|i: int| 0 <= i < tigs@.len() implies tag(graph, tig_key(i as usize), kmer_key(#[trigger] tigs@[i].begin))
            == Some(begin_tag(tigs@[i])) && tag(graph, tig_key(i as usize), kmer_key(tigs@[i].end))
            == Some(end_tag(tigs@[i])) by {
            assert(tig_edge(tigs@, i, edge_key(tig_key(i as usize), kmer_key(tigs@[i].begin))));
            assert(tig_edge(tigs@, i, edge_key(tig_key(i as usize), kmer_key(tigs@[i].end))));
        }
    }
    assert(graph_nodes(graph) == graph_nodes(g0));
    let links = unitig_links(&tigs, &graph);
    Assembly { tigs, graph, links }
}

} // verus!
