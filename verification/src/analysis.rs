//! Per-vertex metrics over a loaded graph: the extended-degree approximation
//! and the set of vertices that are not isolated.
use crate::graph::Graph;
use crate::strings::seq_views;
use vstd::prelude::*;

verus! {

/// Caps a mathematical count at what a machine word can hold.
pub open spec fn cap_usize(x: nat) -> nat {
    if x > usize::MAX {
        usize::MAX as nat
    } else {
        x
    }
}

/// The extended-degree contribution of the key at index `e`: its degree less
/// one, and nothing when its degree is zero.
pub open spec fn deg_term(g: Graph, e: usize) -> nat {
    if e < g.adj@.len() && g.adj@[e as int]@.len() >= 1 {
        (g.adj@[e as int]@.len() - 1) as nat
    } else {
        0
    }
}

/// The summed contributions of the indices in `row`.
pub open spec fn deg_terms(g: Graph, row: Seq<usize>) -> nat
    decreases row.len(),
{
    if row.len() == 0 {
        0
    } else {
        deg_terms(g, row.drop_last()) + deg_term(g, row.last())
    }
}

/// The extended degree of `v`: its direct degree plus, for every neighbor,
/// that neighbor's degree less one. Vertices reachable through several
/// neighbors are deliberately counted once per neighbor: the metric is a
/// coarse multiset approximation of two-hop reach, not a vertex count.
pub open spec fn spec_extended_degree(g: Graph, v: Seq<char>) -> nat {
    if g.has_vertex(v) {
        g.adj@[g.idx_of(v)]@.len() + deg_terms(g, g.adj@[g.idx_of(v)]@)
    } else {
        0
    }
}

/// Computes the extended degree of `v`, saturating at the machine-word
/// maximum; an identifier never loaded has extended degree zero.
#[verifier::loop_isolation(false)]
pub fn extended_degree(g: &Graph, v: &str) -> (r: usize)
    requires
        g.wf(),
    ensures
        r as nat == cap_usize(spec_extended_degree(*g, v@)),
{
    let i = match g.find_index(v) {
        None => {
            return 0;
        },
        Some(i) => i,
    };
    proof {
        g.lemma_idx_of(i as int, v@);
    }
    let ghost row = g.adj@[i as int]@;
    let row_len = g.adj[i].len();
    let mut total: usize = row_len;
    let mut k: usize = 0;
    proof {
        assert(row.subrange(0, 0) =~= Seq::<usize>::empty());
    }
    while k < row_len
        invariant
            k <= row_len,
            total as nat == cap_usize((row_len + deg_terms(*g, row.subrange(0, k as int))) as nat),
        decreases row_len - k,
    {
        let e = g.adj[i][k];
        let d = g.adj[e].len();
        let t = if d >= 1 {
            d - 1
        } else {
            0
        };
        proof {
            assert(row.subrange(0, k as int + 1).drop_last() =~= row.subrange(0, k as int));
            assert(row.subrange(0, k as int + 1).last() == e);
            assert(t as nat == deg_term(*g, e));
        }
        if total > usize::MAX - t {
            total = usize::MAX;
        } else {
            total = total + t;
        }
        k += 1;
    }
    proof {
        assert(row.subrange(0, row_len as int) =~= row);
    }
    total
}

/// Whether the vertex at key index `p` has a neighbor other than itself.
pub open spec fn row_has_other(g: Graph, p: int) -> bool {
    exists|k: int| 0 <= k < g.adj@[p]@.len() && (#[trigger] g.adj@[p]@[k]) != p
}

/// The non-isolated vertices found among the first `i` keys.
pub open spec fn non_isolated_prefix(g: Graph, i: int) -> Set<Seq<char>> {
    Set::new(
        |w: Seq<char>|
            exists|p: int|
                0 <= p < i && (#[trigger] g.keys@[p])@ == w && row_has_other(g, p),
    )
}

/// The vertices that belong to a connected component of two or more members.
/// Under the symmetry invariant these are exactly the loaded vertices with a
/// neighbor other than themselves.
pub open spec fn non_isolated(g: Graph) -> Set<Seq<char>> {
    Set::new(
        |v: Seq<char>|
            g.has_vertex(v) && exists|w: Seq<char>| (#[trigger] g.nbrs(v).contains(w)) && w != v,
    )
}

/// A vertex with no neighbors at all never counts as non-isolated.
pub proof fn lemma_isolated_excluded(g: Graph, v: Seq<char>)
    requires
        g.nbrs(v) == Set::<Seq<char>>::empty(),
    ensures
        !non_isolated(g).contains(v),
{
}

/// Collects every vertex that belongs to a component of two or more members,
/// visiting each adjacency row once.
#[verifier::loop_isolation(false)]
pub fn non_isolated_vertices(g: &Graph) -> (r: Vec<String>)
    requires
        g.wf(),
    ensures
        seq_views(r@).no_duplicates(),
        seq_views(r@).to_set() == non_isolated(*g),
{
    let n = g.keys.len();
    let mut r: Vec<String> = Vec::new();
    let mut i: usize = 0;
    while i < n
        invariant
            i <= n,
            seq_views(r@).to_set() == non_isolated_prefix(*g, i as int),
            seq_views(r@).no_duplicates(),
        decreases n - i,
    {
        let row_len = g.adj[i].len();
        let mut k: usize = 0;
        let mut found = false;
        while k < row_len
            invariant
                k <= row_len,
                found == exists|p: int| 0 <= p < k && (#[trigger] g.adj@[i as int]@[p]) != i,
            decreases row_len - k,
        {
            if g.adj[i][k] != i {
                found = true;
                proof {
                    assert(g.adj@[i as int]@[k as int] != i);
                }
                break ;
            }
            k += 1;
        }
        if found {
            let ghost r0 = r@;
            proof {
                assert(row_has_other(*g, i as int));
                assert(!seq_views(r0).contains(g.keys@[i as int]@)) by {
                    if seq_views(r0).contains(g.keys@[i as int]@) {
                        assert(non_isolated_prefix(*g, i as int).contains(g.keys@[i as int]@));
                        let p = choose|p: int|
                            0 <= p < i && (#[trigger] g.keys@[p])@ == g.keys@[i as int]@
                                && row_has_other(*g, p);
                        assert(g.keys@[p]@ != g.keys@[i as int]@);
                    }
                }
                crate::graph::lemma_push_to_set(seq_views(r0), g.keys@[i as int]@);
            }
            r.push(g.keys[i].clone());
            proof {
                assert(seq_views(r@) =~= seq_views(r0).push(g.keys@[i as int]@));
                assert forall|w: Seq<char>|
                    non_isolated_prefix(*g, i as int).insert(g.keys@[i as int]@).contains(
                        w,
                    ) implies non_isolated_prefix(*g, i + 1).contains(w) by {
                    if w == g.keys@[i as int]@ {
                        assert(g.keys@[i as int]@ == w && row_has_other(*g, i as int));
                    } else {
                        let p = choose|p: int|
                            0 <= p < i && (#[trigger] g.keys@[p])@ == w && row_has_other(*g, p);
                    }
                }
                assert forall|w: Seq<char>| non_isolated_prefix(*g, i + 1).contains(
                    w,
                ) implies non_isolated_prefix(*g, i as int).insert(g.keys@[i as int]@).contains(
                    w,
                ) by {
                    let p = choose|p: int|
                        0 <= p < i + 1 && (#[trigger] g.keys@[p])@ == w && row_has_other(*g, p);
                }
                assert(seq_views(r@).to_set() =~= non_isolated_prefix(*g, i + 1));
            }
        } else {
            proof {
                assert(!row_has_other(*g, i as int));
                assert forall|w: Seq<char>| non_isolated_prefix(*g, i + 1).contains(
                    w,
                ) implies non_isolated_prefix(*g, i as int).contains(w) by {
                    let p = choose|p: int|
                        0 <= p < i + 1 && (#[trigger] g.keys@[p])@ == w && row_has_other(*g, p);
                    assert(p != i);
                }
                assert forall|w: Seq<char>| non_isolated_prefix(*g, i as int).contains(
                    w,
                ) implies non_isolated_prefix(*g, i + 1).contains(w) by {
                    let p = choose|p: int|
                        0 <= p < i && (#[trigger] g.keys@[p])@ == w && row_has_other(*g, p);
                }
                assert(non_isolated_prefix(*g, i + 1) =~= non_isolated_prefix(*g, i as int));
            }
        }
        i += 1;
    }
    proof {
        assert forall|w: Seq<char>| non_isolated_prefix(*g, n as int).contains(w) implies non_isolated(
            *g,
        ).contains(w) by {
            let p = choose|p: int|
                0 <= p < n && (#[trigger] g.keys@[p])@ == w && row_has_other(*g, p);
            g.lemma_idx_of(p, w);
            let k = choose|k: int| 0 <= k < g.adj@[p]@.len() && (#[trigger] g.adj@[p]@[k]) != p;
            let e = g.adj@[p]@[k];
            assert(g.adj@[p]@.contains(e));
            assert(e < g.keys@.len());
            assert(g.row_views(p).contains(g.keys@[e as int]@));
            assert(g.keys@[e as int]@ != g.keys@[p]@);
            assert(g.nbrs(w).contains(g.keys@[e as int]@));
        }
        assert forall|w: Seq<char>| non_isolated(*g).contains(w) implies non_isolated_prefix(
            *g,
            n as int,
        ).contains(w) by {
            let p = choose|p: int| 0 <= p < g.keys@.len() && (#[trigger] g.keys@[p])@ == w;
            g.lemma_idx_of(p, w);
            let u = choose|u: Seq<char>| (#[trigger] g.nbrs(w).contains(u)) && u != w;
            let e = choose|e: usize|
                (#[trigger] g.adj@[p]@.contains(e)) && e < g.keys@.len() && g.keys@[e as int]@
                    == u;
            let k = choose|k: int| 0 <= k < g.adj@[p]@.len() && g.adj@[p]@[k] == e;
            assert(e != p);
            assert(g.adj@[p]@[k] != p);
            assert(row_has_other(*g, p));
        }
        assert(non_isolated_prefix(*g, n as int) =~= non_isolated(*g));
        assert(seq_views(r@).to_set() == non_isolated(*g));
    }
    r
}

} // verus!
