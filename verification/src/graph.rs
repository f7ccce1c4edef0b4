//! The adjacency store: vertex identifiers are string tokens, and the
//! neighbor relation is kept symmetric by construction.
use crate::strings::str_eq;
use vstd::prelude::*;

verus! {

/// An undirected graph over string vertex identifiers.
///
/// Vertices are kept in `keys` in insertion order, without duplicates;
/// `adj[i]` lists the indices of the neighbors of `keys[i]`, without
/// duplicates and symmetrically: `j` appears in `adj[i]` exactly when `i`
/// appears in `adj[j]`.
pub struct Graph {
    pub keys: Vec<String>,
    pub adj: Vec<Vec<usize>>,
}

impl Graph {
    /// Well-formedness: one adjacency row per key, distinct keys, valid and
    /// duplicate-free adjacency rows, and a symmetric neighbor relation.
    pub open spec fn wf(self) -> bool {
        &&& self.adj@.len() == self.keys@.len()
        &&& forall|i: int, j: int|
            0 <= i < self.keys@.len() && 0 <= j < self.keys@.len() && i != j
                ==> self.keys@[i]@ != self.keys@[j]@
        &&& forall|i: int, k: int|
            0 <= i < self.adj@.len() && 0 <= k < self.adj@[i]@.len()
                ==> (#[trigger] self.adj@[i]@[k]) < self.keys@.len()
        &&& forall|i: int| 0 <= i < self.adj@.len() ==> (#[trigger] self.adj@[i]@).no_duplicates()
        &&& forall|u: usize, w: usize|
            u < self.adj@.len() && w < self.adj@.len()
                ==> ((#[trigger] self.adj@[u as int]@.contains(w)) <==> (
                #[trigger] self.adj@[w as int]@.contains(u)))
    }

    /// The vertex universe: the set of identifiers that have been loaded.
    pub open spec fn dom(self) -> Set<Seq<char>> {
        Set::new(|v: Seq<char>| self.has_vertex(v))
    }

    /// Whether `v` has been loaded as a key.
    pub open spec fn has_vertex(self, v: Seq<char>) -> bool {
        exists|i: int| 0 <= i < self.keys@.len() && (#[trigger] self.keys@[i])@ == v
    }

    /// The index of `v` in `keys` (meaningful only when `has_vertex(v)`).
    pub open spec fn idx_of(self, v: Seq<char>) -> int {
        choose|i: int| 0 <= i < self.keys@.len() && (#[trigger] self.keys@[i])@ == v
    }

    /// The identifiers named by adjacency row `i`.
    pub open spec fn row_views(self, i: int) -> Set<Seq<char>> {
        Set::new(
            |w: Seq<char>|
                exists|e: usize|
                    (#[trigger] self.adj@[i]@.contains(e)) && e < self.keys@.len()
                        && self.keys@[e as int]@ == w,
        )
    }

    /// The neighbor set of `v`: empty for identifiers never loaded.
    pub open spec fn nbrs(self, v: Seq<char>) -> Set<Seq<char>> {
        if self.has_vertex(v) {
            self.row_views(self.idx_of(v))
        } else {
            Set::empty()
        }
    }

    /// With distinct keys, the index of a key is unique, so `idx_of` picks it.
    pub proof fn lemma_idx_of(self, i: int, v: Seq<char>)
        requires
            self.wf(),
            0 <= i < self.keys@.len(),
            self.keys@[i]@ == v,
        ensures
            self.has_vertex(v),
            self.idx_of(v) == i,
    {
        assert(self.has_vertex(v));
        let j = self.idx_of(v);
        assert(0 <= j < self.keys@.len() && self.keys@[j]@ == v);
        if i != j {
            assert(self.keys@[i]@ != self.keys@[j]@);
        }
    }

    /// Creates an empty graph.
    pub fn new() -> (g: Graph)
        ensures
            g.wf(),
            g.dom() == Set::<Seq<char>>::empty(),
            g.keys@.len() == 0,
    {
        let g = Graph { keys: Vec::new(), adj: Vec::new() };
        proof {
            assert(g.dom() =~= Set::<Seq<char>>::empty());
        }
        g
    }

    /// The number of distinct vertices loaded so far.
    pub fn vertex_count(&self) -> (n: usize)
        ensures
            n == self.keys@.len(),
    {
        self.keys.len()
    }

    /// Looks up the key index of `v`, scanning the key list.
    pub fn find_index(&self, v: &str) -> (r: Option<usize>)
        ensures
            match r {
                Some(i) => i < self.keys@.len() && self.keys@[i as int]@ == v@,
                None => !self.has_vertex(v@),
            },
    {
        let n = self.keys.len();
        let mut i: usize = 0;
        while i < n
            invariant
                n == self.keys@.len(),
                i <= n,
                forall|k: int| 0 <= k < i ==> (#[trigger] self.keys@[k])@ != v@,
            decreases n - i,
        {
            if str_eq(self.keys[i].as_str(), v) {
                return Some(i);
            }
            i += 1;
        }
        None
    }

    /// Appends `node` as a fresh key with an empty adjacency row unless it is
    /// already present; returns its index either way.
    fn ensure_vertex(&mut self, node: String) -> (i: usize)
        requires
            old(self).wf(),
        ensures
            final(self).wf(),
            i < final(self).keys@.len(),
            final(self).keys@[i as int]@ == node@,
            old(self).keys@.len() <= final(self).keys@.len(),
            forall|k: int|
                0 <= k < old(self).keys@.len() ==> final(self).keys@[k] == old(self).keys@[k]
                    && final(self).adj@[k] == old(self).adj@[k],
            old(self).has_vertex(node@) ==> *final(self) == *old(self) && i == old(self).idx_of(
                node@,
            ),
            !old(self).has_vertex(node@) ==> final(self).keys@.len() == old(self).keys@.len() + 1
                && i == old(self).keys@.len() && final(self).adj@[i as int]@.len() == 0,
    {
        match self.find_index(node.as_str()) {
            Some(i) => {
                proof {
                    self.lemma_idx_of(i as int, node@);
                }
                i
            },
            None => {
                let i = self.keys.len();
                self.keys.push(node);
                self.adj.push(Vec::new());
                proof {
                    assert forall|p: int, q: int|
                        0 <= p < self.keys@.len() && 0 <= q < self.keys@.len() && p != q implies self
                        .keys@[p]@ != self.keys@[q]@ by {
                        if p < old(self).keys@.len() && q < old(self).keys@.len() {
                        } else if p == old(self).keys@.len() {
                            assert(!old(self).has_vertex(self.keys@[p]@));
                            assert(old(self).keys@[q] == self.keys@[q]);
                        } else {
                            assert(!old(self).has_vertex(self.keys@[q]@));
                            assert(old(self).keys@[p] == self.keys@[p]);
                        }
                    }
                    assert(self.wf());
                }
                i
            },
        }
    }

    /// Appends `j` to row `i` unless it is already there, keeping the row
    /// duplicate-free; no other row changes.
    #[verifier::loop_isolation(false)]
    fn add_arc(&mut self, i: usize, j: usize)
        requires
            i < old(self).adj@.len(),
            j < old(self).keys@.len(),
            old(self).adj@.len() == old(self).keys@.len(),
            forall|p: int, k: int|
                0 <= p < old(self).adj@.len() && 0 <= k < old(self).adj@[p]@.len()
                    ==> (#[trigger] old(self).adj@[p]@[k]) < old(self).keys@.len(),
            forall|p: int|
                0 <= p < old(self).adj@.len() ==> (#[trigger] old(self).adj@[p]@).no_duplicates(),
        ensures
            final(self).keys@ == old(self).keys@,
            final(self).adj@.len() == old(self).adj@.len(),
            forall|p: int|
                0 <= p < old(self).adj@.len() && p != i ==> final(self).adj@[p] == old(
                    self,
                ).adj@[p],
            forall|w: usize|
                (#[trigger] final(self).adj@[i as int]@.contains(w)) <==> (old(
                    self,
                ).adj@[i as int]@.contains(w) || w == j),
            forall|p: int, k: int|
                0 <= p < final(self).adj@.len() && 0 <= k < final(self).adj@[p]@.len()
                    ==> (#[trigger] final(self).adj@[p]@[k]) < final(self).keys@.len(),
            forall|p: int|
                0 <= p < final(self).adj@.len() ==> (#[trigger] final(self).adj@[p]@).no_duplicates(),
    {
        let row_len = self.adj[i].len();
        let mut k: usize = 0;
        while k < row_len
            invariant
                i < self.adj@.len(),
                row_len == self.adj@[i as int]@.len(),
                k <= row_len,
                forall|p: int| 0 <= p < k ==> self.adj@[i as int]@[p] != j,
                *self == *old(self),
            decreases row_len - k,
        {
            if self.adj[i][k] == j {
                proof {
                    assert(old(self).adj@[i as int]@.contains(j));
                }
                return ;
            }
            k += 1;
        }
        proof {
            assert(!old(self).adj@[i as int]@.contains(j));
        }
        self.adj[i].push(j);
        proof {
            let oldrow = old(self).adj@[i as int]@;
            let newrow = self.adj@[i as int]@;
            assert(newrow == oldrow.push(j));
            assert forall|w: usize| #[trigger]
                newrow.contains(w) implies (oldrow.contains(w) || w == j) by {
                let p = choose|p: int| 0 <= p < newrow.len() && newrow[p] == w;
                if p < oldrow.len() {
                    assert(oldrow[p] == w);
                }
            }
            assert forall|w: usize| oldrow.contains(w) || w == j implies #[trigger] newrow.contains(
                w,
            ) by {
                if oldrow.contains(w) {
                    let p = choose|p: int| 0 <= p < oldrow.len() && oldrow[p] == w;
                    assert(newrow[p] == w);
                } else {
                    assert(newrow[oldrow.len() as int] == j);
                }
            }
            assert forall|p: int, q: int|
                0 <= p < newrow.len() && 0 <= q < newrow.len() && p != q implies newrow[p]
                != newrow[q] by {
                if p < oldrow.len() && q < oldrow.len() {
                    assert(oldrow.no_duplicates());
                } else if p == oldrow.len() as int {
                    assert(oldrow.contains(newrow[q]) ==> newrow[q] != j);
                    assert(oldrow[q] == newrow[q]);
                } else if q == oldrow.len() as int {
                    assert(oldrow[p] == newrow[p]);
                }
            }
        }
    }

    /// Two graphs agree on a row's identifiers when the row is the same and
    /// the keys it points at are the same.
    pub proof fn lemma_row_views_agree(ga: Graph, gb: Graph, m: int)
        requires
            0 <= m < ga.adj@.len(),
            0 <= m < gb.adj@.len(),
            ga.adj@[m]@ == gb.adj@[m]@,
            forall|e: usize|
                (#[trigger] ga.adj@[m]@.contains(e)) ==> e < ga.keys@.len() && e < gb.keys@.len()
                    && ga.keys@[e as int]@ == gb.keys@[e as int]@,
        ensures
            ga.row_views(m) == gb.row_views(m),
    {
        assert forall|w: Seq<char>| ga.row_views(m).contains(w) implies gb.row_views(m).contains(
            w,
        ) by {
            let e = choose|e: usize|
                (#[trigger] ga.adj@[m]@.contains(e)) && e < ga.keys@.len() && ga.keys@[e as int]@
                    == w;
            assert(gb.adj@[m]@.contains(e) && e < gb.keys@.len() && gb.keys@[e as int]@ == w);
        }
        assert forall|w: Seq<char>| gb.row_views(m).contains(w) implies ga.row_views(m).contains(
            w,
        ) by {
            let e = choose|e: usize|
                (#[trigger] gb.adj@[m]@.contains(e)) && e < gb.keys@.len() && gb.keys@[e as int]@
                    == w;
            assert(ga.adj@[m]@.contains(e));
            assert(ga.adj@[m]@.contains(e) && e < ga.keys@.len() && ga.keys@[e as int]@ == w);
        }
        assert(ga.row_views(m) =~= gb.row_views(m));
    }

    /// Inserts the undirected edge `{node1, node2}`: each endpoint becomes a
    /// key if absent, each gains the other as a neighbor, and nothing else
    /// changes. Repeating the same call changes nothing further, and the
    /// neighbor relation stays symmetric.
    pub fn add_edge(&mut self, node1: String, node2: String)
        requires
            old(self).wf(),
        ensures
            final(self).wf(),
            final(self).dom() == old(self).dom().insert(node1@).insert(node2@),
            final(self).nbrs(node1@) == old(self).nbrs(node1@).insert(node2@),
            final(self).nbrs(node2@) == old(self).nbrs(node2@).insert(node1@),
            forall|w: Seq<char>|
                w != node1@ && w != node2@ ==> (#[trigger] final(self).nbrs(w)) == old(self).nbrs(
                    w,
                ),
            old(self).keys@.len() <= final(self).keys@.len() <= old(self).keys@.len() + 2,
    {
        let ghost g0 = *old(self);
        let ghost v1 = node1@;
        let ghost v2 = node2@;
        let i = self.ensure_vertex(node1);
        let ghost g1 = *self;
        let j = self.ensure_vertex(node2);
        let ghost g2 = *self;
        proof {
            g2.lemma_idx_of(i as int, v1);
            g2.lemma_idx_of(j as int, v2);
        }
        self.add_arc(i, j);
        let ghost ga = *self;
        self.add_arc(j, i);
        proof {
            let n0 = g0.keys@.len() as int;
            let n2 = g2.keys@.len() as int;
            // Every row of the final graph, by membership, in terms of `g2`.
            assert forall|p: int, w: usize| 0 <= p < n2 implies ((#[trigger] self.adj@[p]@.contains(
                w,
            )) <==> (g2.adj@[p]@.contains(w) || (p == i && w == j) || (p == j && w == i))) by {
                if p == j {
                    if i == j {
                    } else {
                        assert(ga.adj@[p] == g2.adj@[p]);
                    }
                } else if p == i {
                    assert(self.adj@[p] == ga.adj@[p]);
                } else {
                    assert(self.adj@[p] == ga.adj@[p]);
                    assert(ga.adj@[p] == g2.adj@[p]);
                }
            }
            // Well-formedness: only symmetry needs an argument.
            assert forall|u: usize, w: usize| u < n2 && w < n2 implies ((
            #[trigger] self.adj@[u as int]@.contains(w)) <==> (#[trigger] self.adj@[w as int]@.contains(
                u,
            ))) by {
                assert(g2.adj@[u as int]@.contains(w) <==> g2.adj@[w as int]@.contains(u));
            }
            assert(self.wf());
            // The vertex universe gained exactly the two endpoints.
            assert forall|w: Seq<char>| self.has_vertex(w) implies (g0.has_vertex(w) || w == v1
                || w == v2) by {
                let k = choose|k: int| 0 <= k < self.keys@.len() && (#[trigger] self.keys@[k])@ == w;
                if k < n0 {
                    assert(g0.keys@[k] == g1.keys@[k]);
                    assert(g1.keys@[k] == g2.keys@[k]);
                } else if k < g1.keys@.len() {
                    assert(g1.keys@[k]@ == v1);
                    assert(g1.keys@[k] == g2.keys@[k]);
                } else {
                    assert(g2.keys@[k]@ == v2);
                }
            }
            assert forall|w: Seq<char>| g0.has_vertex(w) implies self.has_vertex(w) by {
                let k = choose|k: int| 0 <= k < g0.keys@.len() && (#[trigger] g0.keys@[k])@ == w;
                assert(g1.keys@[k] == g0.keys@[k]);
                assert(g2.keys@[k] == g1.keys@[k]);
            }
            assert(self.has_vertex(v1) && self.has_vertex(v2));
            assert(self.dom() =~= g0.dom().insert(v1).insert(v2));
            // Rows untouched by the two arcs kept their identifiers.
            assert forall|m: int| 0 <= m < n0 && m != i && m != j implies self.row_views(m)
                == g0.row_views(m) by {
                assert(g1.adj@[m] == g0.adj@[m] && g2.adj@[m] == g1.adj@[m]);
                assert(self.adj@[m] == ga.adj@[m] && ga.adj@[m] == g2.adj@[m]);
                assert forall|e: usize| (#[trigger] g0.adj@[m]@.contains(e)) implies e
                    < g0.keys@.len() && e < self.keys@.len() && g0.keys@[e as int]@
                    == self.keys@[e as int]@ by {
                    let k = choose|k: int| 0 <= k < g0.adj@[m]@.len() && g0.adj@[m]@[k] == e;
                    assert(g0.adj@[m]@[k] < g0.keys@.len());
                    assert(g1.keys@[e as int] == g0.keys@[e as int]);
                    assert(g2.keys@[e as int] == g1.keys@[e as int]);
                }
                Self::lemma_row_views_agree(g0, *self, m);
            }
            // Row `i` in `g2` holds exactly the old neighbors of `node1`,
            // row `j` those of `node2`.
            assert forall|e: usize| (#[trigger] g2.adj@[i as int]@.contains(e)) implies e
                < g2.keys@.len() by {
                let k = choose|k: int| 0 <= k < g2.adj@[i as int]@.len() && g2.adj@[i as int]@[k] == e;
            }
            assert forall|e: usize| (#[trigger] g2.adj@[j as int]@.contains(e)) implies e
                < g2.keys@.len() by {
                let k = choose|k: int| 0 <= k < g2.adj@[j as int]@.len() && g2.adj@[j as int]@[k] == e;
            }
            if g0.has_vertex(v1) {
                assert(g1 == g0 && i as int == g0.idx_of(v1));
                assert(i < n0);
                assert(g2.adj@[i as int] == g1.adj@[i as int]);
                assert forall|e: usize| (#[trigger] g0.adj@[i as int]@.contains(e)) implies e
                    < g0.keys@.len() && e < g2.keys@.len() && g0.keys@[e as int]@
                    == g2.keys@[e as int]@ by {
                    let k = choose|k: int|
                        0 <= k < g0.adj@[i as int]@.len() && g0.adj@[i as int]@[k] == e;
                    assert(g2.keys@[e as int] == g1.keys@[e as int]);
                }
                Self::lemma_row_views_agree(g0, g2, i as int);
                assert(g0.nbrs(v1) == g2.row_views(i as int));
            } else {
                assert(g2.adj@[i as int]@.len() == 0);
                assert(g2.row_views(i as int) =~= Set::<Seq<char>>::empty());
                assert(g0.nbrs(v1) == g2.row_views(i as int));
            }
            if g0.has_vertex(v2) {
                let m = g0.idx_of(v2);
                assert(g0.keys@[m]@ == v2);
                assert(g1.keys@[m] == g0.keys@[m]);
                g1.lemma_idx_of(m, v2);
                assert(g2 == g1 && j as int == m);
                assert(g1.adj@[j as int] == g0.adj@[j as int]);
                assert forall|e: usize| (#[trigger] g0.adj@[j as int]@.contains(e)) implies e
                    < g0.keys@.len() && e < g2.keys@.len() && g0.keys@[e as int]@
                    == g2.keys@[e as int]@ by {
                    let k = choose|k: int|
                        0 <= k < g0.adj@[j as int]@.len() && g0.adj@[j as int]@[k] == e;
                    assert(g2.keys@[e as int] == g1.keys@[e as int]);
                }
                Self::lemma_row_views_agree(g0, g2, j as int);
                assert(g0.nbrs(v2) == g2.row_views(j as int));
            } else {
                if g1.has_vertex(v2) {
                    assert(g2 == g1);
                    assert(!g0.has_vertex(v1) && v2 == v1 && j == i);
                    assert(g2.adj@[j as int]@.len() == 0);
                } else {
                    assert(g2.adj@[j as int]@.len() == 0);
                }
                assert(g2.row_views(j as int) =~= Set::<Seq<char>>::empty());
                assert(g0.nbrs(v2) == g2.row_views(j as int));
            }
            // The final rows `i` and `j` add exactly the opposite endpoint.
            self.lemma_idx_of(i as int, v1);
            self.lemma_idx_of(j as int, v2);
            assert forall|w: Seq<char>| self.row_views(i as int).contains(w) implies g2.row_views(
                i as int,
            ).insert(v2).contains(w) by {
                let e = choose|e: usize|
                    (#[trigger] self.adj@[i as int]@.contains(e)) && e < self.keys@.len()
                        && self.keys@[e as int]@ == w;
                if g2.adj@[i as int]@.contains(e) {
                    assert(g2.row_views(i as int).contains(w));
                } else {
                    assert(e == j || (i == j && e == i));
                    assert(w == v2);
                }
            }
            assert forall|w: Seq<char>| g2.row_views(i as int).insert(v2).contains(w) implies self
                .row_views(i as int).contains(w) by {
                if w == v2 {
                    assert(self.adj@[i as int]@.contains(j as usize));
                    assert(self.keys@[j as int]@ == v2);
                } else {
                    let e = choose|e: usize|
                        (#[trigger] g2.adj@[i as int]@.contains(e)) && e < g2.keys@.len()
                            && g2.keys@[e as int]@ == w;
                    assert(self.adj@[i as int]@.contains(e));
                }
            }
            assert(self.nbrs(v1) =~= g0.nbrs(v1).insert(v2));
            assert forall|w: Seq<char>| self.row_views(j as int).contains(w) implies g2.row_views(
                j as int,
            ).insert(v1).contains(w) by {
                let e = choose|e: usize|
                    (#[trigger] self.adj@[j as int]@.contains(e)) && e < self.keys@.len()
                        && self.keys@[e as int]@ == w;
                if g2.adj@[j as int]@.contains(e) {
                    assert(g2.row_views(j as int).contains(w));
                } else {
                    assert(e == i || (i == j && e == j));
                    assert(w == v1);
                }
            }
            assert forall|w: Seq<char>| g2.row_views(j as int).insert(v1).contains(w) implies self
                .row_views(j as int).contains(w) by {
                if w == v1 {
                    assert(self.adj@[j as int]@.contains(i as usize));
                    assert(self.keys@[i as int]@ == v1);
                } else {
                    let e = choose|e: usize|
                        (#[trigger] g2.adj@[j as int]@.contains(e)) && e < g2.keys@.len()
                            && g2.keys@[e as int]@ == w;
                    assert(self.adj@[j as int]@.contains(e));
                }
            }
            assert(self.nbrs(v2) =~= g0.nbrs(v2).insert(v1));
            // Any other identifier kept its neighbor set.
            assert forall|w: Seq<char>| w != v1 && w != v2 implies (#[trigger] self.nbrs(w))
                == g0.nbrs(w) by {
                if g0.has_vertex(w) {
                    let m = g0.idx_of(w);
                    assert(g0.keys@[m]@ == w);
                    assert(g1.keys@[m] == g0.keys@[m]);
                    assert(g2.keys@[m] == g1.keys@[m]);
                    self.lemma_idx_of(m, w);
                    g0.lemma_idx_of(m, w);
                    assert(m != i && m != j);
                    assert(self.row_views(m) == g0.row_views(m));
                } else {
                    assert(!self.has_vertex(w));
                }
            }
        }
    }
}


/// The indices marked true in a bit row.
pub open spec fn marked(bs: Seq<bool>) -> Set<usize> {
    Set::new(|e: usize| e < bs.len() && bs[e as int])
}

/// Pushing onto a sequence inserts into its element set and keeps it
/// duplicate-free when the element is new.
pub proof fn lemma_push_to_set<A>(s: Seq<A>, x: A)
    ensures
        s.push(x).to_set() == s.to_set().insert(x),
        s.no_duplicates() && !s.contains(x) ==> s.push(x).no_duplicates(),
{
    assert forall|y: A| s.push(x).to_set().contains(y) implies s.to_set().insert(x).contains(y) by {
        let p = choose|p: int| 0 <= p < s.push(x).len() && s.push(x)[p] == y;
        if p < s.len() {
            assert(s[p] == y);
        }
    }
    assert forall|y: A| s.to_set().insert(x).contains(y) implies s.push(x).to_set().contains(y) by {
        if y == x {
            assert(s.push(x)[s.len() as int] == x);
        } else {
            let p = choose|p: int| 0 <= p < s.len() && s[p] == y;
            assert(s.push(x)[p] == y);
        }
    }
    assert(s.push(x).to_set() =~= s.to_set().insert(x));
    if s.no_duplicates() && !s.contains(x) {
        assert forall|p: int, q: int|
            0 <= p < s.push(x).len() && 0 <= q < s.push(x).len() && p != q implies s.push(x)[p]
            != s.push(x)[q] by {
            if p < s.len() && q < s.len() {
            } else if p == s.len() as int {
                assert(!s.contains(s.push(x)[q]) ==> s[q] != x);
            } else {
                assert(!s.contains(s.push(x)[p]) ==> s[p] != x);
            }
        }
    }
}

/// A prefix of a sequence grows one element at a time.
pub proof fn lemma_subrange_push<A>(s: Seq<A>, k: int)
    requires
        0 <= k < s.len(),
    ensures
        s.subrange(0, k + 1) == s.subrange(0, k).push(s[k]),
{
    assert(s.subrange(0, k + 1) =~= s.subrange(0, k).push(s[k]));
}

impl Graph {
    /// The key indices named by adjacency row `u`.
    pub open spec fn rowset(self, u: usize) -> Set<usize> {
        Set::new(|w: usize| u < self.adj@.len() && self.adj@[u as int]@.contains(w))
    }

    /// The key indices one hop away from any index in `s`.
    pub open spec fn inbrs(self, s: Set<usize>) -> Set<usize> {
        Set::new(
            |w: usize|
                exists|u: usize|
                    (#[trigger] s.contains(u)) && u < self.adj@.len() && self.adj@[u as int]@.contains(
                        w,
                    ),
        )
    }

    /// The key indices within `d` hops of index `s`.
    pub open spec fn ireach(self, s: usize, d: nat) -> Set<usize>
        decreases d,
    {
        if d == 0 {
            set![s]
        } else {
            self.ireach(s, (d - 1) as nat).union(self.inbrs(self.ireach(s, (d - 1) as nat)))
        }
    }

    /// The identifiers one hop away from any identifier in `s`.
    pub open spec fn nbrs_of_set(self, s: Set<Seq<char>>) -> Set<Seq<char>> {
        Set::new(
            |w: Seq<char>|
                exists|u: Seq<char>| (#[trigger] s.contains(u)) && self.nbrs(u).contains(w),
        )
    }

    /// The identifiers within `d` hops of `v`, `v` itself included: the
    /// specification that breadth-first search is held to.
    pub open spec fn reach(self, v: Seq<char>, d: nat) -> Set<Seq<char>>
        decreases d,
    {
        if d == 0 {
            set![v]
        } else {
            self.reach(v, (d - 1) as nat).union(self.nbrs_of_set(self.reach(v, (d - 1) as nat)))
        }
    }

    /// The identifiers a set of key indices stands for.
    pub open spec fn idx_set_views(self, s: Set<usize>) -> Set<Seq<char>> {
        Set::new(
            |w: Seq<char>|
                exists|e: usize|
                    (#[trigger] s.contains(e)) && e < self.keys@.len() && self.keys@[e as int]@
                        == w,
        )
    }

    /// At depth zero only the start vertex itself is reached.
    pub proof fn lemma_reach_zero(self, v: Seq<char>)
        ensures
            self.reach(v, 0) == set![v],
    {
    }

    /// Raising the hop bound never loses vertices.
    pub proof fn lemma_reach_monotone(self, v: Seq<char>, d: nat)
        ensures
            self.reach(v, d).subset_of(self.reach(v, d + 1)),
    {
        assert(self.reach(v, d + 1) == self.reach(v, d).union(self.nbrs_of_set(self.reach(v, d))));
    }

    /// Every reach set contains its start vertex.
    pub proof fn lemma_reach_contains_start(self, v: Seq<char>, d: nat)
        ensures
            self.reach(v, d).contains(v),
        decreases d,
    {
        if d > 0 {
            self.lemma_reach_contains_start(v, (d - 1) as nat);
        }
    }

    /// An identifier that was never loaded has no neighbors, so nothing but
    /// itself is ever reached from it.
    pub proof fn lemma_reach_isolated(self, v: Seq<char>, d: nat)
        requires
            !self.has_vertex(v),
        ensures
            self.reach(v, d) == set![v],
        decreases d,
    {
        if d > 0 {
            self.lemma_reach_isolated(v, (d - 1) as nat);
            assert forall|w: Seq<char>| !(self.nbrs_of_set(set![v]).contains(w)) by {
                assert(self.nbrs(v) == Set::<Seq<char>>::empty());
            }
            assert(self.reach(v, d) =~= set![v]);
        }
    }

    /// Neighbor sets only hold loaded identifiers.
    pub proof fn lemma_nbrs_in_dom(self, u: Seq<char>)
        requires
            self.wf(),
        ensures
            self.nbrs(u).subset_of(self.dom()),
    {
        if self.has_vertex(u) {
            let m = self.idx_of(u);
            assert forall|w: Seq<char>| self.row_views(m).contains(w) implies self.dom().contains(
                w,
            ) by {
                let e = choose|e: usize|
                    (#[trigger] self.adj@[m]@.contains(e)) && e < self.keys@.len()
                        && self.keys@[e as int]@ == w;
                assert(self.keys@[e as int]@ == w);
            }
        }
    }

    /// Everything reachable from a loaded vertex is a loaded vertex.
    pub proof fn lemma_reach_in_dom(self, v: Seq<char>, d: nat)
        requires
            self.wf(),
            self.has_vertex(v),
        ensures
            self.reach(v, d).subset_of(self.dom()),
        decreases d,
    {
        if d > 0 {
            self.lemma_reach_in_dom(v, (d - 1) as nat);
            assert forall|w: Seq<char>|
                self.nbrs_of_set(self.reach(v, (d - 1) as nat)).contains(w) implies self.dom().contains(
                w,
            ) by {
                let u = choose|u: Seq<char>|
                    (#[trigger] self.reach(v, (d - 1) as nat).contains(u)) && self.nbrs(u).contains(
                        w,
                    );
                self.lemma_nbrs_in_dom(u);
            }
        }
    }

    /// The vertex universe is finite, with one member per key.
    pub proof fn lemma_dom_card(self)
        requires
            self.wf(),
        ensures
            self.dom().finite(),
            self.dom().len() == self.keys@.len(),
    {
        let views = crate::strings::seq_views(self.keys@);
        assert forall|w: Seq<char>| self.dom().contains(w) implies views.to_set().contains(w) by {
            let k = choose|k: int| 0 <= k < self.keys@.len() && (#[trigger] self.keys@[k])@ == w;
            assert(views[k] == w);
        }
        assert forall|w: Seq<char>| views.to_set().contains(w) implies self.dom().contains(w) by {
            let k = choose|k: int| 0 <= k < views.len() && views[k] == w;
            assert(self.keys@[k]@ == w);
        }
        assert(self.dom() =~= views.to_set());
        assert(views.no_duplicates());
        views.unique_seq_to_set();
        vstd::seq_lib::seq_to_set_is_finite(views);
    }

    /// One-hop index neighborhoods distribute over union.
    proof fn lemma_inbrs_union(self, a: Set<usize>, b: Set<usize>)
        ensures
            self.inbrs(a.union(b)) == self.inbrs(a).union(self.inbrs(b)),
    {
        assert forall|w: usize| self.inbrs(a.union(b)).contains(w) implies self.inbrs(a).union(
            self.inbrs(b),
        ).contains(w) by {
            let u = choose|u: usize|
                (#[trigger] a.union(b).contains(u)) && u < self.adj@.len()
                    && self.adj@[u as int]@.contains(w);
            if a.contains(u) {
                assert(self.inbrs(a).contains(w));
            } else {
                assert(b.contains(u));
                assert(self.inbrs(b).contains(w));
            }
        }
        assert forall|w: usize|
            self.inbrs(a).union(self.inbrs(b)).contains(w) implies self.inbrs(a.union(b)).contains(
            w,
        ) by {
            if self.inbrs(a).contains(w) {
                let u = choose|u: usize|
                    (#[trigger] a.contains(u)) && u < self.adj@.len()
                        && self.adj@[u as int]@.contains(w);
                assert(a.union(b).contains(u));
            } else {
                let u = choose|u: usize|
                    (#[trigger] b.contains(u)) && u < self.adj@.len()
                        && self.adj@[u as int]@.contains(w);
                assert(a.union(b).contains(u));
            }
        }
        assert(self.inbrs(a.union(b)) =~= self.inbrs(a).union(self.inbrs(b)));
    }

    /// Adding one index to a set adds exactly that row to its neighborhood.
    proof fn lemma_inbrs_insert(self, a: Set<usize>, u: usize)
        requires
            u < self.adj@.len(),
        ensures
            self.inbrs(a.insert(u)) == self.inbrs(a).union(self.rowset(u)),
    {
        self.lemma_inbrs_union(a, set![u]);
        assert(a.insert(u) =~= a.union(set![u]));
        assert forall|w: usize| self.inbrs(set![u]).contains(w) <==> self.rowset(u).contains(
            w,
        ) by {
            if self.rowset(u).contains(w) {
                assert(set![u].contains(u));
            }
        }
        assert(self.inbrs(set![u]) =~= self.rowset(u));
    }

    /// A smaller index set has a smaller one-hop neighborhood.
    proof fn lemma_inbrs_monotone(self, a: Set<usize>, b: Set<usize>)
        requires
            a.subset_of(b),
        ensures
            self.inbrs(a).subset_of(self.inbrs(b)),
    {
        assert forall|w: usize| self.inbrs(a).contains(w) implies self.inbrs(b).contains(w) by {
            let u = choose|u: usize|
                (#[trigger] a.contains(u)) && u < self.adj@.len() && self.adj@[u as int]@.contains(
                    w,
                );
            assert(b.contains(u));
        }
    }

    /// Once a hop adds nothing, no further hop adds anything.
    proof fn lemma_ireach_stable(self, s: usize, d: nat, e: nat)
        requires
            self.ireach(s, d + 1) == self.ireach(s, d),
        ensures
            self.ireach(s, d + e) == self.ireach(s, d),
        decreases e,
    {
        if e > 0 {
            self.lemma_ireach_stable(s, d, (e - 1) as nat);
            assert(self.ireach(s, d + e) == self.ireach(s, (d + e - 1) as nat).union(
                self.inbrs(self.ireach(s, (d + e - 1) as nat)),
            ));
            assert(self.ireach(s, (d + e - 1) as nat) == self.ireach(s, d));
            assert(self.ireach(s, d + 1) == self.ireach(s, d).union(self.inbrs(self.ireach(s, d))));
        }
    }

    /// A visited set that equals `ireach(s, d)` and a frontier that still
    /// accounts for all of its unexplored neighbors determine the next level.
    proof fn lemma_ireach_step(self, s: usize, d: nat, f: Set<usize>)
        requires
            f.subset_of(self.ireach(s, d)),
            self.inbrs(self.ireach(s, d)).subset_of(self.ireach(s, d).union(self.inbrs(f))),
        ensures
            self.ireach(s, d + 1) == self.ireach(s, d).union(self.inbrs(f)),
    {
        self.lemma_inbrs_monotone(f, self.ireach(s, d));
        assert(self.ireach(s, d + 1) == self.ireach(s, d).union(self.inbrs(self.ireach(s, d))));
        assert(self.ireach(s, d + 1) =~= self.ireach(s, d).union(self.inbrs(f)));
    }

    /// Reachable indices stay within the key range.
    proof fn lemma_ireach_valid(self, s: usize, d: nat)
        requires
            self.wf(),
            s < self.keys@.len(),
        ensures
            forall|e: usize| (#[trigger] self.ireach(s, d).contains(e)) ==> e < self.keys@.len(),
        decreases d,
    {
        if d > 0 {
            let dp = (d - 1) as nat;
            self.lemma_ireach_valid(s, dp);
            assert forall|e: usize| (#[trigger] self.ireach(s, d).contains(e)) implies e
                < self.keys@.len() by {
                if !self.ireach(s, dp).contains(e) {
                    assert(self.inbrs(self.ireach(s, dp)).contains(e));
                    let u = choose|u: usize|
                        (#[trigger] self.ireach(s, dp).contains(u)) && u < self.adj@.len()
                            && self.adj@[u as int]@.contains(e);
                    let k = choose|k: int|
                        0 <= k < self.adj@[u as int]@.len() && self.adj@[u as int]@[k] == e;
                    assert(self.adj@[u as int]@[k] == e);
                }
            }
        }
    }

    /// Index-level and identifier-level reachability name the same vertices.
    proof fn lemma_ireach_views(self, s: usize, v: Seq<char>, d: nat)
        requires
            self.wf(),
            s < self.keys@.len(),
            self.keys@[s as int]@ == v,
        ensures
            self.idx_set_views(self.ireach(s, d)) == self.reach(v, d),
        decreases d,
    {
        self.lemma_ireach_valid(s, d);
        if d == 0 {
            assert forall|w: Seq<char>| self.idx_set_views(set![s]).contains(w) implies set![v].contains(
                w,
            ) by {
                let e = choose|e: usize|
                    (#[trigger] set![s].contains(e)) && e < self.keys@.len()
                        && self.keys@[e as int]@ == w;
            }
            assert(set![s].contains(s));
            assert(self.idx_set_views(set![s]) =~= set![v]);
        } else {
            let dp = (d - 1) as nat;
            self.lemma_ireach_views(s, v, dp);
            self.lemma_ireach_valid(s, dp);
            let a = self.ireach(s, dp);
            let sa = self.reach(v, dp);
            // image of the union is the union of the images
            assert forall|w: Seq<char>| self.idx_set_views(self.ireach(s, d)).contains(
                w,
            ) implies self.reach(v, d).contains(w) by {
                let e = choose|e: usize|
                    (#[trigger] self.ireach(s, d).contains(e)) && e < self.keys@.len()
                        && self.keys@[e as int]@ == w;
                if a.contains(e) {
                    assert(self.idx_set_views(a).contains(w));
                } else {
                    assert(self.inbrs(a).contains(e));
                    let u = choose|u: usize|
                        (#[trigger] a.contains(u)) && u < self.adj@.len()
                            && self.adj@[u as int]@.contains(e);
                    let uv = self.keys@[u as int]@;
                    assert(self.idx_set_views(a).contains(uv));
                    self.lemma_idx_of(u as int, uv);
                    assert(self.nbrs(uv) == self.row_views(u as int));
                    assert(self.row_views(u as int).contains(w));
                    assert(sa.contains(uv) && self.nbrs(uv).contains(w));
                    assert(self.nbrs_of_set(sa).contains(w));
                }
            }
            assert forall|w: Seq<char>| self.reach(v, d).contains(w) implies self.idx_set_views(
                self.ireach(s, d),
            ).contains(w) by {
                if sa.contains(w) {
                    let e = choose|e: usize|
                        (#[trigger] a.contains(e)) && e < self.keys@.len() && self.keys@[e as int]@
                            == w;
                    assert(self.ireach(s, d).contains(e));
                } else {
                    assert(self.nbrs_of_set(sa).contains(w));
                    let uv = choose|uv: Seq<char>|
                        (#[trigger] sa.contains(uv)) && self.nbrs(uv).contains(w);
                    let u = choose|u: usize|
                        (#[trigger] a.contains(u)) && u < self.keys@.len() && self.keys@[u as int]@
                            == uv;
                    self.lemma_idx_of(u as int, uv);
                    assert(self.nbrs(uv) == self.row_views(u as int));
                    let e = choose|e: usize|
                        (#[trigger] self.adj@[u as int]@.contains(e)) && e < self.keys@.len()
                            && self.keys@[e as int]@ == w;
                    assert(self.inbrs(a).contains(e));
                    assert(self.ireach(s, d).contains(e));
                }
            }
            assert(self.idx_set_views(self.ireach(s, d)) =~= self.reach(v, d));
        }
    }
}


impl Graph {
    /// The neighbors of `start_node`, one string per neighbor.
    pub fn neighbors(&self, start_node: &str) -> (r: Vec<String>)
        requires
            self.wf(),
        ensures
            crate::strings::seq_views(r@).no_duplicates(),
            crate::strings::seq_views(r@).to_set() == self.nbrs(start_node@),
    {
        let mut r: Vec<String> = Vec::new();
        match self.find_index(start_node) {
            None => {
                proof {
                    assert(crate::strings::seq_views(r@).to_set() =~= self.nbrs(start_node@));
                }
                r
            },
            Some(i) => {
                proof {
                    self.lemma_idx_of(i as int, start_node@);
                }
                let row_len = self.adj[i].len();
                let mut k: usize = 0;
                while k < row_len
                    invariant
                        self.wf(),
                        i < self.adj@.len(),
                        row_len == self.adj@[i as int]@.len(),
                        k <= row_len,
                        r@.len() == k,
                        forall|p: int|
                            0 <= p < k ==> (#[trigger] r@[p])@ == self.keys@[self.adj@[i as int]@[p] as int]@,
                    decreases row_len - k,
                {
                    let e = self.adj[i][k];
                    r.push(self.keys[e].clone());
                    k += 1;
                }
                proof {
                    let vs = crate::strings::seq_views(r@);
                    let row = self.adj@[i as int]@;
                    assert forall|p: int, q: int|
                        0 <= p < vs.len() && 0 <= q < vs.len() && p != q implies vs[p] != vs[q] by {
                        assert(row[p] != row[q]);
                    }
                    assert forall|w: Seq<char>| vs.to_set().contains(w) implies self.row_views(
                        i as int,
                    ).contains(w) by {
                        let p = choose|p: int| 0 <= p < vs.len() && vs[p] == w;
                        assert(row.contains(row[p]));
                        assert(row[p] < self.keys@.len() && self.keys@[row[p] as int]@ == w);
                    }
                    assert forall|w: Seq<char>| self.row_views(i as int).contains(w) implies vs.to_set().contains(
                        w,
                    ) by {
                        let e = choose|e: usize|
                            (#[trigger] row.contains(e)) && e < self.keys@.len()
                                && self.keys@[e as int]@ == w;
                        let p = choose|p: int| 0 <= p < row.len() && row[p] == e;
                        assert(vs[p] == w);
                    }
                    assert(vs.to_set() =~= self.nbrs(start_node@));
                }
                r
            },
        }
    }

    /// Collects every vertex within `depth` hops of `start_node`, the start
    /// itself included: a level-synchronous breadth-first traversal whose
    /// result is exactly `reach(start_node, depth)`.
    #[verifier::loop_isolation(false)]
    pub fn breadth_first_search(&self, start_node: &str, depth: usize) -> (r: Vec<String>)
        requires
            self.wf(),
        ensures
            crate::strings::seq_views(r@).no_duplicates(),
            crate::strings::seq_views(r@).to_set() == self.reach(start_node@, depth as nat),
            self.reach(start_node@, depth as nat).finite(),
            r@.len() == self.reach(start_node@, depth as nat).len(),
    {
        let ghost v = start_node@;
        let s: usize;
        match self.find_index(start_node) {
            None => {
                let mut r: Vec<String> = Vec::new();
                r.push(start_node.to_owned());
                proof {
                    self.lemma_reach_isolated(v, depth as nat);
                    let vs = crate::strings::seq_views(r@);
                    assert(vs.len() == 1 && vs[0] == v);
                    assert forall|w: Seq<char>| vs.to_set().contains(w) implies set![v].contains(
                        w,
                    ) by {
                        let p = choose|p: int| 0 <= p < vs.len() && vs[p] == w;
                    }
                    assert(vs.to_set().contains(v));
                    assert(vs.to_set() =~= set![v]);
                    vs.unique_seq_to_set();
                }
                return r;
            },
            Some(i) => {
                s = i;
            },
        }
        let n = self.keys.len();
        let mut visited: Vec<bool> = vec![false; n];
        visited[s] = true;
        let mut order: Vec<usize> = Vec::new();
        order.push(s);
        let mut frontier: Vec<usize> = Vec::new();
        frontier.push(s);
        let mut level: usize = 0;
        proof {
            assert(marked(visited@) =~= set![s]);
            lemma_push_to_set(Seq::<usize>::empty(), s);
            assert(Seq::<usize>::empty().to_set() =~= Set::<usize>::empty());
            assert(order@.to_set() =~= set![s]);
            assert(frontier@.to_set() =~= set![s]);
            assert forall|w: usize| self.inbrs(marked(visited@)).contains(w) implies marked(
                visited@,
            ).union(self.inbrs(frontier@.to_set())).contains(w) by {
                assert(marked(visited@) == frontier@.to_set());
            }
        }
        while level < depth && frontier.len() > 0
            invariant
                visited@.len() == n,
                level <= depth,
                marked(visited@) == self.ireach(s, level as nat),
                order@.no_duplicates(),
                forall|p: int| 0 <= p < order@.len() ==> (#[trigger] order@[p]) < n,
                order@.to_set() == marked(visited@),
                frontier@.no_duplicates(),
                forall|p: int| 0 <= p < frontier@.len() ==> (#[trigger] frontier@[p]) < n,
                frontier@.to_set().subset_of(marked(visited@)),
                self.inbrs(marked(visited@)).subset_of(
                    marked(visited@).union(self.inbrs(frontier@.to_set())),
                ),
            decreases depth - level,
        {
            proof {
                assert(frontier@.to_set().subset_of(self.ireach(s, level as nat)));
                assert(self.inbrs(self.ireach(s, level as nat)).subset_of(
                    self.ireach(s, level as nat).union(self.inbrs(frontier@.to_set())),
                ));
                assert(frontier@.subrange(0, 0).to_set() =~= Set::<usize>::empty());
                assert forall|w: usize| !self.inbrs(Set::<usize>::empty()).contains(w) by {
                    if self.inbrs(Set::<usize>::empty()).contains(w) {
                        let u = choose|u: usize|
                            (#[trigger] Set::<usize>::empty().contains(u)) && u < self.adj@.len()
                                && self.adj@[u as int]@.contains(w);
                    }
                }
                assert(self.ireach(s, level as nat).union(
                    self.inbrs(frontier@.subrange(0, 0).to_set()),
                ) =~= self.ireach(s, level as nat));
            }
            let ghost front = frontier@;
            let mut next: Vec<usize> = Vec::new();
            let flen = frontier.len();
            let mut fi: usize = 0;
            while fi < flen
                invariant
                    fi <= flen,
                    visited@.len() == n,
                    marked(visited@) == self.ireach(s, level as nat).union(
                        self.inbrs(front.subrange(0, fi as int).to_set()),
                    ),
                    order@.no_duplicates(),
                    forall|p: int| 0 <= p < order@.len() ==> (#[trigger] order@[p]) < n,
                    order@.to_set() == marked(visited@),
                    next@.no_duplicates(),
                    forall|p: int| 0 <= p < next@.len() ==> (#[trigger] next@[p]) < n,
                    next@.to_set() == marked(visited@).difference(self.ireach(s, level as nat)),
                decreases flen - fi,
            {
                let u = frontier[fi];
                let row_len = self.adj[u].len();
                let ghost row = self.adj@[u as int]@;
                let ghost base = self.ireach(s, level as nat).union(
                    self.inbrs(front.subrange(0, fi as int).to_set()),
                );
                proof {
                    assert(row.subrange(0, 0).to_set() =~= Set::<usize>::empty());
                    assert(base.union(row.subrange(0, 0).to_set()) =~= base);
                }
                let mut k: usize = 0;
                while k < row_len
                    invariant
                        k <= row_len,
                        visited@.len() == n,
                        marked(visited@) == base.union(row.subrange(0, k as int).to_set()),
                        order@.no_duplicates(),
                        forall|p: int| 0 <= p < order@.len() ==> (#[trigger] order@[p]) < n,
                        order@.to_set() == marked(visited@),
                        next@.no_duplicates(),
                        forall|p: int| 0 <= p < next@.len() ==> (#[trigger] next@[p]) < n,
                        next@.to_set() == marked(visited@).difference(self.ireach(s, level as nat)),
                    decreases row_len - k,
                {
                    let w = self.adj[u][k];
                    proof {
                        lemma_subrange_push(row, k as int);
                        lemma_push_to_set(row.subrange(0, k as int), row[k as int]);
                    }
                    if !visited[w] {
                        let ghost m0 = marked(visited@);
                        visited[w] = true;
                        proof {
                            assert(marked(visited@) =~= m0.insert(w));
                            assert(!m0.contains(w));
                            assert(!order@.contains(w));
                            assert(!m0.difference(self.ireach(s, level as nat)).contains(w));
                            assert(next@.to_set() == m0.difference(self.ireach(s, level as nat)));
                            assert(!next@.to_set().contains(w));
                            assert(!next@.contains(w));
                            lemma_push_to_set(next@, w);
                            lemma_push_to_set(order@, w);
                            assert(marked(visited@) =~= base.union(
                                row.subrange(0, k as int + 1).to_set(),
                            ));
                            assert(self.ireach(s, level as nat).subset_of(m0));
                            assert(marked(visited@).difference(self.ireach(s, level as nat)) =~= m0.difference(
                                self.ireach(s, level as nat),
                            ).insert(w));
                            assert(marked(visited@) =~= m0.insert(w));
                        }
                        next.push(w);
                        order.push(w);
                    } else {
                        proof {
                            assert(marked(visited@).contains(w));
                            assert(marked(visited@) =~= base.union(
                                row.subrange(0, k as int + 1).to_set(),
                            ));
                        }
                    }
                    k += 1;
                }
                proof {
                    assert(row.subrange(0, row_len as int) =~= row);
                    assert forall|w: usize| row.to_set().contains(w) <==> self.rowset(u).contains(
                        w,
                    ) by {}
                    assert(row.to_set() =~= self.rowset(u));
                    self.lemma_inbrs_insert(front.subrange(0, fi as int).to_set(), u);
                    lemma_subrange_push(front, fi as int);
                    lemma_push_to_set(front.subrange(0, fi as int), front[fi as int]);
                    assert(front.subrange(0, fi as int + 1).to_set() == front.subrange(
                        0,
                        fi as int,
                    ).to_set().insert(u));
                    assert(marked(visited@) =~= self.ireach(s, level as nat).union(
                        self.inbrs(front.subrange(0, fi as int + 1).to_set()),
                    ));
                }
                fi += 1;
            }
            proof {
                assert(front.subrange(0, flen as int) =~= front);
                let f = front.to_set();
                self.lemma_ireach_step(s, level as nat, f);
                assert(marked(visited@) == self.ireach(s, level as nat + 1));
                assert(self.ireach(s, (level + 1) as nat) == self.ireach(s, level as nat + 1));
                assert forall|w: usize| self.inbrs(marked(visited@)).contains(w) implies marked(
                    visited@,
                ).union(self.inbrs(next@.to_set())).contains(w) by {
                    let u = choose|u: usize|
                        (#[trigger] marked(visited@).contains(u)) && u < self.adj@.len()
                            && self.adj@[u as int]@.contains(w);
                    if self.ireach(s, level as nat).contains(u) {
                        assert(self.inbrs(self.ireach(s, level as nat)).contains(w));
                        assert(self.ireach(s, level as nat + 1) == self.ireach(
                            s,
                            level as nat,
                        ).union(self.inbrs(self.ireach(s, level as nat))));
                        assert(marked(visited@).contains(w));
                    } else {
                        assert(next@.to_set().contains(u));
                        assert(self.inbrs(next@.to_set()).contains(w));
                    }
                }
            }
            frontier = next;
            level += 1;
        }
        proof {
            if level < depth {
                assert(frontier@.len() == 0);
                assert(frontier@.to_set() =~= Set::<usize>::empty());
                assert forall|w: usize| !self.inbrs(Set::<usize>::empty()).contains(w) by {
                    if self.inbrs(Set::<usize>::empty()).contains(w) {
                        let u = choose|u: usize|
                            (#[trigger] Set::<usize>::empty().contains(u)) && u < self.adj@.len()
                                && self.adj@[u as int]@.contains(w);
                    }
                }
                self.lemma_ireach_step(s, level as nat, Set::<usize>::empty());
                assert(self.ireach(s, level as nat + 1) =~= self.ireach(s, level as nat));
                self.lemma_ireach_stable(s, level as nat, (depth - level) as nat);
                assert(self.ireach(s, depth as nat) == self.ireach(s, level as nat));
            }
            assert(marked(visited@) == self.ireach(s, depth as nat));
        }
        let mut r: Vec<String> = Vec::new();
        let olen = order.len();
        let mut q: usize = 0;
        while q < olen
            invariant
                q <= olen,
                r@.len() == q,
                forall|p: int|
                    0 <= p < q ==> (#[trigger] r@[p])@ == self.keys@[order@[p] as int]@,
            decreases olen - q,
        {
            let e = order[q];
            r.push(self.keys[e].clone());
            q += 1;
        }
        proof {
            let vs = crate::strings::seq_views(r@);
            assert forall|p: int, q2: int|
                0 <= p < vs.len() && 0 <= q2 < vs.len() && p != q2 implies vs[p] != vs[q2] by {
                assert(order@[p] != order@[q2]);
            }
            assert forall|w: Seq<char>| vs.to_set().contains(w) implies self.idx_set_views(
                order@.to_set(),
            ).contains(w) by {
                let p = choose|p: int| 0 <= p < vs.len() && vs[p] == w;
                assert(order@.contains(order@[p]));
                assert(order@.to_set().contains(order@[p]));
            }
            assert forall|w: Seq<char>| self.idx_set_views(order@.to_set()).contains(w) implies vs.to_set().contains(
                w,
            ) by {
                let e = choose|e: usize|
                    (#[trigger] order@.to_set().contains(e)) && e < self.keys@.len()
                        && self.keys@[e as int]@ == w;
                let p = choose|p: int| 0 <= p < order@.len() && order@[p] == e;
                assert(vs[p] == w);
            }
            self.lemma_ireach_views(s, v, depth as nat);
            assert(vs.to_set() =~= self.reach(v, depth as nat));
            vs.unique_seq_to_set();
            vstd::seq_lib::seq_to_set_is_finite(vs);
        }
        r
    }
}


impl Graph {
    /// One direction of the symmetry of the neighbor relation.
    proof fn lemma_symmetry_one(self, u: Seq<char>, v: Seq<char>)
        requires
            self.wf(),
            self.nbrs(u).contains(v),
        ensures
            self.nbrs(v).contains(u),
    {
        assert(self.has_vertex(u));
        let i = self.idx_of(u);
        assert(0 <= i < self.keys@.len() && self.keys@[i]@ == u);
        let e = choose|e: usize|
            (#[trigger] self.adj@[i]@.contains(e)) && e < self.keys@.len()
                && self.keys@[e as int]@ == v;
        self.lemma_idx_of(e as int, v);
        assert(self.keys.len() == self.keys@.len());
        let iu = i as usize;
        assert(self.adj@[iu as int]@.contains(e));
        assert(self.adj@[e as int]@.contains(iu));
        assert(self.row_views(e as int).contains(u));
    }

    /// Symmetry of the neighbor relation: every inserted edge is seen from
    /// both of its endpoints.
    pub proof fn lemma_symmetry(self, u: Seq<char>, v: Seq<char>)
        requires
            self.wf(),
        ensures
            self.nbrs(u).contains(v) <==> self.nbrs(v).contains(u),
    {
        if self.nbrs(u).contains(v) {
            self.lemma_symmetry_one(u, v);
        }
        if self.nbrs(v).contains(u) {
            self.lemma_symmetry_one(v, u);
        }
    }

    /// A reach set stays within the loaded universe plus its own start, so it
    /// is finite and no larger than the vertex count plus one; from a loaded
    /// start it is no larger than the vertex count. It always holds the start,
    /// so it is never empty.
    pub proof fn lemma_reach_bound(self, v: Seq<char>, d: nat)
        requires
            self.wf(),
        ensures
            self.reach(v, d).subset_of(self.dom().insert(v)),
            self.reach(v, d).finite(),
            1 <= self.reach(v, d).len() <= self.keys@.len() + 1,
            self.has_vertex(v) ==> self.reach(v, d).subset_of(self.dom()) && self.reach(
                v,
                d,
            ).len() <= self.keys@.len(),
        decreases d,
    {
        self.lemma_dom_card();
        self.lemma_reach_contains_start(v, d);
        if self.reach(v, d).len() == 0 && self.reach(v, d).finite() {
            self.reach(v, d).lemma_len0_is_empty();
        }
        if d > 0 {
            let dp = (d - 1) as nat;
            self.lemma_reach_bound(v, dp);
            assert forall|w: Seq<char>|
                self.nbrs_of_set(self.reach(v, dp)).contains(w) implies self.dom().contains(w) by {
                let u = choose|u: Seq<char>|
                    (#[trigger] self.reach(v, dp).contains(u)) && self.nbrs(u).contains(w);
                self.lemma_nbrs_in_dom(u);
            }
        }
        vstd::set_lib::lemma_len_subset(self.reach(v, d), self.dom().insert(v));
        if self.has_vertex(v) {
            assert(self.dom().insert(v) =~= self.dom());
            vstd::set_lib::lemma_len_subset(self.reach(v, d), self.dom());
        }
    }

    /// Whether `w` is a direct neighbor of `v`.
    #[verifier::loop_isolation(false)]
    pub fn is_neighbor(&self, v: &str, w: &str) -> (r: bool)
        requires
            self.wf(),
        ensures
            r == self.nbrs(v@).contains(w@),
    {
        let i = match self.find_index(v) {
            None => {
                return false;
            },
            Some(i) => i,
        };
        proof {
            self.lemma_idx_of(i as int, v@);
        }
        let e = match self.find_index(w) {
            None => {
                proof {
                    self.lemma_nbrs_in_dom(v@);
                    if self.nbrs(v@).contains(w@) {
                        assert(self.dom().contains(w@));
                    }
                }
                return false;
            },
            Some(e) => e,
        };
        proof {
            self.lemma_idx_of(e as int, w@);
        }
        let row_len = self.adj[i].len();
        let mut k: usize = 0;
        while k < row_len
            invariant
                self.wf(),
                i < self.adj@.len(),
                e < self.keys@.len(),
                row_len == self.adj@[i as int]@.len(),
                k <= row_len,
                forall|p: int| 0 <= p < k ==> self.adj@[i as int]@[p] != e,
            decreases row_len - k,
        {
            if self.adj[i][k] == e {
                proof {
                    assert(self.adj@[i as int]@[k as int] == e);
                    assert(self.adj@[i as int]@.contains(e));
                    assert(self.keys@[e as int]@ == w@);
                    assert(self.row_views(i as int).contains(w@));
                }
                return true;
            }
            k += 1;
        }
        proof {
            assert(!self.adj@[i as int]@.contains(e));
            if self.nbrs(v@).contains(w@) {
                let e2 = choose|e2: usize|
                    (#[trigger] self.adj@[i as int]@.contains(e2)) && e2 < self.keys@.len()
                        && self.keys@[e2 as int]@ == w@;
                self.lemma_idx_of(e2 as int, w@);
                assert(e2 == e);
            }
        }
        false
    }
}

} // verus!
