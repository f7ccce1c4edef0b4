//! Batched analysis over a raw edge stream: the records are cut into
//! fixed-size chunks, the chunk order is shuffled, and a bounded number of
//! chunks is processed, each yielding an extended-degree table and the
//! non-isolated vertex set — per chunk on a fresh graph, or cumulatively,
//! as the configuration chooses.
use crate::analysis::cap_usize;
use crate::analysis::non_isolated;
use crate::analysis::non_isolated_vertices;
use crate::analysis::extended_degree;
use crate::analysis::spec_extended_degree;
use crate::graph::Graph;
use crate::sampler::shuffle_vec;
use crate::strings::seq_views;
use vstd::prelude::*;

verus! {

/// How a run over a raw edge stream is cut up and bounded.
pub struct BatchConfig {
    /// Records per chunk; at least one.
    pub chunk_size: usize,
    /// At most this many chunks are processed.
    pub max_chunks: usize,
    /// A fresh graph per chunk when set; otherwise edges accumulate.
    pub reset_per_batch: bool,
}

/// What one processed chunk reports.
pub struct BatchReport {
    /// One entry per loaded vertex, in key order: identifier and extended
    /// degree, the latter capped at the machine-word maximum.
    pub degrees: Vec<(String, usize)>,
    /// The vertices in components of two or more members.
    pub non_isolated: Vec<String>,
}

/// The identifiers that occur as either endpoint of a record.
pub open spec fn edge_dom(records: Seq<(String, String)>) -> Set<Seq<char>> {
    Set::new(
        |v: Seq<char>|
            exists|p: int|
                0 <= p < records.len() && ((#[trigger] records[p]).0@ == v || records[p].1@ == v),
    )
}

/// The identifiers paired with `u` by some record, in either position.
pub open spec fn edge_nbrs(records: Seq<(String, String)>, u: Seq<char>) -> Set<Seq<char>> {
    Set::new(
        |w: Seq<char>|
            exists|p: int|
                0 <= p < records.len() && (((#[trigger] records[p]).0@ == u && records[p].1@ == w)
                    || (records[p].0@ == w && records[p].1@ == u)),
    )
}

/// Inserts every record of `records` as an undirected edge: afterwards the
/// vertex universe has gained exactly the endpoints, and each identifier's
/// neighbor set exactly its partners from the records.
#[verifier::loop_isolation(false)]
pub fn add_records(g: &mut Graph, records: &Vec<(String, String)>)
    requires
        old(g).wf(),
    ensures
        final(g).wf(),
        final(g).dom() == old(g).dom().union(edge_dom(records@)),
        forall|u: Seq<char>|
            (#[trigger] final(g).nbrs(u)) == old(g).nbrs(u).union(edge_nbrs(records@, u)),
{
    let mut p: usize = 0;
    proof {
        assert forall|v: Seq<char>| !edge_dom(records@.subrange(0, 0)).contains(v) by {
            if edge_dom(records@.subrange(0, 0)).contains(v) {
                let q = choose|q: int|
                    0 <= q < records@.subrange(0, 0).len() && ((#[trigger] records@.subrange(
                        0,
                        0,
                    )[q]).0@ == v || records@.subrange(0, 0)[q].1@ == v);
            }
        }
        assert(g.dom() =~= old(g).dom().union(edge_dom(records@.subrange(0, 0))));
        assert forall|u: Seq<char>| (#[trigger] g.nbrs(u)) == old(g).nbrs(u).union(
            edge_nbrs(records@.subrange(0, 0), u),
        ) by {
            assert forall|w: Seq<char>| !edge_nbrs(records@.subrange(0, 0), u).contains(w) by {
                if edge_nbrs(records@.subrange(0, 0), u).contains(w) {
                    let q = choose|q: int|
                        0 <= q < records@.subrange(0, 0).len() && (((#[trigger] records@.subrange(
                            0,
                            0,
                        )[q]).0@ == u && records@.subrange(0, 0)[q].1@ == w) || (records@.subrange(
                            0,
                            0,
                        )[q].0@ == w && records@.subrange(0, 0)[q].1@ == u));
                }
            }
            assert(g.nbrs(u) =~= old(g).nbrs(u).union(edge_nbrs(records@.subrange(0, 0), u)));
        }
    }
    while p < records.len()
        invariant
            p <= records@.len(),
            g.wf(),
            g.dom() == old(g).dom().union(edge_dom(records@.subrange(0, p as int))),
            forall|u: Seq<char>|
                (#[trigger] g.nbrs(u)) == old(g).nbrs(u).union(
                    edge_nbrs(records@.subrange(0, p as int), u),
                ),
        decreases records@.len() - p,
    {
        let a = records[p].0.clone();
        let b = records[p].1.clone();
        let ghost pre = records@.subrange(0, p as int);
        let ghost post = records@.subrange(0, p as int + 1);
        let ghost gprev = *g;
        g.add_edge(a, b);
        proof {
            let av = records@[p as int].0@;
            let bv = records@[p as int].1@;
            assert(post =~= pre.push(records@[p as int]));
            // the endpoint universe grows by exactly the two endpoints
            assert forall|v: Seq<char>| edge_dom(post).contains(v) implies edge_dom(pre).insert(
                av,
            ).insert(bv).contains(v) by {
                let q = choose|q: int|
                    0 <= q < post.len() && ((#[trigger] post[q]).0@ == v || post[q].1@ == v);
                if q < pre.len() {
                    assert(pre[q] == post[q]);
                    assert(edge_dom(pre).contains(v));
                }
            }
            assert forall|v: Seq<char>|
                edge_dom(pre).insert(av).insert(bv).contains(v) implies edge_dom(post).contains(
                v,
            ) by {
                if edge_dom(pre).contains(v) {
                    let q = choose|q: int|
                        0 <= q < pre.len() && ((#[trigger] pre[q]).0@ == v || pre[q].1@ == v);
                    assert(post[q] == pre[q]);
                } else {
                    assert(post[p as int].0@ == av && post[p as int].1@ == bv);
                }
            }
            assert(edge_dom(post) =~= edge_dom(pre).insert(av).insert(bv));
            assert(g.dom() =~= old(g).dom().union(edge_dom(post)));
            // each identifier's partner set grows by exactly its new partner
            assert forall|u: Seq<char>| (#[trigger] g.nbrs(u)) == old(g).nbrs(u).union(
                edge_nbrs(post, u),
            ) by {
                assert forall|w: Seq<char>| edge_nbrs(post, u).contains(w) implies (edge_nbrs(
                    pre,
                    u,
                ).contains(w) || (u == av && w == bv) || (u == bv && w == av)) by {
                    let q = choose|q: int|
                        0 <= q < post.len() && (((#[trigger] post[q]).0@ == u && post[q].1@ == w)
                            || (post[q].0@ == w && post[q].1@ == u));
                    if q < pre.len() {
                        assert(pre[q] == post[q]);
                        assert(edge_nbrs(pre, u).contains(w));
                    }
                }
                assert forall|w: Seq<char>|
                    edge_nbrs(pre, u).contains(w) implies edge_nbrs(post, u).contains(w) by {
                    let q = choose|q: int|
                        0 <= q < pre.len() && (((#[trigger] pre[q]).0@ == u && pre[q].1@ == w) || (
                        pre[q].0@ == w && pre[q].1@ == u));
                    assert(post[q] == pre[q]);
                }
                if u == av {
                    assert(edge_nbrs(post, u).contains(bv)) by {
                        assert(post[p as int].0@ == u && post[p as int].1@ == bv);
                    }
                }
                if u == bv {
                    assert(edge_nbrs(post, u).contains(av)) by {
                        assert((post[p as int].0@ == av && post[p as int].1@ == u) || (
                        post[p as int].0@ == u && post[p as int].1@ == av));
                    }
                }
                if u == av || u == bv {
                    assert(g.nbrs(u) =~= old(g).nbrs(u).union(edge_nbrs(post, u)));
                } else {
                    assert(g.nbrs(u) == gprev.nbrs(u));
                    assert(g.nbrs(u) =~= old(g).nbrs(u).union(edge_nbrs(post, u)));
                }
            }
        }
        p += 1;
    }
    proof {
        assert(records@.subrange(0, records@.len() as int) =~= records@);
    }
}

/// Builds a graph holding exactly the undirected edges of `records`.
pub fn build_graph(records: &Vec<(String, String)>) -> (g: Graph)
    ensures
        g.wf(),
        g.dom() == edge_dom(records@),
        forall|u: Seq<char>| (#[trigger] g.nbrs(u)) == edge_nbrs(records@, u),
{
    let mut g = Graph::new();
    let ghost g0 = g;
    add_records(&mut g, records);
    proof {
        assert(g.dom() =~= edge_dom(records@));
        assert forall|u: Seq<char>| (#[trigger] g.nbrs(u)) == edge_nbrs(records@, u) by {
            assert(g0.nbrs(u) == Set::<Seq<char>>::empty()) by {
                assert(!g0.has_vertex(u));
            }
            assert(g.nbrs(u) =~= edge_nbrs(records@, u));
        }
    }
    g
}

/// The identifier column of a degree table.
pub open spec fn degree_keys(rows: Seq<(String, usize)>) -> Seq<Seq<char>> {
    rows.map_values(|r: (String, usize)| r.0@)
}

/// The extended-degree table and non-isolated set of one graph.
#[verifier::loop_isolation(false)]
pub fn batch_report(g: &Graph) -> (r: BatchReport)
    requires
        g.wf(),
    ensures
        r.degrees@.len() == g.keys@.len(),
        forall|p: int|
            0 <= p < r.degrees@.len() ==> (#[trigger] r.degrees@[p]).0@ == g.keys@[p]@
                && r.degrees@[p].1 as nat == cap_usize(spec_extended_degree(*g, g.keys@[p]@)),
        seq_views(r.non_isolated@).no_duplicates(),
        seq_views(r.non_isolated@).to_set() == non_isolated(*g),
{
    let mut degrees: Vec<(String, usize)> = Vec::new();
    let n = g.keys.len();
    let mut p: usize = 0;
    while p < n
        invariant
            p <= n,
            degrees@.len() == p,
            forall|q: int|
                0 <= q < p ==> (#[trigger] degrees@[q]).0@ == g.keys@[q]@ && degrees@[q].1 as nat
                    == cap_usize(spec_extended_degree(*g, g.keys@[q]@)),
        decreases n - p,
    {
        let name = g.keys[p].clone();
        let d = extended_degree(g, name.as_str());
        degrees.push((name, d));
        p += 1;
    }
    let non_isolated_list = non_isolated_vertices(g);
    BatchReport { degrees, non_isolated: non_isolated_list }
}

/// Whether a report is the one that the undirected graph of `records`
/// determines: its degree table lists exactly the endpoints, once each, and
/// its non-isolated list holds exactly the endpoints with a record partner
/// other than themselves.
pub open spec fn report_matches(records: Seq<(String, String)>, rep: BatchReport) -> bool {
    &&& degree_keys(rep.degrees@).no_duplicates()
    &&& degree_keys(rep.degrees@).to_set() == edge_dom(records)
    &&& seq_views(rep.non_isolated@).no_duplicates()
    &&& seq_views(rep.non_isolated@).to_set() == Set::new(
        |v: Seq<char>|
            edge_dom(records).contains(v) && exists|w: Seq<char>|
                (#[trigger] edge_nbrs(records, v).contains(w)) && w != v,
    )
}

/// A report taken from a graph that holds exactly the edges of `records`
/// matches `records`.
proof fn lemma_report_matches(g: Graph, records: Seq<(String, String)>, rep: BatchReport)
    requires
        g.wf(),
        g.dom() == edge_dom(records),
        forall|u: Seq<char>| (#[trigger] g.nbrs(u)) == edge_nbrs(records, u),
        rep.degrees@.len() == g.keys@.len(),
        forall|p: int|
            0 <= p < rep.degrees@.len() ==> (#[trigger] rep.degrees@[p]).0@ == g.keys@[p]@,
        seq_views(rep.non_isolated@).no_duplicates(),
        seq_views(rep.non_isolated@).to_set() == non_isolated(g),
    ensures
        report_matches(records, rep),
{
    let dk = degree_keys(rep.degrees@);
    assert forall|p: int, q: int|
        0 <= p < dk.len() && 0 <= q < dk.len() && p != q implies dk[p] != dk[q] by {
        assert(dk[p] == g.keys@[p]@ && dk[q] == g.keys@[q]@);
    }
    assert forall|v: Seq<char>| dk.to_set().contains(v) implies g.dom().contains(v) by {
        let p = choose|p: int| 0 <= p < dk.len() && dk[p] == v;
        assert(g.keys@[p]@ == v);
    }
    assert forall|v: Seq<char>| g.dom().contains(v) implies dk.to_set().contains(v) by {
        let p = choose|p: int| 0 <= p < g.keys@.len() && (#[trigger] g.keys@[p])@ == v;
        assert(dk[p] == v);
    }
    assert(dk.to_set() =~= edge_dom(records));
    let rset = Set::new(
        |v: Seq<char>|
            edge_dom(records).contains(v) && exists|w: Seq<char>|
                (#[trigger] edge_nbrs(records, v).contains(w)) && w != v,
    );
    assert forall|v: Seq<char>| non_isolated(g).contains(v) implies rset.contains(v) by {
        assert(g.dom().contains(v));
        let w = choose|w: Seq<char>| (#[trigger] g.nbrs(v).contains(w)) && w != v;
        assert(edge_nbrs(records, v).contains(w));
    }
    assert forall|v: Seq<char>| rset.contains(v) implies non_isolated(g).contains(v) by {
        assert(g.dom().contains(v));
        let w = choose|w: Seq<char>| (#[trigger] edge_nbrs(records, v).contains(w)) && w != v;
        assert(g.nbrs(v).contains(w));
    }
    assert(seq_views(rep.non_isolated@).to_set() =~= rset);
}

/// The records of the first `n` chunks, in order.
pub open spec fn flat_prefix(chunks: Seq<Vec<(String, String)>>, n: int) -> Seq<(String, String)>
    decreases n,
{
    if n <= 0 {
        Seq::empty()
    } else {
        flat_prefix(chunks, n - 1) + chunks[n - 1]@
    }
}

/// Processes up to `cfg.max_chunks` chunks in the given order. With
/// `reset_per_batch` each report matches its own chunk alone; otherwise each
/// report matches everything processed so far.
#[verifier::loop_isolation(false)]
pub fn run_batches_ordered(chunks: &Vec<Vec<(String, String)>>, cfg: &BatchConfig) -> (r: Vec<
    BatchReport,
>)
    ensures
        r@.len() == if cfg.max_chunks < chunks@.len() {
            cfg.max_chunks as int
        } else {
            chunks@.len() as int
        },
        cfg.reset_per_batch ==> forall|p: int|
            0 <= p < r@.len() ==> report_matches(chunks@[p]@, #[trigger] r@[p]),
        !cfg.reset_per_batch ==> forall|p: int|
            0 <= p < r@.len() ==> report_matches(flat_prefix(chunks@, p + 1), #[trigger] r@[p]),
{
    let limit = if cfg.max_chunks < chunks.len() {
        cfg.max_chunks
    } else {
        chunks.len()
    };
    let mut reports: Vec<BatchReport> = Vec::new();
    let mut g = Graph::new();
    let mut p: usize = 0;
    while p < limit
        invariant
            p <= limit,
            reports@.len() == p,
            g.wf(),
            !cfg.reset_per_batch ==> g.dom() == edge_dom(flat_prefix(chunks@, p as int)) && (forall|
                u: Seq<char>,
            |
                (#[trigger] g.nbrs(u)) == edge_nbrs(flat_prefix(chunks@, p as int), u)),
            cfg.reset_per_batch ==> forall|q: int|
                0 <= q < p ==> report_matches(chunks@[q]@, #[trigger] reports@[q]),
            !cfg.reset_per_batch ==> forall|q: int|
                0 <= q < p ==> report_matches(flat_prefix(chunks@, q + 1), #[trigger] reports@[q]),
        decreases limit - p,
    {
        if cfg.reset_per_batch {
            let gb = build_graph(&chunks[p]);
            let rep = batch_report(&gb);
            proof {
                lemma_report_matches(gb, chunks@[p as int]@, rep);
            }
            reports.push(rep);
        } else {
            let ghost gprev = g;
            let ghost pre = flat_prefix(chunks@, p as int);
            add_records(&mut g, &chunks[p]);
            proof {
                assert(flat_prefix(chunks@, p as int + 1) == pre + chunks@[p as int]@);
                lemma_edge_dom_concat(pre, chunks@[p as int]@);
                assert(g.dom() =~= edge_dom(flat_prefix(chunks@, p as int + 1)));
                assert forall|u: Seq<char>| (#[trigger] g.nbrs(u)) == edge_nbrs(
                    flat_prefix(chunks@, p as int + 1),
                    u,
                ) by {
                    lemma_edge_nbrs_concat(pre, chunks@[p as int]@, u);
                    assert(g.nbrs(u) =~= edge_nbrs(flat_prefix(chunks@, p as int + 1), u));
                }
            }
            let rep = batch_report(&g);
            proof {
                lemma_report_matches(g, flat_prefix(chunks@, p as int + 1), rep);
            }
            reports.push(rep);
        }
        p += 1;
    }
    reports
}

/// Endpoint universes of concatenated record runs combine by union.
proof fn lemma_edge_dom_concat(a: Seq<(String, String)>, b: Seq<(String, String)>)
    ensures
        edge_dom(a + b) == edge_dom(a).union(edge_dom(b)),
{
    assert forall|v: Seq<char>| edge_dom(a + b).contains(v) implies edge_dom(a).union(
        edge_dom(b),
    ).contains(v) by {
        let q = choose|q: int|
            0 <= q < (a + b).len() && ((#[trigger] (a + b)[q]).0@ == v || (a + b)[q].1@ == v);
        if q < a.len() {
            assert(a[q] == (a + b)[q]);
            assert(edge_dom(a).contains(v));
        } else {
            assert(b[q - a.len()] == (a + b)[q]);
            assert(edge_dom(b).contains(v));
        }
    }
    assert forall|v: Seq<char>|
        edge_dom(a).union(edge_dom(b)).contains(v) implies edge_dom(a + b).contains(v) by {
        if edge_dom(a).contains(v) {
            let q = choose|q: int| 0 <= q < a.len() && ((#[trigger] a[q]).0@ == v || a[q].1@ == v);
            assert((a + b)[q] == a[q]);
        } else {
            let q = choose|q: int| 0 <= q < b.len() && ((#[trigger] b[q]).0@ == v || b[q].1@ == v);
            assert((a + b)[q + a.len()] == b[q]);
        }
    }
    assert(edge_dom(a + b) =~= edge_dom(a).union(edge_dom(b)));
}

/// Partner sets of concatenated record runs combine by union.
proof fn lemma_edge_nbrs_concat(a: Seq<(String, String)>, b: Seq<(String, String)>, u: Seq<char>)
    ensures
        edge_nbrs(a + b, u) == edge_nbrs(a, u).union(edge_nbrs(b, u)),
{
    assert forall|w: Seq<char>| edge_nbrs(a + b, u).contains(w) implies edge_nbrs(a, u).union(
        edge_nbrs(b, u),
    ).contains(w) by {
        let q = choose|q: int|
            0 <= q < (a + b).len() && (((#[trigger] (a + b)[q]).0@ == u && (a + b)[q].1@ == w) || ((
            a + b)[q].0@ == w && (a + b)[q].1@ == u));
        if q < a.len() {
            assert(a[q] == (a + b)[q]);
            assert(edge_nbrs(a, u).contains(w));
        } else {
            assert(b[q - a.len()] == (a + b)[q]);
            assert(edge_nbrs(b, u).contains(w));
        }
    }
    assert forall|w: Seq<char>|
        edge_nbrs(a, u).union(edge_nbrs(b, u)).contains(w) implies edge_nbrs(a + b, u).contains(
        w,
    ) by {
        if edge_nbrs(a, u).contains(w) {
            let q = choose|q: int|
                0 <= q < a.len() && (((#[trigger] a[q]).0@ == u && a[q].1@ == w) || (a[q].0@ == w
                    && a[q].1@ == u));
            assert((a + b)[q] == a[q]);
        } else {
            let q = choose|q: int|
                0 <= q < b.len() && (((#[trigger] b[q]).0@ == u && b[q].1@ == w) || (b[q].0@ == w
                    && b[q].1@ == u));
            assert((a + b)[q + a.len()] == b[q]);
        }
    }
    assert(edge_nbrs(a + b, u) =~= edge_nbrs(a, u).union(edge_nbrs(b, u)));
}

/// The chunks of `s`, `k` records each, the last chunk holding whatever
/// remains; meaningful for `k >= 1`.
pub open spec fn chunks_of(s: Seq<(String, String)>, k: usize) -> Seq<Seq<(String, String)>>
    decreases s.len(),
{
    if s.len() == 0 || k == 0 {
        Seq::empty()
    } else if s.len() <= k {
        seq![s]
    } else {
        seq![s.take(k as int)] + chunks_of(s.skip(k as int), k)
    }
}

/// Cuts the records into chunks of `chunk_size`, in order, the last chunk
/// holding the remainder.
#[verifier::loop_isolation(false)]
pub fn chunk_records(records: &Vec<(String, String)>, chunk_size: usize) -> (r: Vec<
    Vec<(String, String)>,
>)
    requires
        chunk_size >= 1,
    ensures
        r@.map_values(|c: Vec<(String, String)>| c@) == chunks_of(records@, chunk_size),
{
    let mut r: Vec<Vec<(String, String)>> = Vec::new();
    let mut start: usize = 0;
    proof {
        assert(records@.skip(0) =~= records@);
    }
    while start < records.len()
        invariant
            start <= records@.len(),
            chunks_of(records@, chunk_size) == r@.map_values(|c: Vec<(String, String)>| c@)
                + chunks_of(records@.skip(start as int), chunk_size),
        decreases records@.len() - start,
    {
        let remaining = records.len() - start;
        let csize = if remaining < chunk_size {
            remaining
        } else {
            chunk_size
        };
        let mut chunk: Vec<(String, String)> = Vec::new();
        let mut ci: usize = 0;
        while ci < csize
            invariant
                ci <= csize,
                start + csize <= records@.len(),
                chunk@.len() == ci,
                forall|q: int| 0 <= q < ci ==> (#[trigger] chunk@[q]) == records@[start + q],
            decreases csize - ci,
        {
            let rec = (records[start + ci].0.clone(), records[start + ci].1.clone());
            proof {
                assert(rec.0@ == records@[start + ci as int].0@);
            }
            chunk.push(rec);
            ci += 1;
        }
        proof {
            let rest = records@.skip(start as int);
            assert(rest.len() == records@.len() - start);
            assert forall|q: int| 0 <= q < csize implies chunk@[q] == rest[q] by {
                assert(rest[q] == records@[start + q]);
            }
        }
        let ghost r0 = r@;
        r.push(chunk);
        start = start + csize;
        proof {
            let rest = records@.skip((start - csize) as int);
            let f = |c: Vec<(String, String)>| c@;
            assert(r@.map_values(f) =~= r0.map_values(f).push(chunk@));
            if rest.len() <= chunk_size {
                assert(chunk@ =~= rest);
                assert(chunks_of(rest, chunk_size) == seq![rest]);
                assert(records@.skip(start as int) =~= Seq::<(String, String)>::empty());
                assert(chunks_of(records@.skip(start as int), chunk_size) == Seq::<
                    Seq<(String, String)>,
                >::empty());
                assert(r0.map_values(f) + chunks_of(rest, chunk_size) =~= r@.map_values(f)
                    + chunks_of(records@.skip(start as int), chunk_size));
            } else {
                assert(chunk@ =~= rest.take(chunk_size as int));
                assert(chunks_of(rest, chunk_size) == seq![rest.take(chunk_size as int)]
                    + chunks_of(rest.skip(chunk_size as int), chunk_size));
                assert(records@.skip(start as int) =~= rest.skip(chunk_size as int));
                assert(r0.map_values(f) + chunks_of(rest, chunk_size) =~= r@.map_values(f)
                    + chunks_of(records@.skip(start as int), chunk_size));
            }
        }
    }
    proof {
        assert(records@.skip(start as int).len() == 0);
        assert(chunks_of(records@.skip(start as int), chunk_size) == Seq::<
            Seq<(String, String)>,
        >::empty());
        assert(chunks_of(records@, chunk_size) =~= r@.map_values(|c: Vec<(String, String)>| c@));
    }
    r
}

/// The record sequences held by a sequence of chunk vectors.
pub open spec fn chunk_views(cs: Seq<Vec<(String, String)>>) -> Seq<Seq<(String, String)>> {
    cs.map_values(|c: Vec<(String, String)>| c@)
}

/// A permutation maps to a permutation: sequences with equal multisets keep
/// equal multisets under any value map.
proof fn lemma_map_values_multiset<A, B>(a: Seq<A>, b: Seq<A>, f: spec_fn(A) -> B)
    requires
        a.to_multiset() == b.to_multiset(),
    ensures
        a.map_values(f).to_multiset() == b.map_values(f).to_multiset(),
    decreases a.len(),
{
    broadcast use vstd::multiset::group_multiset_axioms;

    a.to_multiset_ensures();
    b.to_multiset_ensures();
    if a.len() == 0 {
        assert(b.len() == 0);
        assert(a.map_values(f) =~= Seq::<B>::empty());
        assert(b.map_values(f) =~= Seq::<B>::empty());
    } else {
        let x = a.last();
        assert(a.contains(x));
        assert(b.to_multiset().count(x) > 0);
        assert(b.contains(x));
        let i = choose|i: int| 0 <= i < b.len() && b[i] == x;
        let a2 = a.drop_last();
        let b2 = b.remove(i);
        assert(a2 =~= a.remove(a.len() - 1));
        assert(a.remove(a.len() - 1).to_multiset() =~= a.to_multiset().remove(x));
        assert(b2.to_multiset() =~= b.to_multiset().remove(x));
        assert(a2.to_multiset() == b2.to_multiset());
        lemma_map_values_multiset(a2, b2, f);
        assert(a.map_values(f) =~= a2.map_values(f).push(f(x)));
        assert(b.map_values(f).remove(i) =~= b2.map_values(f));
        a2.map_values(f).to_multiset_ensures();
        assert(a2.map_values(f).push(f(x)).to_multiset() =~= a2.map_values(f).to_multiset().insert(
            f(x),
        ));
        b.map_values(f).to_multiset_ensures();
        assert(b.map_values(f)[i] == f(x));
        assert(b.map_values(f).remove(i).to_multiset() =~= b.map_values(f).to_multiset().remove(
            f(x),
        ));
        assert(b.map_values(f).contains(f(x)));
        assert(b.map_values(f).to_multiset().count(f(x)) > 0);
        assert(b.map_values(f).to_multiset() =~= b.map_values(f).to_multiset().remove(f(x)).insert(
            f(x),
        ));
        assert(a.map_values(f).to_multiset() =~= b.map_values(f).to_multiset());
    }
}

/// Whether `reps` are the cumulative reports of some ordering of `chunks`:
/// the chunk vectors hold a permutation of `chunks`, and report `p` matches
/// everything processed up to and including chunk `p` of that ordering.
pub open spec fn cumulative_reports_match(
    chunks: Seq<Seq<(String, String)>>,
    reps: Seq<BatchReport>,
) -> bool {
    exists|cs: Seq<Vec<(String, String)>>|
        {
            &&& (#[trigger] chunk_views(cs)).to_multiset() == chunks.to_multiset()
            &&& forall|p: int|
                0 <= p < reps.len() ==> report_matches(flat_prefix(cs, p + 1), #[trigger] reps[p])
        }
}

/// Whether some chunk of `chunks` determines the report.
pub open spec fn some_chunk_matches(chunks: Seq<Seq<(String, String)>>, rep: BatchReport) -> bool {
    exists|q: int| 0 <= q < chunks.len() && report_matches(#[trigger] chunks[q], rep)
}

/// Cuts the records into `cfg.chunk_size` chunks, shuffles the chunk order,
/// and processes up to `cfg.max_chunks` of them in the shuffled order.
/// Whatever order the shuffle picks, with `reset_per_batch` every report
/// matches one of the chunks of the input.
pub fn run_batches(records: &Vec<(String, String)>, cfg: &BatchConfig) -> (r: Vec<BatchReport>)
    requires
        cfg.chunk_size >= 1,
    ensures
        r@.len() == if cfg.max_chunks < chunks_of(records@, cfg.chunk_size).len() {
            cfg.max_chunks as int
        } else {
            chunks_of(records@, cfg.chunk_size).len() as int
        },
        cfg.reset_per_batch ==> forall|p: int|
            0 <= p < r@.len() ==> some_chunk_matches(
                chunks_of(records@, cfg.chunk_size),
                #[trigger] r@[p],
            ),
        !cfg.reset_per_batch ==> cumulative_reports_match(chunks_of(records@, cfg.chunk_size), r@),
{
    let mut chunks = chunk_records(records, cfg.chunk_size);
    let ghost chunks0 = chunks@;
    shuffle_vec(&mut chunks);
    proof {
        chunks0.to_multiset_ensures();
        chunks@.to_multiset_ensures();
        assert(chunks@.len() == chunks0.len());
    }
    let reports = run_batches_ordered(&chunks, cfg);
    proof {
        let f = |c: Vec<(String, String)>| c@;
        lemma_map_values_multiset(chunks@, chunks0, f);
        assert(chunk_views(chunks@) =~= chunks@.map_values(f));
        assert(chunk_views(chunks0) =~= chunks0.map_values(f));
        assert(chunk_views(chunks0) =~= chunks_of(records@, cfg.chunk_size));
        assert(chunk_views(chunks@).to_multiset() == chunks_of(
            records@,
            cfg.chunk_size,
        ).to_multiset());
        if cfg.reset_per_batch {
            assert forall|p: int| 0 <= p < reports@.len() implies some_chunk_matches(
                chunks_of(records@, cfg.chunk_size),
                #[trigger] reports@[p],
            ) by {
                assert(chunks@.contains(chunks@[p]));
                assert(chunks0.to_multiset().count(chunks@[p]) > 0);
                assert(chunks0.contains(chunks@[p]));
                let q = choose|q: int| 0 <= q < chunks0.len() && chunks0[q] == chunks@[p];
                assert(chunks_of(records@, cfg.chunk_size)[q] == chunks0[q]@);
                assert(report_matches(chunks_of(records@, cfg.chunk_size)[q], reports@[p]));
            }
        }
    }
    reports
}

} // verus!
