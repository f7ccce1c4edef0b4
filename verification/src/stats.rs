//! The aggregation pipeline: per-vertex, per-depth reachability counts over a
//! random sample, the ranked per-depth maxima with a deterministic
//! lexicographic tie-break, and the neighbor-overlap totals. Counts are kept
//! as exact integers; a caller turns a count and the vertex total into a
//! proportion, so every proportion is `count / vertex_count` with
//! `count <= vertex_count`.
use crate::graph::Graph;
use crate::strings::lex_lt;
use crate::strings::seq_views;
use crate::strings::str_lt;
use vstd::prelude::*;

verus! {

/// The number of hop depths the profile covers, depth 1 through this bound.
pub const DEPTH_LIMIT: usize = 6;

/// For each given vertex, in order, the number of vertices reachable within
/// each depth `1..=max_depth`, as one row per vertex with one count per
/// depth, depths ascending.
#[verifier::loop_isolation(false)]
pub fn distance_map_for_nodes(g: &Graph, nodes: &Vec<String>, max_depth: usize) -> (r: Vec<
    (String, Vec<usize>),
>)
    requires
        g.wf(),
    ensures
        r@.len() == nodes@.len(),
        forall|p: int| 0 <= p < r@.len() ==> (#[trigger] r@[p]).0@ == nodes@[p]@,
        forall|p: int| 0 <= p < r@.len() ==> (#[trigger] r@[p]).1@.len() == max_depth as int,
        forall|p: int, d: int|
            0 <= p < r@.len() && 0 <= d < max_depth ==> (#[trigger] r@[p].1@[d]) == g.reach(
                nodes@[p]@,
                (d + 1) as nat,
            ).len(),
{
    let mut r: Vec<(String, Vec<usize>)> = Vec::new();
    let mut p: usize = 0;
    while p < nodes.len()
        invariant
            p <= nodes@.len(),
            r@.len() == p,
            forall|q: int| 0 <= q < p ==> (#[trigger] r@[q]).0@ == nodes@[q]@,
            forall|q: int| 0 <= q < p ==> (#[trigger] r@[q]).1@.len() == max_depth as int,
            forall|q: int, d: int|
                0 <= q < p && 0 <= d < max_depth ==> (#[trigger] r@[q].1@[d]) == g.reach(
                    nodes@[q]@,
                    (d + 1) as nat,
                ).len(),
        decreases nodes@.len() - p,
    {
        let node = nodes[p].clone();
        let mut counts: Vec<usize> = Vec::new();
        let mut d: usize = 0;
        while d < max_depth
            invariant
                d <= max_depth,
                counts@.len() == d,
                node@ == nodes@[p as int]@,
                forall|q: int|
                    0 <= q < d ==> (#[trigger] counts@[q]) == g.reach(node@, (q + 1) as nat).len(),
            decreases max_depth - d,
        {
            let res = g.breadth_first_search(node.as_str(), d + 1);
            counts.push(res.len());
            d += 1;
        }
        r.push((node, counts));
        p += 1;
    }
    r
}

/// Draws `min(batch_size, vertex_count)` distinct random vertices and builds
/// their distance map for depths `1..=DEPTH_LIMIT`: whatever the draw, the
/// rows name distinct loaded vertices and every count is the exact reach
/// size, never more than the vertex count.
pub fn compute_distance_map(g: &Graph, batch_size: usize) -> (r: Vec<(String, Vec<usize>)>)
    requires
        g.wf(),
    ensures
        r@.len() == if batch_size < g.keys@.len() {
            batch_size as int
        } else {
            g.keys@.len() as int
        },
        forall|p: int, q: int|
            0 <= p < r@.len() && 0 <= q < r@.len() && p != q ==> (#[trigger] r@[p]).0@ != (
            #[trigger] r@[q]).0@,
        forall|p: int| 0 <= p < r@.len() ==> g.has_vertex((#[trigger] r@[p]).0@),
        forall|p: int| 0 <= p < r@.len() ==> (#[trigger] r@[p]).1@.len() == DEPTH_LIMIT as int,
        forall|p: int, d: int|
            0 <= p < r@.len() && 0 <= d < DEPTH_LIMIT ==> (#[trigger] r@[p].1@[d]) == g.reach(
                r@[p].0@,
                (d + 1) as nat,
            ).len(),
        forall|p: int, d: int|
            0 <= p < r@.len() && 0 <= d < DEPTH_LIMIT ==> (#[trigger] r@[p].1@[d])
                <= g.keys@.len(),
{
    let nodes = g.sample_random_nodes(batch_size);
    let r = distance_map_for_nodes(g, &nodes, DEPTH_LIMIT);
    proof {
        assert forall|p: int, q: int|
            0 <= p < r@.len() && 0 <= q < r@.len() && p != q implies (#[trigger] r@[p]).0@ != (
        #[trigger] r@[q]).0@ by {
            assert(seq_views(nodes@)[p] == nodes@[p]@ && seq_views(nodes@)[q] == nodes@[q]@);
        }
        assert forall|p: int, d: int|
            0 <= p < r@.len() && 0 <= d < DEPTH_LIMIT implies (#[trigger] r@[p].1@[d])
            <= g.keys@.len() by {
            g.lemma_reach_bound(nodes@[p]@, (d + 1) as nat);
        }
    }
    r
}

/// The running best entry for one depth: `(node, val)` is replaced by a row
/// whose count at that depth is strictly larger, or equal with a
/// lexicographically smaller identifier; rows without that depth are skipped.
pub open spec fn best_from(
    rows: Seq<(String, Vec<usize>)>,
    d: int,
    node: Seq<char>,
    val: usize,
) -> (Seq<char>, usize)
    decreases rows.len(),
{
    if rows.len() == 0 {
        (node, val)
    } else {
        let hd = rows[0];
        if 1 <= d <= hd.1@.len() && (hd.1@[d - 1] > val || (hd.1@[d - 1] == val && lex_lt(
            hd.0@,
            node,
        ))) {
            best_from(rows.skip(1), d, hd.0@, hd.1@[d - 1])
        } else {
            best_from(rows.skip(1), d, node, val)
        }
    }
}

/// The best vertex and count for depth `d`, starting from the empty
/// identifier and count zero, so a depth nobody reaches reports an empty
/// identifier and zero.
pub open spec fn best_for_depth(rows: Seq<(String, Vec<usize>)>, d: int) -> (Seq<char>, usize) {
    best_from(rows, d, Seq::empty(), 0)
}

/// For each depth `1..=DEPTH_LIMIT`, in ascending order, the vertex with the
/// largest count at that depth and the count itself; ties go to the
/// lexicographically smallest identifier.
#[verifier::loop_isolation(false)]
pub fn find_max_proportions(rows: &Vec<(String, Vec<usize>)>) -> (r: Vec<(usize, String, usize)>)
    ensures
        r@.len() == DEPTH_LIMIT as int,
        forall|d: int|
            0 <= d < DEPTH_LIMIT ==> (#[trigger] r@[d]).0 == d + 1 && r@[d].1@ == best_for_depth(
                rows@,
                d + 1,
            ).0 && r@[d].2 == best_for_depth(rows@, d + 1).1,
{
    let mut r: Vec<(usize, String, usize)> = Vec::new();
    let mut depth: usize = 1;
    while depth <= DEPTH_LIMIT
        invariant
            1 <= depth <= DEPTH_LIMIT + 1,
            r@.len() == depth - 1,
            forall|d: int|
                0 <= d < depth - 1 ==> (#[trigger] r@[d]).0 == d + 1 && r@[d].1@ == best_for_depth(
                    rows@,
                    d + 1,
                ).0 && r@[d].2 == best_for_depth(rows@, d + 1).1,
        decreases DEPTH_LIMIT + 1 - depth,
    {
        let mut best_node = String::new();
        let mut best_val: usize = 0;
        let mut p: usize = 0;
        proof {
            assert(rows@.skip(0) =~= rows@);
        }
        while p < rows.len()
            invariant
                p <= rows@.len(),
                best_for_depth(rows@, depth as int) == best_from(
                    rows@.skip(p as int),
                    depth as int,
                    best_node@,
                    best_val,
                ),
            decreases rows@.len() - p,
        {
            proof {
                assert(rows@.skip(p as int)[0] == rows@[p as int]);
                assert(rows@.skip(p as int).skip(1) =~= rows@.skip(p as int + 1));
            }
            let row = &rows[p];
            if row.1.len() >= depth {
                let c = row.1[depth - 1];
                if c > best_val || (c == best_val && str_lt(row.0.as_str(), best_node.as_str())) {
                    best_node = row.0.clone();
                    best_val = c;
                }
            }
            p += 1;
        }
        proof {
            assert(rows@.skip(rows@.len() as int) =~= Seq::<(String, Vec<usize>)>::empty());
        }
        r.push((depth, best_node, best_val));
        depth += 1;
    }
    r
}

/// What the running best guarantees: the final count dominates the starting
/// count and every row's count at that depth, and unless it is the starting
/// pair, some row attains it under the reported identifier.
proof fn lemma_best_from(rows: Seq<(String, Vec<usize>)>, d: int, node: Seq<char>, val: usize)
    ensures
        best_from(rows, d, node, val).1 >= val,
        forall|p: int|
            0 <= p < rows.len() && 1 <= d <= (#[trigger] rows[p]).1@.len() ==> rows[p].1@[d - 1]
                <= best_from(rows, d, node, val).1,
        best_from(rows, d, node, val) == (node, val) || exists|p: int|
            0 <= p < rows.len() && 1 <= d <= (#[trigger] rows[p]).1@.len() && rows[p].1@[d - 1]
                == best_from(rows, d, node, val).1 && rows[p].0@ == best_from(rows, d, node, val).0,
    decreases rows.len(),
{
    if rows.len() > 0 {
        let hd = rows[0];
        let tail = rows.skip(1);
        let taken = 1 <= d <= hd.1@.len() && (hd.1@[d - 1] > val || (hd.1@[d - 1] == val && lex_lt(
            hd.0@,
            node,
        )));
        if taken {
            lemma_best_from(tail, d, hd.0@, hd.1@[d - 1]);
        } else {
            lemma_best_from(tail, d, node, val);
        }
        let r = best_from(rows, d, node, val);
        assert forall|p: int|
            0 <= p < rows.len() && 1 <= d <= (#[trigger] rows[p]).1@.len() implies rows[p].1@[d - 1]
            <= r.1 by {
            if p > 0 {
                assert(tail[p - 1] == rows[p]);
            }
        }
        if taken {
            if best_from(tail, d, hd.0@, hd.1@[d - 1]) == (hd.0@, hd.1@[d - 1]) {
                assert(rows[0].1@[d - 1] == r.1 && rows[0].0@ == r.0);
            } else {
                let q = choose|q: int|
                    0 <= q < tail.len() && 1 <= d <= (#[trigger] tail[q]).1@.len() && tail[q].1@[d
                        - 1] == r.1 && tail[q].0@ == r.0;
                assert(rows[q + 1] == tail[q]);
            }
        } else {
            if best_from(tail, d, node, val) != (node, val) {
                let q = choose|q: int|
                    0 <= q < tail.len() && 1 <= d <= (#[trigger] tail[q]).1@.len() && tail[q].1@[d
                        - 1] == r.1 && tail[q].0@ == r.0;
                assert(rows[q + 1] == tail[q]);
            }
        }
    }
}

/// The entry reported for a depth dominates every row's count at that depth,
/// and when it is not the empty starting pair, some row attains that count
/// under that identifier.
pub proof fn lemma_best_is_max(rows: Seq<(String, Vec<usize>)>, d: int)
    ensures
        forall|p: int|
            0 <= p < rows.len() && 1 <= d <= (#[trigger] rows[p]).1@.len() ==> rows[p].1@[d - 1]
                <= best_for_depth(rows, d).1,
        best_for_depth(rows, d).1 > 0 ==> exists|p: int|
            0 <= p < rows.len() && 1 <= d <= (#[trigger] rows[p]).1@.len() && rows[p].1@[d - 1]
                == best_for_depth(rows, d).1 && rows[p].0@ == best_for_depth(rows, d).0,
{
    lemma_best_from(rows, d, Seq::empty(), 0);
}

/// Whether `rows` is a distance map over a draw of `min(k, vertex_count)`
/// distinct loaded vertices: one row per drawn vertex with its exact reach
/// size at each depth `1..=DEPTH_LIMIT`.
pub open spec fn is_distance_map(g: Graph, k: usize, rows: Seq<(String, Vec<usize>)>) -> bool {
    &&& rows.len() == if k < g.keys@.len() {
        k as int
    } else {
        g.keys@.len() as int
    }
    &&& forall|p: int, q: int|
        0 <= p < rows.len() && 0 <= q < rows.len() && p != q ==> (#[trigger] rows[p]).0@ != (
        #[trigger] rows[q]).0@
    &&& forall|p: int| 0 <= p < rows.len() ==> g.has_vertex((#[trigger] rows[p]).0@)
    &&& forall|p: int| 0 <= p < rows.len() ==> (#[trigger] rows[p]).1@.len() == DEPTH_LIMIT as int
    &&& forall|p: int, d: int|
        0 <= p < rows.len() && 0 <= d < DEPTH_LIMIT ==> (#[trigger] rows[p].1@[d]) == g.reach(
            rows[p].0@,
            (d + 1) as nat,
        ).len()
}

/// Whether `r` ranks some distance map over a draw of `k` vertices: its entry
/// for each depth is that map's best vertex and count under the
/// lexicographic tie-break.
pub open spec fn profile_of_draw(g: Graph, k: usize, r: Seq<(usize, String, usize)>) -> bool {
    exists|rows: Seq<(String, Vec<usize>)>|
        (#[trigger] is_distance_map(g, k, rows)) && forall|d: int|
            0 <= d < r.len() ==> (#[trigger] r[d]).1@ == best_for_depth(rows, d + 1).0 && r[d].2
                == best_for_depth(rows, d + 1).1
}

/// One sample, reused across all depths: for each depth `1..=DEPTH_LIMIT`
/// in ascending order, the sampled vertex with the widest reach at that depth
/// and its reach size. Whatever the draw, the result ranks a distance map
/// over `min(sample_size, vertex_count)` distinct loaded vertices, every
/// reported count stays within the vertex count — so the proportion a caller
/// derives lies in zero to one — and as soon as anything is sampled, every
/// depth reports a loaded vertex whose reach holds at least itself.
pub fn depth_profile(g: &Graph, sample_size: usize) -> (r: Vec<(usize, String, usize)>)
    requires
        g.wf(),
    ensures
        r@.len() == DEPTH_LIMIT as int,
        forall|d: int| 0 <= d < DEPTH_LIMIT ==> (#[trigger] r@[d]).0 == d + 1,
        forall|d: int| 0 <= d < DEPTH_LIMIT ==> (#[trigger] r@[d]).2 <= g.keys@.len(),
        profile_of_draw(*g, sample_size, r@),
        g.keys@.len() > 0 && sample_size > 0 ==> forall|d: int|
            0 <= d < DEPTH_LIMIT ==> (#[trigger] r@[d]).2 >= 1 && g.has_vertex(r@[d].1@),
{
    let rows = compute_distance_map(g, sample_size);
    let best = find_max_proportions(&rows);
    proof {
        assert(is_distance_map(*g, sample_size, rows@));
        assert(profile_of_draw(*g, sample_size, best@));
        assert forall|d: int| 0 <= d < DEPTH_LIMIT implies (#[trigger] best@[d]).2
            <= g.keys@.len() by {
            lemma_best_is_max(rows@, d + 1);
            if best_for_depth(rows@, d + 1).1 > 0 {
                let p = choose|p: int|
                    0 <= p < rows@.len() && 1 <= d + 1 <= (#[trigger] rows@[p]).1@.len()
                        && rows@[p].1@[d] == best_for_depth(rows@, d + 1).1 && rows@[p].0@
                        == best_for_depth(rows@, d + 1).0;
                assert(rows@[p].1@[d] <= g.keys@.len());
            }
        }
        if g.keys@.len() > 0 && sample_size > 0 {
            assert forall|d: int| 0 <= d < DEPTH_LIMIT implies (#[trigger] best@[d]).2 >= 1
                && g.has_vertex(best@[d].1@) by {
                lemma_best_is_max(rows@, d + 1);
                assert(rows@.len() >= 1);
                g.lemma_reach_bound(rows@[0].0@, (d + 1) as nat);
                assert(rows@[0].1@[d] >= 1);
                assert(best_for_depth(rows@, d + 1).1 >= rows@[0].1@[d]);
                let p = choose|p: int|
                    0 <= p < rows@.len() && 1 <= d + 1 <= (#[trigger] rows@[p]).1@.len()
                        && rows@[p].1@[d] == best_for_depth(rows@, d + 1).1 && rows@[p].0@
                        == best_for_depth(rows@, d + 1).0;
                assert(g.has_vertex(rows@[p].0@));
            }
        }
    }
    best
}

/// The summed two-hop reach sizes of the given vertices.
pub open spec fn followers_sum(g: Graph, nodes: Seq<String>) -> nat
    decreases nodes.len(),
{
    if nodes.len() == 0 {
        0
    } else {
        followers_sum(g, nodes.drop_last()) + g.reach(nodes.last()@, 2).len()
    }
}

/// The summed counts of direct neighbors found inside the two-hop reach of
/// each given vertex.
pub open spec fn overlap_sum(g: Graph, nodes: Seq<String>) -> nat
    decreases nodes.len(),
{
    if nodes.len() == 0 {
        0
    } else {
        overlap_sum(g, nodes.drop_last()) + g.nbrs(nodes.last()@).intersect(
            g.reach(nodes.last()@, 2),
        ).len()
    }
}

/// For the given vertices, totals the overlap between direct neighbors and
/// two-hop reach, and the two-hop reach sizes; the overlap total never
/// exceeds the followers total.
#[verifier::loop_isolation(false)]
pub fn overlap_counts_for_nodes(g: &Graph, nodes: &Vec<String>) -> (r: (u128, u128))
    requires
        g.wf(),
    ensures
        r.0 as nat == overlap_sum(*g, nodes@),
        r.1 as nat == followers_sum(*g, nodes@),
        r.0 <= r.1,
{
    let mut osum: u128 = 0;
    let mut fsum: u128 = 0;
    let mut p: usize = 0;
    proof {
        assert(nodes@.subrange(0, 0) =~= Seq::<String>::empty());
    }
    while p < nodes.len()
        invariant
            p <= nodes@.len(),
            osum as nat == overlap_sum(*g, nodes@.subrange(0, p as int)),
            fsum as nat == followers_sum(*g, nodes@.subrange(0, p as int)),
            osum <= fsum,
            fsum as nat <= (p as nat) * (usize::MAX as nat),
        decreases nodes@.len() - p,
    {
        let node = nodes[p].clone();
        let r2 = g.breadth_first_search(node.as_str(), 2);
        let ghost reach2 = g.reach(node@, 2);
        let mut c: usize = 0;
        let ghost counted = Set::<Seq<char>>::empty();
        let mut counted_t = Ghost(counted);
        let mut k: usize = 0;
        proof {
            assert(seq_views(r2@).subrange(0, 0) =~= Seq::<Seq<char>>::empty());
            assert(counted_t@ =~= g.nbrs(node@).intersect(
                seq_views(r2@).subrange(0, 0).to_set(),
            ));
        }
        while k < r2.len()
            invariant
                k <= r2@.len(),
                c <= k,
                counted_t@ == g.nbrs(node@).intersect(seq_views(r2@).subrange(0, k as int).to_set()),
                counted_t@.finite(),
                c as nat == counted_t@.len(),
            decreases r2@.len() - k,
        {
            proof {
                crate::graph::lemma_subrange_push(seq_views(r2@), k as int);
                crate::graph::lemma_push_to_set(seq_views(r2@).subrange(0, k as int), seq_views(r2@)[k as int]);
                assert(seq_views(r2@)[k as int] == r2@[k as int]@);
            }
            let is_n = g.is_neighbor(node.as_str(), r2[k].as_str());
            if is_n {
                proof {
                    assert(!seq_views(r2@).subrange(0, k as int).contains(r2@[k as int]@)) by {
                        if seq_views(r2@).subrange(0, k as int).contains(r2@[k as int]@) {
                            let q = choose|q: int|
                                0 <= q < k && seq_views(r2@).subrange(0, k as int)[q] == r2@[k as int]@;
                            assert(seq_views(r2@)[q] == seq_views(r2@)[k as int]);
                        }
                    }
                    assert(!counted_t@.contains(r2@[k as int]@));
                    assert(counted_t@.insert(r2@[k as int]@) =~= g.nbrs(node@).intersect(
                        seq_views(r2@).subrange(0, k as int + 1).to_set(),
                    ));
                }
                c = c + 1;
                proof {
                    counted_t@ = counted_t@.insert(r2@[k as int]@);
                }
            } else {
                proof {
                    assert(counted_t@ =~= g.nbrs(node@).intersect(
                        seq_views(r2@).subrange(0, k as int + 1).to_set(),
                    ));
                }
            }
            k += 1;
        }
        proof {
            assert(seq_views(r2@).subrange(0, r2@.len() as int) =~= seq_views(r2@));
            assert(counted_t@ == g.nbrs(node@).intersect(reach2));
            assert(g.nbrs(node@).intersect(reach2).subset_of(reach2));
            vstd::set_lib::lemma_len_subset(g.nbrs(node@).intersect(reach2), reach2);
            assert(c as nat <= reach2.len());
            crate::graph::lemma_subrange_push(nodes@, p as int);
            assert(nodes@.subrange(0, p as int + 1).drop_last() =~= nodes@.subrange(0, p as int));
            assert(nodes@.subrange(0, p as int + 1).last()@ == node@);
            assert(reach2.len() == r2@.len());
            assert(r2@.len() <= usize::MAX);
            assert((p as nat) * (usize::MAX as nat) + (usize::MAX as nat) == ((p + 1) as nat) * (
            usize::MAX as nat));
            assert(((p + 1) as nat) * (usize::MAX as nat) <= 0x10000000000000000nat * (
            usize::MAX as nat));
        }
        fsum = fsum + (r2.len() as u128);
        osum = osum + (c as u128);
        p += 1;
    }
    proof {
        assert(nodes@.subrange(0, nodes@.len() as int) =~= nodes@);
    }
    (osum, fsum)
}

/// Whether `(o, f)` are the exact overlap and followers totals of some draw
/// of `min(k, vertex_count)` distinct loaded vertices.
pub open spec fn totals_of_draw(g: Graph, k: usize, o: u128, f: u128) -> bool {
    exists|nodes: Seq<String>|
        {
            &&& (#[trigger] overlap_sum(g, nodes)) == o as nat
            &&& followers_sum(g, nodes) == f as nat
            &&& nodes.len() == if k < g.keys@.len() {
                k as int
            } else {
                g.keys@.len() as int
            }
            &&& seq_views(nodes).no_duplicates()
            &&& forall|p: int| 0 <= p < nodes.len() ==> g.has_vertex((#[trigger] nodes[p])@)
        }
}

/// Draws `min(sample_size, vertex_count)` random vertices and totals their
/// overlap and followers counts: whatever the draw, the result is the exact
/// pair of sums over the drawn vertices, the overlap total never exceeds the
/// followers total — so the ratio a caller derives lies in zero to one — and
/// as soon as anything is sampled the followers total is positive, each
/// vertex's two-hop reach holding at least itself.
pub fn overlap_counts(g: &Graph, sample_size: usize) -> (r: (u128, u128))
    requires
        g.wf(),
    ensures
        r.0 <= r.1,
        totals_of_draw(*g, sample_size, r.0, r.1),
        g.keys@.len() > 0 && sample_size > 0 ==> r.1 >= 1,
{
    let nodes = g.sample_random_nodes(sample_size);
    let r = overlap_counts_for_nodes(g, &nodes);
    proof {
        assert(totals_of_draw(*g, sample_size, r.0, r.1)) by {
            assert(overlap_sum(*g, nodes@) == r.0 as nat);
        }
        if g.keys@.len() > 0 && sample_size > 0 {
            assert(nodes@.len() >= 1);
            g.lemma_reach_bound(nodes@.last()@, 2);
            assert(followers_sum(*g, nodes@) >= g.reach(nodes@.last()@, 2).len());
        }
    }
    r
}

} // verus!
