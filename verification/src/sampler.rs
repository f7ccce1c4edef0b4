//! Uniform random vertex sampling: a draw without replacement from the key
//! set, followed by an independent shuffle of the drawn sequence.
use crate::graph::Graph;
use crate::strings::seq_views;
use rand::seq::SliceRandom;
use vstd::prelude::*;

verus! {

/// Relies on rand's `SliceRandom::choose_multiple`: it draws
/// `min(amount, len)` elements at pairwise-distinct indices of the slice,
/// uniformly and without replacement, so it yields that many clones of input
/// elements, pairwise distinct whenever the input strings are.
#[verifier::external_body]
fn choose_random_strings(keys: &Vec<String>, amount: usize) -> (r: Vec<String>)
    ensures
        r@.len() == if amount < keys@.len() {
            amount as int
        } else {
            keys@.len() as int
        },
        forall|p: int|
            0 <= p < r@.len() ==> seq_views(keys@).to_set().contains((#[trigger] r@[p])@),
        seq_views(keys@).no_duplicates() ==> seq_views(r@).no_duplicates(),
{
    let mut rng = rand::thread_rng();
    keys.choose_multiple(&mut rng, amount).cloned().collect()
}

/// Relies on rand's `SliceRandom::shuffle`: a Fisher-Yates pass that
/// rearranges the elements in place and changes nothing else, so the new
/// contents are a permutation of the old.
#[verifier::external_body]
pub(crate) fn shuffle_vec<T>(v: &mut Vec<T>)
    ensures
        final(v)@.to_multiset() == old(v)@.to_multiset(),
{
    let mut rng = rand::thread_rng();
    v.shuffle(&mut rng);
}

/// A permutation of a sequence of strings keeps its length, its members and
/// their pairwise distinctness by view.
pub proof fn lemma_shuffled_views(a: Seq<String>, b: Seq<String>)
    requires
        a.to_multiset() == b.to_multiset(),
        seq_views(a).no_duplicates(),
    ensures
        b.len() == a.len(),
        seq_views(b).no_duplicates(),
        forall|p: int| 0 <= p < b.len() ==> seq_views(a).to_set().contains((#[trigger] b[p])@),
{
    a.to_multiset_ensures();
    b.to_multiset_ensures();
    assert(a.no_duplicates()) by {
        assert forall|p: int, q: int|
            0 <= p < a.len() && 0 <= q < a.len() && p != q implies a[p] != a[q] by {
            assert(seq_views(a)[p] == a[p]@ && seq_views(a)[q] == a[q]@);
        }
    }
    a.lemma_multiset_has_no_duplicates();
    b.lemma_multiset_has_no_duplicates_conv();
    assert forall|p: int| 0 <= p < b.len() implies seq_views(a).to_set().contains(
        (#[trigger] b[p])@,
    ) by {
        assert(b.contains(b[p]));
        assert(a.to_multiset().count(b[p]) > 0);
        assert(a.contains(b[p]));
        let q = choose|q: int| 0 <= q < a.len() && a[q] == b[p];
        assert(seq_views(a)[q] == b[p]@);
        assert(seq_views(a).contains(b[p]@));
    }
    assert forall|p: int, q: int|
        0 <= p < seq_views(b).len() && 0 <= q < seq_views(b).len() && p != q implies seq_views(
        b,
    )[p] != seq_views(b)[q] by {
        if b[p]@ == b[q]@ {
            assert(b[p] != b[q]);
            assert(b.contains(b[p]) && b.contains(b[q]));
            assert(a.to_multiset().count(b[p]) > 0 && a.to_multiset().count(b[q]) > 0);
            assert(a.contains(b[p]) && a.contains(b[q]));
            let pa = choose|pa: int| 0 <= pa < a.len() && a[pa] == b[p];
            let qa = choose|qa: int| 0 <= qa < a.len() && a[qa] == b[q];
            assert(pa != qa);
            assert(seq_views(a)[pa] == seq_views(a)[qa]);
        }
    }
}

impl Graph {
    /// Draws `min(num_nodes, vertex_count)` distinct vertices uniformly at
    /// random without replacement, then shuffles the drawn sequence so its
    /// order carries no trace of the selection order.
    pub fn sample_random_nodes(&self, num_nodes: usize) -> (r: Vec<String>)
        requires
            self.wf(),
        ensures
            r@.len() == if num_nodes < self.keys@.len() {
                num_nodes as int
            } else {
                self.keys@.len() as int
            },
            seq_views(r@).no_duplicates(),
            forall|p: int| 0 <= p < r@.len() ==> self.has_vertex((#[trigger] r@[p])@),
    {
        proof {
            assert forall|p: int, q: int|
                0 <= p < seq_views(self.keys@).len() && 0 <= q < seq_views(self.keys@).len() && p
                    != q implies seq_views(self.keys@)[p] != seq_views(self.keys@)[q] by {
                assert(seq_views(self.keys@)[p] == self.keys@[p]@);
                assert(seq_views(self.keys@)[q] == self.keys@[q]@);
            }
        }
        let mut r = choose_random_strings(&self.keys, num_nodes);
        let ghost r0 = r@;
        shuffle_vec(&mut r);
        proof {
            lemma_shuffled_views(r0, r@);
            assert forall|p: int| 0 <= p < r@.len() implies self.has_vertex(
                (#[trigger] r@[p])@,
            ) by {
                assert(seq_views(r0).to_set().contains(r@[p]@));
                let q = choose|q: int| 0 <= q < seq_views(r0).len() && seq_views(r0)[q] == (r@[p])@;
                assert(seq_views(self.keys@).to_set().contains((r0[q])@));
                let q2 = choose|q2: int|
                    0 <= q2 < seq_views(self.keys@).len() && seq_views(self.keys@)[q2] == (r0[q])@;
                assert(self.keys@[q2]@ == r@[p]@);
            }
        }
        r
    }
}

} // verus!
