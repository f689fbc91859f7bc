//! The depth of a hypergraph and a bound on its paths.

use vstd::prelude::*;
use crate::hypergraph::Hypergraph;
use crate::model::Model;
use crate::model::placed;
use crate::model::subview;
use crate::model::tree_shaped;
use crate::order::lemma_prefixes;
use crate::path::lex_lt;
use crate::path::lex_lt_at;
use crate::slots::Keyed;
use crate::slots::has_key;
use crate::slots::key_pos;
use crate::slots::lemma_key_pos;
use crate::slots::slot_of;

verus! {

/// `d` is the number of levels of the model: one more than the length of
/// the longest path of a hypergraph.
pub open spec fn is_depth<N, E, H, L>(m: Model<N, E, H, L>, d: int) -> bool {
    &&& exists|p: Seq<usize>| #[trigger] m.dom().contains(p) && m[p] is Graph && p.len() + 1 == d
    &&& forall|p: Seq<usize>| #[trigger] m.dom().contains(p) && m[p] is Graph ==> p.len() + 1 <= d
}

/// Whether `k` is the greatest local id of a hypergraph that lies directly in
/// the hypergraph `q`.
pub open spec fn last_graph<N, E, H, L>(m: Model<N, E, H, L>, q: Seq<usize>, k: usize) -> bool {
    &&& m.dom().contains(q.push(k))
    &&& m[q.push(k)] is Graph
    &&& forall|j: usize| j > k ==> !(m.dom().contains(#[trigger] q.push(j)) && m[q.push(j)] is Graph)
}

/// Whether `b` is the bound of the hypergraph `q`: the counter of `q`,
/// followed by the bound of the hypergraph with the greatest local id that
/// lies directly in `q`, if there is one.
pub open spec fn is_bound<N, E, H, L>(m: Model<N, E, H, L>, q: Seq<usize>, b: Seq<usize>) -> bool
    decreases b.len(),
{
    &&& b.len() > 0
    &&& b[0] == m[q].counter()
    &&& if b.len() == 1 {
        forall|j: usize| !(m.dom().contains(#[trigger] q.push(j)) && m[q.push(j)] is Graph)
    } else {
        exists|k: usize| #[trigger] last_graph(m, q, k) && is_bound(m, q.push(k), b.skip(1))
    }
}

/// Every element comes before the bound of the root in the enumeration
/// order.
pub proof fn lemma_bound_is_above<N, E, H, L>(m: Model<N, E, H, L>, b: Seq<usize>, p: Seq<usize>)
    requires
        tree_shaped(m),
        is_bound(m, Seq::empty(), b),
        m.dom().contains(p),
    ensures
        lex_lt(p, b),
{
    if p.len() == 0 {
        assert(p.take(0) =~= b.take(0));
        assert(lex_lt_at(p, b, 0));
    } else {
        lemma_prefixes(m, p, 0);
        assert(p.take(1) =~= seq![p[0]]);
        assert(placed(m, seq![p[0]]));
        assert(crate::path::parent(seq![p[0]]) =~= Seq::<usize>::empty());
        assert(p.take(0) =~= b.take(0));
        assert(lex_lt_at(p, b, 0));
    }
}

/// The bound of a nested hypergraph, seen from that hypergraph, is its bound
/// seen from the whole.
pub proof fn lemma_bound_nested<N, E, H, L>(m: Model<N, E, H, L>, q0: Seq<usize>, q: Seq<usize>, b: Seq<usize>)
    requires
        m.dom().contains(q0),
        m[q0] is Graph,
        subview(m, q0).dom().contains(q),
        is_bound(subview(m, q0), q, b),
    ensures
        is_bound(m, q0 + q, b),
    decreases b.len(),
{
    let c = subview(m, q0);
    assert forall|j: usize|
        c.dom().contains(#[trigger] q.push(j)) == m.dom().contains((q0 + q).push(j)) && (c.dom().contains(
            q.push(j),
        ) ==> c[q.push(j)] == m[(q0 + q).push(j)]) by {
        assert(q0 + q.push(j) =~= (q0 + q).push(j));
    }
    if q.len() == 0 {
        assert(q0 + q =~= q0);
        assert(q =~= Seq::<usize>::empty());
    }
    assert(b[0] == m[q0 + q].counter());
    if b.len() == 1 {
        assert forall|j: usize| !(m.dom().contains(#[trigger] (q0 + q).push(j)) && m[(q0 + q).push(j)] is Graph) by {
            assert(!(c.dom().contains(q.push(j)) && c[q.push(j)] is Graph));
        }
    } else {
        let k = choose|k: usize| #[trigger] last_graph(c, q, k) && is_bound(c, q.push(k), b.skip(1));
        lemma_bound_nested(m, q0, q.push(k), b.skip(1));
        assert(q0 + q.push(k) =~= (q0 + q).push(k));
        assert(last_graph(m, q0 + q, k)) by {
            assert(c.dom().contains(q.push(k)));
            assert forall|j: usize| j > k implies !(m.dom().contains(#[trigger] (q0 + q).push(j)) && m[(q0
                + q).push(j)] is Graph) by {
                assert(!(c.dom().contains(q.push(j)) && c[q.push(j)] is Graph));
            }
        }
    }
}

impl<N, E, H, L, Ty> Hypergraph<N, E, H, L, Ty> {
    /// Computes the number of levels.
    #[verifier::loop_isolation(false)]
    fn depth_of(&self, Ghost(fuel): Ghost<nat>) -> (r: usize)
        requires
            self.wf(),
            self.size() <= fuel,
            forall|p: Seq<usize>| #[trigger] self@.dom().contains(p) && self@[p] is Graph ==> p.len() < usize::MAX,
        ensures
            is_depth(self@, r as int),
        decreases fuel,
    {
        let nested = self.raw_hypergraphs();
        let ghost m = self@;
        let mut deepest: usize = 0;
        let mut i: usize = 0;
        proof {
            self.lemma_root();
            self.lemma_tree_shaped();
        }
        while i < nested.len()
            invariant
                i <= nested@.len(),
                forall|p: Seq<usize>|
                    #[trigger] m.dom().contains(p) && m[p] is Graph && p.len() > 0 && has_key(nested@, p[0])
                        && key_pos(nested@, p[0]) < i ==> p.len() <= deepest,
                deepest > 0 ==> exists|p: Seq<usize>| #[trigger]
                    m.dom().contains(p) && m[p] is Graph && p.len() == deepest,
            decreases nested@.len() - i,
        {
            let slot = &nested[i];
            let k = slot.id;
            let ghost c = slot.graph@;
            proof {
                lemma_key_pos(nested@, i as int);
                assert(slot_of(nested@, k) == Some(*slot));
                assert forall|q: Seq<usize>|
                    c.dom().contains(q) == m.dom().contains(#[trigger] (seq![k] + q)) && (c.dom().contains(q)
                        ==> (c[q] is Graph) == (m[seq![k] + q] is Graph)) by {
                    if q.len() == 0 {
                        assert(seq![k] + q =~= seq![k]);
                    }
                }
                assert forall|q: Seq<usize>| #[trigger] c.dom().contains(q) && c[q] is Graph implies q.len()
                    < usize::MAX by {
                    assert(m.dom().contains(seq![k] + q));
                }
            }
            let d = slot.graph.depth_of(Ghost(slot.graph.size()));
            proof {
                let q = choose|q: Seq<usize>| #[trigger] c.dom().contains(q) && c[q] is Graph && q.len() + 1 == d;
                assert(m.dom().contains(seq![k] + q));
                assert((seq![k] + q).len() == d);
                assert forall|p: Seq<usize>|
                    #[trigger] m.dom().contains(p) && m[p] is Graph && p.len() > 0 && has_key(nested@, p[0])
                        && key_pos(nested@, p[0]) < i + 1 implies p.len() <= (if d > deepest {
                        d
                    } else {
                        deepest
                    }) by {
                    if key_pos(nested@, p[0]) == i {
                        let rest = p.skip(1);
                        assert(p =~= seq![k] + rest);
                        assert(c.dom().contains(rest));
                    }
                }
            }
            if d > deepest {
                deepest = d;
            }
            i += 1;
        }
        proof {
            if deepest == 0 {
                assert(m.dom().contains(Seq::<usize>::empty()));
            }
            assert forall|p: Seq<usize>| #[trigger] m.dom().contains(p) && m[p] is Graph implies p.len() + 1
                <= deepest + 1 by {
                if p.len() > 0 {
                    lemma_prefixes(m, p, 0);
                    assert(p.take(1) =~= seq![p[0]]);
                    if p.len() > 1 {
                        lemma_prefixes(m, p, 1);
                    } else {
                        assert(p =~= seq![p[0]]);
                    }
                    assert(slot_of(nested@, p[0]) is Some);
                }
            }
            let w = if deepest == 0 {
                Seq::<usize>::empty()
            } else {
                choose|p: Seq<usize>| #[trigger] m.dom().contains(p) && m[p] is Graph && p.len() == deepest
            };
            assert(m.dom().contains(w) && m[w] is Graph && w.len() + 1 == deepest + 1);
        }
        deepest + 1
    }

    /// Returns the number of levels of the structure: 1 for a hypergraph that
    /// holds no hypergraph, and one more than the deepest of the hypergraphs
    /// that lie in it otherwise.
    pub fn depth(&self) -> (r: usize)
        requires
            self.wf(),
            forall|p: Seq<usize>| #[trigger] self@.dom().contains(p) && self@[p] is Graph ==> p.len() < usize::MAX,
        ensures
            is_depth(self@, r as int),
    {
        self.depth_of(Ghost(self.size()))
    }

    /// Computes the bound.
    fn bound_of(&self, Ghost(fuel): Ghost<nat>) -> (r: Vec<usize>)
        requires
            self.wf(),
            self.size() <= fuel,
        ensures
            is_bound(self@, Seq::empty(), r@),
        decreases fuel,
    {
        let mut r: Vec<usize> = Vec::new();
        r.push(self.next_local_id());
        let nested = self.raw_hypergraphs();
        proof {
            self.lemma_root();
            assert forall|j: usize| #[trigger] Seq::<usize>::empty().push(j) == seq![j] by {
                assert(Seq::<usize>::empty().push(j) =~= seq![j]);
            }
        }
        if nested.len() == 0 {
            proof {
                assert forall|j: usize|
                    !(self@.dom().contains(#[trigger] Seq::<usize>::empty().push(j))
                        && self@[Seq::<usize>::empty().push(j)] is Graph) by {
                    if has_key(nested@, j) {
                        assert(key_pos(nested@, j) < 0);
                    }
                    assert(slot_of(nested@, j) is None);
                }
            }
            return r;
        }
        let last = &nested[nested.len() - 1];
        let k = last.id;
        proof {
            lemma_key_pos(nested@, nested@.len() - 1);
            assert(slot_of(nested@, k) == Some(*last));
        }
        let mut rest = last.graph.bound_of(Ghost(last.graph.size()));
        let ghost first = r@;
        let ghost tail = rest@;
        r.append(&mut rest);
        proof {
            assert(r@ =~= first + tail);
            assert(r@.skip(1) =~= tail);
            let e = Seq::<usize>::empty();
            assert(e.push(k) == seq![k]);
            assert(seq![k] + e =~= seq![k]);
            last.graph.lemma_root();
            lemma_bound_nested(self@, seq![k], e, tail);
            assert(seq![k] + e =~= seq![k]);
            assert(last_graph(self@, e, k)) by {
                assert forall|j: usize| j > k implies !(self@.dom().contains(#[trigger] e.push(j))
                    && self@[e.push(j)] is Graph) by {
                    if has_key(nested@, j) {
                        let a = key_pos(nested@, j);
                        assert(nested@[a].key() == j);
                        if a < nested@.len() - 1 {
                            assert(nested@[a].key() < nested@[nested@.len() - 1].key());
                        }
                    }
                    assert(slot_of(nested@, j) is None);
                }
            }
        }
        r
    }

    /// Returns a path that comes after the path of every element in the
    /// enumeration order: the counter of this hypergraph, followed by the
    /// bound of the hypergraph with the greatest local id that lies directly
    /// in it, if there is one.
    pub fn id_bound(&self) -> (r: Vec<usize>)
        requires
            self.wf(),
        ensures
            is_bound(self@, Seq::empty(), r@),
            forall|p: Seq<usize>| self@.dom().contains(p) ==> lex_lt(p, r@),
    {
        let r = self.bound_of(Ghost(self.size()));
        proof {
            self.lemma_tree_shaped();
            assert forall|p: Seq<usize>| self@.dom().contains(p) implies lex_lt(p, r@) by {
                lemma_bound_is_above(self@, r@, p);
            }
        }
        r
    }
}

} // verus!
