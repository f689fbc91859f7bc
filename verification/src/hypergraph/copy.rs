//! Copying a hypergraph.

use vstd::prelude::*;
use crate::hypergraph::GraphSlot;
use crate::hypergraph::Hypergraph;
use crate::hypergraph::at_most_one;
use crate::model::copy_of;
use crate::model::option_cloned;
use crate::model::payload_cloned;
use crate::model::same_but_payload;
use crate::slots::EdgeSlot;
use crate::slots::LinkSlot;
use crate::slots::NodeSlot;
use crate::slots::copy_links;
use crate::slots::has_key;
use crate::slots::key_pos;
use crate::slots::lemma_same_keys;
use crate::slots::links_view;
use crate::slots::slot_of;

verus! {

impl<N: Clone, E: Clone, H: Clone, L: Clone, Ty: Clone> Hypergraph<N, E, H, L, Ty> {
    /// The store `b` is a copy of the store `a`.
    pub(super) open spec fn nodes_copied(a: Seq<NodeSlot<N>>, b: Seq<NodeSlot<N>>) -> bool {
        &&& a.len() == b.len()
        &&& forall|i: int|
            0 <= i < a.len() ==> {
                &&& (#[trigger] b[i]).id == a[i].id
                &&& links_view(b[i].links@) == links_view(a[i].links@)
                &&& cloned(a[i].value, b[i].value)
            }
    }

    /// The store `b` is a copy of the store `a`.
    pub(super) open spec fn edges_copied(a: Seq<EdgeSlot<E>>, b: Seq<EdgeSlot<E>>) -> bool {
        &&& a.len() == b.len()
        &&& forall|i: int|
            0 <= i < a.len() ==> {
                &&& (#[trigger] b[i]).id == a[i].id
                &&& links_view(b[i].links@) == links_view(a[i].links@)
                &&& cloned(a[i].value, b[i].value)
            }
    }

    /// The store `b` is a copy of the store `a`.
    pub(super) open spec fn links_copied(a: Seq<LinkSlot<L>>, b: Seq<LinkSlot<L>>) -> bool {
        &&& a.len() == b.len()
        &&& forall|i: int|
            0 <= i < a.len() ==> {
                &&& (#[trigger] b[i]).id == a[i].id
                &&& b[i].source@ == a[i].source@
                &&& b[i].target@ == a[i].target@
                &&& option_cloned(a[i].value, b[i].value)
            }
    }

    /// The store `b` is a copy of the store `a`.
    pub(super) open spec fn graphs_copied(a: Seq<GraphSlot<N, E, H, L>>, b: Seq<GraphSlot<N, E, H, L>>) -> bool {
        &&& a.len() == b.len()
        &&& forall|i: int|
            0 <= i < a.len() ==> {
                &&& (#[trigger] b[i]).id == a[i].id
                &&& links_view(b[i].links@) == links_view(a[i].links@)
                &&& a[i].graph.wf() ==> b[i].graph.wf() && copy_of(a[i].graph@, b[i].graph@)
                &&& b[i].graph.size() == a[i].graph.size()
            }
    }

    /// A hypergraph made of copies of the stores of another is a copy of it.
    pub(super) proof fn lemma_copied(self, other: Self)
        requires
            self.wf(),
            other.next_id == self.next_id,
            option_cloned(self.value, other.value),
            Self::nodes_copied(self.nodes@, other.nodes@),
            Self::edges_copied(self.edges@, other.edges@),
            Self::links_copied(self.links@, other.links@),
            Self::graphs_copied(self.hypergraphs@, other.hypergraphs@),
        ensures
            other.wf(),
            copy_of(self@, other@),
    {
        lemma_same_keys(self.nodes@, other.nodes@);
        lemma_same_keys(self.edges@, other.edges@);
        lemma_same_keys(self.links@, other.links@);
        lemma_same_keys(self.hypergraphs@, other.hypergraphs@);
        assert(other.wf()) by {
            assert forall|i: int| 0 <= i < other.hypergraphs@.len() implies (
            #[trigger] other.hypergraphs@[i]).graph.wf() by {
                assert(self.hypergraphs@[i].graph.wf());
                assert(other.hypergraphs@[i].id == self.hypergraphs@[i].id);
            }
            assert forall|id: usize|
                #![trigger slot_of(other.nodes@, id)]
                #![trigger slot_of(other.edges@, id)]
                #![trigger slot_of(other.links@, id)]
                #![trigger slot_of(other.hypergraphs@, id)]
                at_most_one(
                    slot_of(other.nodes@, id) is Some,
                    slot_of(other.edges@, id) is Some,
                    slot_of(other.links@, id) is Some,
                    slot_of(other.hypergraphs@, id) is Some,
                ) by {
                assert(at_most_one(
                    slot_of(self.nodes@, id) is Some,
                    slot_of(self.edges@, id) is Some,
                    slot_of(self.links@, id) is Some,
                    slot_of(self.hypergraphs@, id) is Some,
                ));
            }
        }
        assert forall|p: Seq<usize>|
            (self.record(p) is Some) == (other.record(p) is Some) && (self.record(p) is Some
                ==> same_but_payload(self.record(p).unwrap(), other.record(p).unwrap()) && payload_cloned(
                self.record(p).unwrap(),
                other.record(p).unwrap(),
            )) by {
            if p.len() == 0 {
            } else {
                let k = p[0];
                assert(has_key(other.nodes@, k) == has_key(self.nodes@, k));
                assert(has_key(other.edges@, k) == has_key(self.edges@, k));
                assert(has_key(other.links@, k) == has_key(self.links@, k));
                assert(has_key(other.hypergraphs@, k) == has_key(self.hypergraphs@, k));
                if has_key(self.nodes@, k) {
                    assert(key_pos(other.nodes@, k) == key_pos(self.nodes@, k));
                }
                if has_key(self.edges@, k) {
                    assert(key_pos(other.edges@, k) == key_pos(self.edges@, k));
                }
                if has_key(self.links@, k) {
                    assert(key_pos(other.links@, k) == key_pos(self.links@, k));
                }
                if has_key(self.hypergraphs@, k) {
                    let i = key_pos(self.hypergraphs@, k);
                    assert(key_pos(other.hypergraphs@, k) == i);
                    let a = self.hypergraphs@[i].graph;
                    let b = other.hypergraphs@[i].graph;
                    assert(self.hypergraphs@[i].graph.wf());
                    assert(other.hypergraphs@[i].id == self.hypergraphs@[i].id);
                    assert(copy_of(a@, b@));
                    a.lemma_root();
                    b.lemma_root();
                    assert(a@.dom().contains(Seq::<usize>::empty()));
                    if p.len() >= 2 {
                        let rest = p.skip(1);
                        assert(a@.dom().contains(rest) == b@.dom().contains(rest));
                        if a@.dom().contains(rest) {
                            assert(same_but_payload(a@[rest], b@[rest]));
                        }
                    }
                }
            }
        }
        assert forall|p: Seq<usize>| self@.dom().contains(p) == #[trigger] other@.dom().contains(p) by {}
    }

    /// Copies of nested hypergraphs hold as much as what they are copies of.
    pub(super) proof fn lemma_copied_size(a: Seq<GraphSlot<N, E, H, L>>, b: Seq<GraphSlot<N, E, H, L>>)
        requires
            Self::graphs_copied(a, b),
        ensures
            Self::nested_size(a) == Self::nested_size(b),
        decreases a.len(),
    {
        if a.len() > 0 {
            assert(b[b.len() - 1].graph.size() == a[a.len() - 1].graph.size());
            assert(Self::graphs_copied(a.drop_last(), b.drop_last())) by {
                assert forall|i: int| 0 <= i < a.drop_last().len() implies {
                    &&& (#[trigger] b.drop_last()[i]).id == a.drop_last()[i].id
                    &&& links_view(b.drop_last()[i].links@) == links_view(a.drop_last()[i].links@)
                    &&& a.drop_last()[i].graph.wf() ==> b.drop_last()[i].graph.wf() && copy_of(
                        a.drop_last()[i].graph@,
                        b.drop_last()[i].graph@,
                    )
                    &&& b.drop_last()[i].graph.size() == a.drop_last()[i].graph.size()
                } by {
                    assert(b[i].id == a[i].id);
                }
            }
            Self::lemma_copied_size(a.drop_last(), b.drop_last());
        }
    }

    /// Clones an optional payload.
    pub(super) fn clone_option<T: Clone>(v: &Option<T>) -> (r: Option<T>)
        ensures
            option_cloned(*v, r),
    {
        match v {
            Some(x) => Some(x.clone()),
            None => None,
        }
    }

    /// Makes a copy: the same elements with the same links, each payload a
    /// clone.
    #[verifier::loop_isolation(false)]
    pub(crate) fn duplicate(&self, Ghost(fuel): Ghost<nat>) -> (r: Self)
        requires
            self.size() <= fuel,
        ensures
            self.wf() ==> r.wf() && copy_of(self@, r@),
            r.size() == self.size(),
        decreases fuel,
    {
        let mut nodes: Vec<NodeSlot<N>> = Vec::new();
        let mut i: usize = 0;
        while i < self.nodes.len()
            invariant
                i <= self.nodes@.len(),
                Self::nodes_copied(self.nodes@.take(i as int), nodes@),
            decreases self.nodes@.len() - i,
        {
            let s = &self.nodes[i];
            nodes.push(NodeSlot { id: s.id, value: s.value.clone(), links: copy_links(&s.links) });
            i += 1;
        }
        let mut edges: Vec<EdgeSlot<E>> = Vec::new();
        let mut i: usize = 0;
        while i < self.edges.len()
            invariant
                i <= self.edges@.len(),
                Self::edges_copied(self.edges@.take(i as int), edges@),
            decreases self.edges@.len() - i,
        {
            let s = &self.edges[i];
            edges.push(EdgeSlot { id: s.id, value: s.value.clone(), links: copy_links(&s.links) });
            i += 1;
        }
        let mut links: Vec<LinkSlot<L>> = Vec::new();
        let mut i: usize = 0;
        while i < self.links.len()
            invariant
                i <= self.links@.len(),
                Self::links_copied(self.links@.take(i as int), links@),
            decreases self.links@.len() - i,
        {
            let s = &self.links[i];
            links.push(
                LinkSlot {
                    id: s.id,
                    value: Self::clone_option(&s.value),
                    source: crate::path::to_path(s.source.as_slice()),
                    target: crate::path::to_path(s.target.as_slice()),
                },
            );
            i += 1;
        }
        let mut hypergraphs: Vec<GraphSlot<N, E, H, L>> = Vec::new();
        let mut i: usize = 0;
        while i < self.hypergraphs.len()
            invariant
                i <= self.hypergraphs@.len(),
                Self::graphs_copied(self.hypergraphs@.take(i as int), hypergraphs@),
            decreases self.hypergraphs@.len() - i,
        {
            let s = &self.hypergraphs[i];
            proof {
                Self::lemma_nested_size_update(self.hypergraphs@, i as int, self.hypergraphs@[i as int]);
            }
            let graph = s.graph.duplicate(Ghost(s.graph.size()));
            hypergraphs.push(GraphSlot { id: s.id, graph, links: copy_links(&s.links) });
            i += 1;
        }
        let r = Hypergraph {
            value: Self::clone_option(&self.value),
            nodes,
            edges,
            links,
            hypergraphs,
            next_id: self.next_id,
            class: self.class.clone(),
        };
        proof {
            assert(self.nodes@.take(self.nodes@.len() as int) =~= self.nodes@);
            assert(self.edges@.take(self.edges@.len() as int) =~= self.edges@);
            assert(self.links@.take(self.links@.len() as int) =~= self.links@);
            assert(self.hypergraphs@.take(self.hypergraphs@.len() as int) =~= self.hypergraphs@);
            Self::lemma_copied_size(self.hypergraphs@, r.hypergraphs@);
            if self.wf() {
                self.lemma_copied(r);
            }
        }
        r
    }
}

impl<N: Clone, E: Clone, H: Clone, L: Clone, Ty: Clone> Clone for Hypergraph<N, E, H, L, Ty> {
    /// Makes a copy of the hypergraph: the same elements with the same
    /// links, each payload a clone. The copy obeys the structural rules if
    /// the hypergraph does.
    fn clone(&self) -> (r: Self)
        ensures
            self.wf() ==> r.wf() && copy_of(self@, r@),
            self.inv() ==> r.inv(),
    {
        let r = self.duplicate(Ghost(self.size()));
        proof {
            if self.inv() {
                crate::model::lemma_shape_consistent(self@, r@, Set::empty());
            }
        }
        r
    }
}

impl<N: Clone, E: Clone, H: Clone, L: Clone> Clone for GraphSlot<N, E, H, L> {
    /// Copies the nested hypergraph with its local id and its links.
    fn clone(&self) -> (r: Self)
        ensures
            r.id == self.id,
            links_view(r.links@) == links_view(self.links@),
            self.graph.wf() ==> r.graph.wf() && copy_of(self.graph@, r.graph@),
    {
        GraphSlot { id: self.id, graph: self.graph.clone(), links: copy_links(&self.links) }
    }
}

} // verus!
