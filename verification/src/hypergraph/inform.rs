//! Counts, capacities and the stores as they are.

use vstd::prelude::*;
use crate::elements::ElementType;
use crate::hypergraph::GraphSlot;
use crate::hypergraph::Hypergraph;
use crate::hypergraph::at_most_one;
use crate::model::Model;
use crate::model::Record;
use crate::model::local_ids;
use crate::model::subview;
use crate::slots::EdgeSlot;
use crate::slots::LinkSlot;
use crate::slots::NodeSlot;
use crate::slots::ascending;
use crate::slots::has_key;
use crate::slots::key_pos;
use crate::slots::key_set;
use crate::slots::lemma_key_pos;
use crate::slots::lemma_key_set_len;
use crate::slots::links_view;
use crate::slots::slot_of;
use crate::traits::HypergraphClass;

verus! {

/// The store holds the nodes that lie directly in the root of the model, and
/// nothing else, in the order of the local ids.
pub open spec fn stores_nodes<N, E, H, L>(m: Model<N, E, H, L>, r: Seq<NodeSlot<N>>) -> bool {
    &&& ascending(r)
    &&& forall|k: usize|
        match #[trigger] slot_of(r, k) {
            Some(s) => m.dom().contains(seq![k]) && m[seq![k]] == (Record::<N, E, H, L>::Node {
                value: s.value,
                links: links_view(s.links@),
            }),
            None => !(m.dom().contains(seq![k]) && m[seq![k]] is Node),
        }
}

/// The store holds the hyperedges that lie directly in the root of the model,
/// and nothing else, in the order of the local ids.
pub open spec fn stores_edges<N, E, H, L>(m: Model<N, E, H, L>, r: Seq<EdgeSlot<E>>) -> bool {
    &&& ascending(r)
    &&& forall|k: usize|
        match #[trigger] slot_of(r, k) {
            Some(s) => m.dom().contains(seq![k]) && m[seq![k]] == (Record::<N, E, H, L>::Edge {
                value: s.value,
                links: links_view(s.links@),
            }),
            None => !(m.dom().contains(seq![k]) && m[seq![k]] is Edge),
        }
}

/// The store holds the links that lie directly in the root of the model, and
/// nothing else, in the order of the local ids.
pub open spec fn stores_links<N, E, H, L>(m: Model<N, E, H, L>, r: Seq<LinkSlot<L>>) -> bool {
    &&& ascending(r)
    &&& forall|k: usize|
        match #[trigger] slot_of(r, k) {
            Some(s) => m.dom().contains(seq![k]) && m[seq![k]] == (Record::<N, E, H, L>::Link {
                value: s.value,
                source: s.source@,
                target: s.target@,
            }),
            None => !(m.dom().contains(seq![k]) && m[seq![k]] is Link),
        }
}

/// The store holds the hypergraphs that lie directly in the root of the
/// model, each with all that it holds, and nothing else, in the order of the
/// local ids.
pub open spec fn stores_graphs<N, E, H, L>(m: Model<N, E, H, L>, r: Seq<GraphSlot<N, E, H, L>>) -> bool {
    &&& ascending(r)
    &&& forall|k: usize|
        match #[trigger] slot_of(r, k) {
            Some(s) => {
                &&& m.dom().contains(seq![k])
                &&& m[seq![k]] is Graph
                &&& m[seq![k]].adjacency() == links_view(s.links@)
                &&& s.graph.wf()
                &&& s.graph@ == subview(m, seq![k])
            },
            None => !(m.dom().contains(seq![k]) && m[seq![k]] is Graph),
        }
}

impl<N, E, H, L, Ty> Hypergraph<N, E, H, L, Ty> {
    /// Returns the nodes of this hypergraph as they are stored, in the order
    /// of their local ids.
    pub fn raw_nodes(&self) -> (r: &Vec<NodeSlot<N>>)
        requires
            self.wf(),
        ensures
            stores_nodes(self@, r@),
    {
        proof {
            assert forall|k: usize|
                match #[trigger] slot_of(self.nodes@, k) {
                    Some(s) => self@.dom().contains(seq![k]) && self@[seq![k]] == (Record::<N, E, H, L>::Node {
                        value: s.value,
                        links: links_view(s.links@),
                    }),
                    None => !(self@.dom().contains(seq![k]) && self@[seq![k]] is Node),
                } by {
                self.lemma_local(k);
                assert(at_most_one(
                    slot_of(self.nodes@, k) is Some,
                    slot_of(self.edges@, k) is Some,
                    slot_of(self.links@, k) is Some,
                    slot_of(self.hypergraphs@, k) is Some,
                ));
            }
        }
        &self.nodes
    }

    /// Returns the hyperedges of this hypergraph as they are stored, in the
    /// order of their local ids.
    pub fn raw_edges(&self) -> (r: &Vec<EdgeSlot<E>>)
        requires
            self.wf(),
        ensures
            stores_edges(self@, r@),
    {
        proof {
            assert forall|k: usize|
                match #[trigger] slot_of(self.edges@, k) {
                    Some(s) => self@.dom().contains(seq![k]) && self@[seq![k]] == (Record::<N, E, H, L>::Edge {
                        value: s.value,
                        links: links_view(s.links@),
                    }),
                    None => !(self@.dom().contains(seq![k]) && self@[seq![k]] is Edge),
                } by {
                self.lemma_local(k);
                assert(at_most_one(
                    slot_of(self.nodes@, k) is Some,
                    slot_of(self.edges@, k) is Some,
                    slot_of(self.links@, k) is Some,
                    slot_of(self.hypergraphs@, k) is Some,
                ));
            }
        }
        &self.edges
    }

    /// Returns the links of this hypergraph as they are stored, in the order
    /// of their local ids.
    pub fn raw_links(&self) -> (r: &Vec<LinkSlot<L>>)
        requires
            self.wf(),
        ensures
            stores_links(self@, r@),
    {
        proof {
            assert forall|k: usize|
                match #[trigger] slot_of(self.links@, k) {
                    Some(s) => self@.dom().contains(seq![k]) && self@[seq![k]] == (Record::<N, E, H, L>::Link {
                        value: s.value,
                        source: s.source@,
                        target: s.target@,
                    }),
                    None => !(self@.dom().contains(seq![k]) && self@[seq![k]] is Link),
                } by {
                self.lemma_local(k);
                assert(at_most_one(
                    slot_of(self.nodes@, k) is Some,
                    slot_of(self.edges@, k) is Some,
                    slot_of(self.links@, k) is Some,
                    slot_of(self.hypergraphs@, k) is Some,
                ));
            }
        }
        &self.links
    }

    /// Returns the nested hypergraphs of this hypergraph as they are stored,
    /// in the order of their local ids.
    pub fn raw_hypergraphs(&self) -> (r: &Vec<GraphSlot<N, E, H, L>>)
        requires
            self.wf(),
        ensures
            stores_graphs(self@, r@),
            forall|k: usize| #[trigger] slot_of(r@, k) matches Some(s) ==> s.graph.size() < self.size(),
    {
        proof {
            assert forall|k: usize|
                match #[trigger] slot_of(self.hypergraphs@, k) {
                    Some(s) => {
                        &&& self@.dom().contains(seq![k])
                        &&& self@[seq![k]] is Graph
                        &&& self@[seq![k]].adjacency() == links_view(s.links@)
                        &&& s.graph.wf()
                        &&& s.graph@ == subview(self@, seq![k])
                        &&& s.graph.size() < self.size()
                    },
                    None => !(self@.dom().contains(seq![k]) && self@[seq![k]] is Graph),
                } by {
                self.lemma_local(k);
                assert(at_most_one(
                    slot_of(self.nodes@, k) is Some,
                    slot_of(self.edges@, k) is Some,
                    slot_of(self.links@, k) is Some,
                    slot_of(self.hypergraphs@, k) is Some,
                ));
                if has_key(self.hypergraphs@, k) {
                    let i = key_pos(self.hypergraphs@, k);
                    self.lemma_subview_child(i);
                    lemma_key_pos(self.hypergraphs@, i);
                    Self::lemma_nested_size_update(self.hypergraphs@, i, self.hypergraphs@[i]);
                }
            }
        }
        &self.hypergraphs
    }
}

impl<N, E, H, L, Ty> Hypergraph<N, E, H, L, Ty> {
    /// The local ids of each kind are those of the store of that kind.
    pub(super) proof fn lemma_local_ids(self)
        requires
            self.wf(),
        ensures
            local_ids(self@, ElementType::Node) == key_set(self.nodes@),
            local_ids(self@, ElementType::Edge) == key_set(self.edges@),
            local_ids(self@, ElementType::Link) == key_set(self.links@),
            local_ids(self@, ElementType::Hypergraph) == key_set(self.hypergraphs@),
    {
        assert forall|k: usize|
            local_ids(self@, ElementType::Node).contains(k) == key_set(self.nodes@).contains(k) && local_ids(
                self@,
                ElementType::Edge,
            ).contains(k) == key_set(self.edges@).contains(k) && local_ids(self@, ElementType::Link).contains(k)
                == key_set(self.links@).contains(k) && local_ids(self@, ElementType::Hypergraph).contains(k)
                == key_set(self.hypergraphs@).contains(k) by {
            self.lemma_local(k);
            assert(at_most_one(
                slot_of(self.nodes@, k) is Some,
                slot_of(self.edges@, k) is Some,
                slot_of(self.links@, k) is Some,
                slot_of(self.hypergraphs@, k) is Some,
            ));
        }
        assert(local_ids(self@, ElementType::Node) =~= key_set(self.nodes@));
        assert(local_ids(self@, ElementType::Edge) =~= key_set(self.edges@));
        assert(local_ids(self@, ElementType::Link) =~= key_set(self.links@));
        assert(local_ids(self@, ElementType::Hypergraph) =~= key_set(self.hypergraphs@));
    }

    /// The elements that lie directly in a hypergraph are finite in number.
    pub proof fn lemma_local_ids_finite(self, kind: ElementType)
        requires
            self.wf(),
        ensures
            local_ids(self@, kind).finite(),
    {
        self.lemma_local_ids();
        lemma_key_set_len(self.nodes@);
        lemma_key_set_len(self.edges@);
        lemma_key_set_len(self.links@);
        lemma_key_set_len(self.hypergraphs@);
    }

    /// Returns the number of nodes that lie directly in this hypergraph.
    pub fn node_count(&self) -> (r: usize)
        requires
            self.wf(),
        ensures
            r == local_ids(self@, ElementType::Node).len(),
    {
        proof {
            self.lemma_local_ids();
            lemma_key_set_len(self.nodes@);
        }
        self.nodes.len()
    }

    /// Returns the number of hyperedges that lie directly in this hypergraph.
    pub fn edge_count(&self) -> (r: usize)
        requires
            self.wf(),
        ensures
            r == local_ids(self@, ElementType::Edge).len(),
    {
        proof {
            self.lemma_local_ids();
            lemma_key_set_len(self.edges@);
        }
        self.edges.len()
    }

    /// Returns the number of links that lie directly in this hypergraph.
    pub fn link_count(&self) -> (r: usize)
        requires
            self.wf(),
        ensures
            r == local_ids(self@, ElementType::Link).len(),
    {
        proof {
            self.lemma_local_ids();
            lemma_key_set_len(self.links@);
        }
        self.links.len()
    }

    /// Returns the number of hypergraphs at this level: this one and those
    /// that lie directly in it.
    pub fn hypergraph_count(&self) -> (r: usize)
        requires
            self.wf(),
            local_ids(self@, ElementType::Hypergraph).len() < usize::MAX,
        ensures
            r == 1 + local_ids(self@, ElementType::Hypergraph).len(),
    {
        proof {
            self.lemma_local_ids();
            lemma_key_set_len(self.hypergraphs@);
        }
        1 + self.hypergraphs.len()
    }

    /// Returns `true` if no node and no hypergraph lies directly in this
    /// hypergraph.
    pub fn is_empty(&self) -> (r: bool)
        requires
            self.wf(),
        ensures
            r == (local_ids(self@, ElementType::Node).len() == 0 && local_ids(
                self@,
                ElementType::Hypergraph,
            ).len() == 0),
    {
        proof {
            self.lemma_local_ids();
            lemma_key_set_len(self.nodes@);
            lemma_key_set_len(self.hypergraphs@);
        }
        self.nodes.len() == 0 && self.hypergraphs.len() == 0
    }
}

impl<N, E, H, L, Ty: HypergraphClass> Hypergraph<N, E, H, L, Ty> {
    /// Returns `true` if this is the root of a structure.
    pub fn is_main(&self) -> (r: bool)
        ensures
            r == self.role().main_spec(),
    {
        self.class.is_main()
    }

    /// Returns `true` if this is a level nested in another hypergraph.
    pub fn is_sub(&self) -> (r: bool)
        ensures
            r == !self.role().main_spec(),
    {
        self.class.is_sub()
    }
}

/// Whether each of the four numbers, taken in the order hyperedges,
/// hypergraphs, links, nodes, is at least the number of elements of that
/// kind that lie directly in the root of the model.
pub open spec fn room_for<N, E, H, L>(m: Model<N, E, H, L>, r: (usize, usize, usize, usize)) -> bool {
    local_ids(m, ElementType::Edge).len() <= r.0 && local_ids(m, ElementType::Hypergraph).len() <= r.1
        && local_ids(m, ElementType::Link).len() <= r.2 && local_ids(m, ElementType::Node).len() <= r.3
}

impl<N, E, H, L, Ty> Hypergraph<N, E, H, L, Ty> {
    /// Returns the capacities of the four stores, in the order hyperedges,
    /// hypergraphs, links, nodes: how many elements of each kind the store
    /// can hold before memory is asked for again. Each depends on the
    /// allocator, and is at least the number of elements that the store holds.
    pub fn capacities(&self) -> (r: (usize, usize, usize, usize))
        ensures
            self.wf() ==> room_for(self@, r),
    {
        proof { self.lemma_store_lengths(); }
        (capacity_of(&self.edges), capacity_of(&self.hypergraphs), capacity_of(&self.links), capacity_of(&self.nodes))
    }

    /// Makes room for `additional` more elements of each kind. What the
    /// hypergraph holds stays as it is; how much room there is afterwards
    /// is for the allocator to say, and is told by `capacities`.
    pub fn reserve(&mut self, additional: usize)
        requires
            old(self).wf(),
        ensures
            final(self).wf(),
            final(self)@ == old(self)@,
    {
        let ghost before = *self;
        self.edges.reserve(additional);
        self.hypergraphs.reserve(additional);
        self.links.reserve(additional);
        self.nodes.reserve(additional);
        proof {
            before.lemma_same_content(*self);
        }
    }

    /// Makes room for `additional` more hyperedges.
    pub fn reserve_edges(&mut self, additional: usize)
        requires
            old(self).wf(),
        ensures
            final(self).wf(),
            final(self)@ == old(self)@,
    {
        let ghost before = *self;
        self.edges.reserve(additional);
        proof {
            before.lemma_same_content(*self);
        }
    }

    /// Makes room for `additional` more nested hypergraphs.
    pub fn reserve_hypergraphs(&mut self, additional: usize)
        requires
            old(self).wf(),
        ensures
            final(self).wf(),
            final(self)@ == old(self)@,
    {
        let ghost before = *self;
        self.hypergraphs.reserve(additional);
        proof {
            before.lemma_same_content(*self);
        }
    }

    /// Makes room for `additional` more links.
    pub fn reserve_links(&mut self, additional: usize)
        requires
            old(self).wf(),
        ensures
            final(self).wf(),
            final(self)@ == old(self)@,
    {
        let ghost before = *self;
        self.links.reserve(additional);
        proof {
            before.lemma_same_content(*self);
        }
    }

    /// Makes room for `additional` more nodes.
    pub fn reserve_nodes(&mut self, additional: usize)
        requires
            old(self).wf(),
        ensures
            final(self).wf(),
            final(self)@ == old(self)@,
    {
        let ghost before = *self;
        self.nodes.reserve(additional);
        proof {
            before.lemma_same_content(*self);
        }
    }

    /// Each store holds as many items as elements of its kind lie directly
    /// in the hypergraph.
    proof fn lemma_store_lengths(self)
        ensures
            self.wf() ==> {
                &&& local_ids(self@, ElementType::Node).len() == self.nodes@.len()
                &&& local_ids(self@, ElementType::Edge).len() == self.edges@.len()
                &&& local_ids(self@, ElementType::Link).len() == self.links@.len()
                &&& local_ids(self@, ElementType::Hypergraph).len() == self.hypergraphs@.len()
            },
    {
        if self.wf() {
            self.lemma_local_ids();
            lemma_key_set_len(self.nodes@);
            lemma_key_set_len(self.edges@);
            lemma_key_set_len(self.links@);
            lemma_key_set_len(self.hypergraphs@);
        }
    }
}

/// Returns the capacity of a vector: `Vec::capacity` of std, the number of
/// items that the vector can hold without asking for memory again. How large
/// it is depends on the allocator; it is never below the number of items
/// that the vector holds, which lie in the memory that the capacity counts.
#[verifier::external_body]
fn capacity_of<T>(v: &Vec<T>) -> (r: usize)
    ensures
        r >= v@.len(),
{
    v.capacity()
}

} // verus!
