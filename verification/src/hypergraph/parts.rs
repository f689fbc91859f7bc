//! Taking a hypergraph apart and making one of parts.

use vstd::prelude::*;
use crate::hypergraph::GraphSlot;
use crate::hypergraph::Hypergraph;
use crate::hypergraph::at_most_one;
use crate::model::Model;
use crate::model::Record;
use crate::model::subview;
use crate::slots::EdgeSlot;
use crate::slots::LinkSlot;
use crate::slots::NodeSlot;
use crate::slots::all_below;
use crate::slots::ascending;
use crate::slots::check_ascending;
use crate::slots::check_disjoint;
use crate::slots::has_key;
use crate::slots::key_pos;
use crate::slots::lemma_key_pos;
use crate::slots::links_view;
use crate::slots::slot_of;
use crate::traits::HypergraphClass;
use crate::traits::Main;
use crate::traits::Sub;

verus! {

impl<N, E, H, L, Ty> Hypergraph<N, E, H, L, Ty> {
    /// `after` stores the same as `self`; the role may differ.
    pub(super) open spec fn same_content<T2>(self, after: Hypergraph<N, E, H, L, T2>) -> bool {
        &&& after.value == self.value
        &&& after.nodes@ == self.nodes@
        &&& after.edges@ == self.edges@
        &&& after.links@ == self.links@
        &&& after.hypergraphs@ == self.hypergraphs@
        &&& after.next_id == self.next_id
    }

    /// Hypergraphs that store the same have the same model.
    pub(super) proof fn lemma_same_content<T2>(self, after: Hypergraph<N, E, H, L, T2>)
        requires
            self.same_content(after),
        ensures
            after.wf() == self.wf(),
            after@ == self@,
            after.size() == self.size(),
    {
        assert forall|p: Seq<usize>| after.record(p) == self.record(p) by {
            if p.len() > 0 {
                let j = p[0];
                assert(slot_of(after.hypergraphs@, j) == slot_of(self.hypergraphs@, j));
            }
        }
        assert(after@ =~= self@);
        Self::lemma_nested_size_any::<T2>(self.hypergraphs@);
    }

    /// The count of a store of nested hypergraphs does not depend on the
    /// role of the hypergraph that holds the store.
    pub(super) proof fn lemma_nested_size_any<T2>(slots: Seq<GraphSlot<N, E, H, L>>)
        ensures
            Self::nested_size(slots) == Hypergraph::<N, E, H, L, T2>::nested_size(slots),
        decreases slots.len(),
    {
        if slots.len() > 0 {
            Self::lemma_nested_size_any::<T2>(slots.drop_last());
        }
    }

    /// The same hypergraph in the role of a nested one.
    pub closed spec fn as_sub(self) -> Hypergraph<N, E, H, L, Sub> {
        Hypergraph {
            value: self.value,
            edges: self.edges,
            nodes: self.nodes,
            links: self.links,
            hypergraphs: self.hypergraphs,
            next_id: self.next_id,
            class: Sub,
        }
    }

    /// The role plays no part in what a hypergraph holds.
    pub proof fn lemma_as_sub(self)
        ensures
            self.as_sub()@ == self@,
            self.as_sub().wf() == self.wf(),
            self.as_sub().inv() == self.inv(),
    {
        self.lemma_same_content(self.as_sub());
    }

    /// Gives up the hypergraph and returns it in the role of a nested one.
    pub fn into_sub(self) -> (r: Hypergraph<N, E, H, L, Sub>)
        ensures
            r == self.as_sub(),
            r@ == self@,
            r.wf() == self.wf(),
    {
        proof {
            self.lemma_as_sub();
        }
        Hypergraph {
            value: self.value,
            edges: self.edges,
            nodes: self.nodes,
            links: self.links,
            hypergraphs: self.hypergraphs,
            next_id: self.next_id,
            class: Sub,
        }
    }
}

impl<N, E, H, L> From<Hypergraph<N, E, H, L, Main>> for Hypergraph<N, E, H, L, Sub> {
    /// A root can take the role of a nested hypergraph.
    fn from(source: Hypergraph<N, E, H, L, Main>) -> (r: Self) {
        source.into_sub()
    }
}

impl<N, E, H, L> vstd::std_specs::convert::FromSpecImpl<Hypergraph<N, E, H, L, Main>> for Hypergraph<N, E, H, L, Sub> {
    open spec fn obeys_from_spec() -> bool {
        true
    }

    open spec fn from_spec(source: Hypergraph<N, E, H, L, Main>) -> Self {
        source.as_sub()
    }
}

/// The four stores can be the stores of one hypergraph with the counter
/// `next_id`: in each the local ids ascend and stay below the counter, and no
/// local id is in two of them.
pub open spec fn parts_fit<N, E, H, L>(
    nodes: Seq<NodeSlot<N>>,
    edges: Seq<EdgeSlot<E>>,
    links: Seq<LinkSlot<L>>,
    hypergraphs: Seq<GraphSlot<N, E, H, L>>,
    next_id: usize,
) -> bool {
    &&& ascending(nodes) && all_below(nodes, next_id)
    &&& ascending(edges) && all_below(edges, next_id)
    &&& ascending(links) && all_below(links, next_id)
    &&& ascending(hypergraphs) && all_below(hypergraphs, next_id)
    &&& forall|id: usize|
        #![trigger slot_of(nodes, id)]
        #![trigger slot_of(edges, id)]
        #![trigger slot_of(links, id)]
        #![trigger slot_of(hypergraphs, id)]
        at_most_one(
            slot_of(nodes, id) is Some,
            slot_of(edges, id) is Some,
            slot_of(links, id) is Some,
            slot_of(hypergraphs, id) is Some,
        )
}

/// What the model `m` holds under the local id `k`, given the four stores of
/// the hypergraph: the record of the item stored under `k`, and for a nested
/// hypergraph all that it holds; nothing where no item is stored under `k`.
pub open spec fn holds_at<N, E, H, L>(
    m: Model<N, E, H, L>,
    nodes: Seq<NodeSlot<N>>,
    edges: Seq<EdgeSlot<E>>,
    links: Seq<LinkSlot<L>>,
    hypergraphs: Seq<GraphSlot<N, E, H, L>>,
    k: usize,
) -> bool {
    if let Some(s) = slot_of(nodes, k) {
        m.dom().contains(seq![k]) && m[seq![k]] == (Record::<N, E, H, L>::Node {
            value: s.value,
            links: links_view(s.links@),
        })
    } else if let Some(s) = slot_of(edges, k) {
        m.dom().contains(seq![k]) && m[seq![k]] == (Record::<N, E, H, L>::Edge {
            value: s.value,
            links: links_view(s.links@),
        })
    } else if let Some(s) = slot_of(links, k) {
        m.dom().contains(seq![k]) && m[seq![k]] == (Record::<N, E, H, L>::Link {
            value: s.value,
            source: s.source@,
            target: s.target@,
        })
    } else if let Some(s) = slot_of(hypergraphs, k) {
        &&& m.dom().contains(seq![k])
        &&& m[seq![k]] is Graph
        &&& m[seq![k]].adjacency() == links_view(s.links@)
        &&& subview(m, seq![k]) == s.graph@
    } else {
        !m.dom().contains(seq![k])
    }
}

/// The model `m` is the model of the hypergraph with the given payload,
/// stores and counter.
pub open spec fn described<N, E, H, L>(
    m: Model<N, E, H, L>,
    value: Option<H>,
    nodes: Seq<NodeSlot<N>>,
    edges: Seq<EdgeSlot<E>>,
    links: Seq<LinkSlot<L>>,
    hypergraphs: Seq<GraphSlot<N, E, H, L>>,
    next_id: usize,
) -> bool {
    &&& m.dom().contains(Seq::empty())
    &&& m[Seq::empty()] == (Record::<N, E, H, L>::Graph { value, links: Seq::empty(), next_id })
    &&& forall|k: usize| #[trigger] holds_at(m, nodes, edges, links, hypergraphs, k)
}

impl<N, E, H, L, Ty> Hypergraph<N, E, H, L, Ty> {
    /// The model of a hypergraph is described by its parts.
    pub(super) proof fn lemma_described(self)
        requires
            self.wf(),
        ensures
            parts_fit(self.nodes@, self.edges@, self.links@, self.hypergraphs@, self.next_id),
            described(self@, self.value, self.nodes@, self.edges@, self.links@, self.hypergraphs@, self.next_id),
    {
        assert forall|k: usize| #[trigger]
            holds_at(self@, self.nodes@, self.edges@, self.links@, self.hypergraphs@, k) by {
            self.lemma_local(k);
            if slot_of(self.nodes@, k) is None && slot_of(self.edges@, k) is None && slot_of(self.links@, k)
                is None && has_key(self.hypergraphs@, k) {
                let i = key_pos(self.hypergraphs@, k);
                self.lemma_subview_child(i);
                lemma_key_pos(self.hypergraphs@, i);
            }
        }
    }

    /// Gives up the hypergraph and returns its parts: the payload, the
    /// stores of nodes, hyperedges, links and nested hypergraphs, and the
    /// counter.
    pub fn into_parts(self) -> (r: (
        Option<H>,
        Vec<NodeSlot<N>>,
        Vec<EdgeSlot<E>>,
        Vec<LinkSlot<L>>,
        Vec<GraphSlot<N, E, H, L>>,
        usize,
    ))
        requires
            self.wf(),
        ensures
            parts_fit(r.1@, r.2@, r.3@, r.4@, r.5),
            described(self@, r.0, r.1@, r.2@, r.3@, r.4@, r.5),
            forall|i: int| 0 <= i < r.4@.len() ==> (#[trigger] r.4@[i]).graph.wf(),
    {
        proof {
            self.lemma_described();
        }
        let Hypergraph { value, nodes, edges, links, hypergraphs, next_id, .. } = self;
        (value, nodes, edges, links, hypergraphs, next_id)
    }
}

impl<N, E, H, L, Ty: HypergraphClass> Hypergraph<N, E, H, L, Ty> {
    /// Makes a hypergraph of its parts, if they fit together. Whether the
    /// links of the result obey the structural rules is another question,
    /// which `is_consistent` answers.
    pub fn from_parts(
        value: Option<H>,
        nodes: Vec<NodeSlot<N>>,
        edges: Vec<EdgeSlot<E>>,
        links: Vec<LinkSlot<L>>,
        hypergraphs: Vec<GraphSlot<N, E, H, L>>,
        next_id: usize,
    ) -> (r: Option<Self>)
        requires
            forall|i: int| 0 <= i < hypergraphs@.len() ==> (#[trigger] hypergraphs@[i]).graph.wf(),
        ensures
            match r {
                Some(h) => {
                    &&& parts_fit(nodes@, edges@, links@, hypergraphs@, next_id)
                    &&& h.wf()
                    &&& described(h@, value, nodes@, edges@, links@, hypergraphs@, next_id)
                },
                None => !parts_fit(nodes@, edges@, links@, hypergraphs@, next_id),
            },
    {
        if !(check_ascending(&nodes, next_id) && check_ascending(&edges, next_id) && check_ascending(
            &links,
            next_id,
        ) && check_ascending(&hypergraphs, next_id)) {
            return None;
        }
        if !(check_disjoint(&nodes, &edges) && check_disjoint(&nodes, &links) && check_disjoint(
            &nodes,
            &hypergraphs,
        ) && check_disjoint(&edges, &links) && check_disjoint(&edges, &hypergraphs) && check_disjoint(
            &links,
            &hypergraphs,
        )) {
            return None;
        }
        let r = Hypergraph { value, nodes, edges, links, hypergraphs, next_id, class: Ty::new() };
        proof {
            assert(r.wf());
            r.lemma_described();
        }
        Some(r)
    }
}

} // verus!
