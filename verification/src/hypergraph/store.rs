//! The steps of which every change is made, each on an element that lies
//! directly in the hypergraph, with the proof of what the step does to the
//! model.

use vstd::prelude::*;
use crate::direction::Direction;
use crate::elements::Element;
use crate::elements::ElementType;
use crate::hypergraph::GraphSlot;
use crate::hypergraph::Hypergraph;
use crate::hypergraph::at_most_one;
use crate::model::LinkRef;
use crate::model::Record;
use crate::model::fresh;
use crate::model::prune;
use crate::model::strip;
use crate::model::subview;
use crate::slots::EdgeSlot;
use crate::slots::Keyed;
use crate::slots::LinkSlot;
use crate::slots::NodeSlot;
use crate::slots::all_below;
use crate::slots::ascending;
use crate::slots::drop_link;
use crate::slots::first_from;
use crate::slots::key_pos;
use crate::slots::lemma_key_pos;
use crate::slots::lemma_links_view_push;
use crate::slots::lemma_slot_push;
use crate::slots::lemma_slot_remove;
use crate::slots::lemma_slot_update;
use crate::slots::links_view;
use crate::slots::position;
use crate::slots::slot_of;
use crate::traits::Sub;

verus! {

impl<N, E, H, L, Ty> Hypergraph<N, E, H, L, Ty> {
    /// Creates an empty nested hypergraph with the given payload.
    pub(super) fn fresh_level(value: Option<H>) -> (r: Hypergraph<N, E, H, L, Sub>)
        ensures
            r.wf(),
            r.value == value,
            r.next_id == 0,
            r.size() == 0,
            forall|p: Seq<usize>| p.len() > 0 ==> r.record(p) is None,
    {
        let r = Hypergraph {
            value,
            nodes: Vec::new(),
            edges: Vec::new(),
            links: Vec::new(),
            hypergraphs: Vec::new(),
            next_id: 0,
            class: Sub,
        };
        proof {
            assert forall|p: Seq<usize>| p.len() > 0 implies r.record(p) is None by {
                reveal_with_fuel(Hypergraph::record, 2);
            }
        }
        r
    }

    /// Stores a new element under the next local id and returns that id.
    pub(crate) fn add_local_element(&mut self, element: Element<N, E, H, L, Vec<usize>>) -> (id: usize)
        requires
            old(self).wf(),
            old(self)@[Seq::empty()].counter() < usize::MAX,
        ensures
            final(self).wf(),
            id == old(self)@[Seq::empty()].counter(),
            final(self)@ == old(self)@.insert(seq![id], fresh(element)).insert(
                Seq::empty(),
                old(self)@[Seq::empty()].advanced(1),
            ),
            final(self).size() == old(self).size() + 1,
    {
        let id = self.next_id;
        let ghost before = *self;
        proof {
            assert(links_view(Seq::<(Vec<usize>, Direction)>::empty()) =~= Seq::<LinkRef>::empty());
            before.lemma_root();
            Self::lemma_unused(before.nodes@, id);
            Self::lemma_unused(before.edges@, id);
            Self::lemma_unused(before.links@, id);
            Self::lemma_unused(before.hypergraphs@, id);
        }
        match element {
            Element::Edge { value } => {
                let slot = EdgeSlot { id, value, links: Vec::new() };
                proof {
                    lemma_slot_push(before.edges@, slot);
                }
                self.edges.push(slot);
                assert(self.local(id) == Some(fresh(element)));
            },
            Element::Hypergraph { value } => {
                let graph = Self::fresh_level(value);
                let slot = GraphSlot { id, graph, links: Vec::new() };
                proof {
                    lemma_slot_push(before.hypergraphs@, slot);
                    Self::lemma_nested_size_push(before.hypergraphs@, slot);
                }
                self.hypergraphs.push(slot);
                assert(self.local(id) == Some(fresh(element)));
            },
            Element::Link { source, target, value } => {
                let slot = LinkSlot { id, value, source, target };
                proof {
                    lemma_slot_push(before.links@, slot);
                }
                self.links.push(slot);
                assert(self.local(id) == Some(fresh(element)));
            },
            Element::Node { value } => {
                let slot = NodeSlot { id, value, links: Vec::new() };
                proof {
                    lemma_slot_push(before.nodes@, slot);
                }
                self.nodes.push(slot);
                assert(self.local(id) == Some(fresh(element)));
            },
        }
        self.next_id = id + 1;
        proof {
            let after = *self;
            let expected = before@.insert(seq![id], fresh(element)).insert(
                Seq::empty(),
                before@[Seq::empty()].advanced(1),
            );
            assert(links_view(Seq::<(Vec<usize>, Direction)>::empty()) =~= Seq::<LinkRef>::empty());
            before.lemma_frame(after, id);
            after.lemma_local(id);
            assert(after.local(id) == Some(fresh(element)));
            assert forall|p: Seq<usize>| p.len() >= 2 && p[0] == id implies after.record(p) is None by {
                if element is Hypergraph {
                    let c = after.hypergraphs@[after.hypergraphs@.len() - 1].graph;
                    assert(slot_of(after.hypergraphs@, id) == Some(
                        after.hypergraphs@[after.hypergraphs@.len() - 1],
                    ));
                    assert(c.record(p.skip(1)) is None);
                }
            }
            assert(after@ =~= expected) by {
                assert forall|p: Seq<usize>|
                    #![trigger after@.dom().contains(p)]
                    #![trigger expected.dom().contains(p)]
                    after@.dom().contains(p) == expected.dom().contains(p) && (after@.dom().contains(p)
                        ==> after@[p] == expected[p]) by {
                    if p.len() == 0 {
                        assert(p =~= Seq::<usize>::empty());
                    } else if p[0] == id {
                        if p.len() == 1 {
                            assert(p =~= seq![id]);
                        } else {
                            assert(p != seq![id]);
                        }
                    } else {
                        assert(p != seq![id]);
                    }
                }
            }
            assert(after.wf()) by {
                Self::lemma_bound_all(before, after);
            }
        }
        id
    }

    /// Bookkeeping for `add_local_element`: the stores stay bounded and
    /// disjoint.
    pub(super) proof fn lemma_bound_all(before: Self, after: Self)
        requires
            before.wf(),
            before.next_id < usize::MAX,
            after.next_id == before.next_id + 1,
            ascending(after.nodes@),
            ascending(after.edges@),
            ascending(after.links@),
            ascending(after.hypergraphs@),
            forall|j: usize| #[trigger]
                slot_of(after.nodes@, j) is Some ==> slot_of(before.nodes@, j) is Some || j == before.next_id,
            forall|j: usize| #[trigger]
                slot_of(after.edges@, j) is Some ==> slot_of(before.edges@, j) is Some || j == before.next_id,
            forall|j: usize| #[trigger]
                slot_of(after.links@, j) is Some ==> slot_of(before.links@, j) is Some || j == before.next_id,
            forall|j: usize| #[trigger]
                slot_of(after.hypergraphs@, j) is Some ==> slot_of(before.hypergraphs@, j) is Some || j
                    == before.next_id,
            at_most_one(
                slot_of(after.nodes@, before.next_id) is Some,
                slot_of(after.edges@, before.next_id) is Some,
                slot_of(after.links@, before.next_id) is Some,
                slot_of(after.hypergraphs@, before.next_id) is Some,
            ),
            forall|i: int|
                0 <= i < after.hypergraphs@.len() ==> (#[trigger] after.hypergraphs@[i]).graph.wf(),
        ensures
            after.wf(),
    {
        Self::lemma_bound_from_lookup(after.nodes@, before.nodes@, before.next_id);
        Self::lemma_bound_from_lookup(after.edges@, before.edges@, before.next_id);
        Self::lemma_bound_from_lookup(after.links@, before.links@, before.next_id);
        Self::lemma_bound_from_lookup(after.hypergraphs@, before.hypergraphs@, before.next_id);
        assert forall|id: usize|
            #![trigger slot_of(after.nodes@, id)]
            #![trigger slot_of(after.edges@, id)]
            #![trigger slot_of(after.links@, id)]
            #![trigger slot_of(after.hypergraphs@, id)]
            at_most_one(
                slot_of(after.nodes@, id) is Some,
                slot_of(after.edges@, id) is Some,
                slot_of(after.links@, id) is Some,
                slot_of(after.hypergraphs@, id) is Some,
            ) by {
            if id != before.next_id {
                assert(at_most_one(
                    slot_of(before.nodes@, id) is Some,
                    slot_of(before.edges@, id) is Some,
                    slot_of(before.links@, id) is Some,
                    slot_of(before.hypergraphs@, id) is Some,
                ));
            }
        }
    }

    /// A store whose items were all stored before, or have the old bound as
    /// local id, is bounded by the next number.
    pub(super) proof fn lemma_bound_from_lookup<S: Keyed>(now: Seq<S>, was: Seq<S>, b: usize)
        requires
            ascending(now),
            all_below(was, b),
            b < usize::MAX,
            forall|j: usize| #[trigger] slot_of(now, j) is Some ==> slot_of(was, j) is Some || j == b,
        ensures
            all_below(now, (b + 1) as usize),
    {
        assert forall|i: int| 0 <= i < now.len() implies (#[trigger] now[i]).key() < b + 1 by {
            let j = now[i].key();
            lemma_key_pos(now, i);
            assert(slot_of(now, j) is Some);
            if j != b {
                assert(was[key_pos(was, j)].key() < b);
            }
        }
    }
}

impl<N, E, H, L, Ty> Hypergraph<N, E, H, L, Ty> {
    /// `after` is `self` with another item, under the same local id, in place
    /// of a node at position `i`.
    pub(super) open spec fn node_replaced(self, after: Self, i: int) -> bool {
        &&& after.value == self.value
        &&& after.next_id == self.next_id
        &&& after.edges == self.edges
        &&& after.links == self.links
        &&& after.hypergraphs == self.hypergraphs
        &&& after.nodes@.len() == self.nodes@.len()
        &&& forall|j: int| 0 <= j < self.nodes@.len() && j != i ==> #[trigger] after.nodes@[j] == self.nodes@[j]
        &&& after.nodes@[i].id == self.nodes@[i].id
    }

    /// Replacing a stored item replaces its record in the model.
    pub(super) proof fn lemma_node_replaced(self, after: Self, i: int)
        requires
            self.wf(),
            0 <= i < self.nodes@.len(),
            self.node_replaced(after, i),
        ensures
            after.wf(),
            after@ == self@.insert(seq![self.nodes@[i].id], Self::node_record(after.nodes@[i])),
            after.size() == self.size(),
    {
        let k = self.nodes@[i].id;
        let y = after.nodes@[i];
        let expected = self@.insert(seq![k], Self::node_record(y));
        assert(after.nodes@ =~= self.nodes@.update(i, y));
        lemma_slot_update(self.nodes@, i, y);
        lemma_key_pos(self.nodes@, i);
        self.lemma_frame(after, k);
        assert(at_most_one(
            slot_of(self.nodes@, k) is Some,
            slot_of(self.edges@, k) is Some,
            slot_of(self.links@, k) is Some,
            slot_of(self.hypergraphs@, k) is Some,
        ));
        assert(after.wf()) by {
            assert forall|id: usize|
                #![trigger slot_of(after.nodes@, id)]
                #![trigger slot_of(after.edges@, id)]
                #![trigger slot_of(after.links@, id)]
                #![trigger slot_of(after.hypergraphs@, id)]
                at_most_one(
                    slot_of(after.nodes@, id) is Some,
                    slot_of(after.edges@, id) is Some,
                    slot_of(after.links@, id) is Some,
                    slot_of(after.hypergraphs@, id) is Some,
                ) by {
                assert(at_most_one(
                    slot_of(self.nodes@, id) is Some,
                    slot_of(self.edges@, id) is Some,
                    slot_of(self.links@, id) is Some,
                    slot_of(self.hypergraphs@, id) is Some,
                ));
            }
        }
        after.lemma_local(k);
        self.lemma_local(k);
        assert(seq![k][0] == k);
        assert(after@ =~= expected) by {
            assert forall|p: Seq<usize>|
                #![trigger after@.dom().contains(p)]
                #![trigger expected.dom().contains(p)]
                after@.dom().contains(p) == expected.dom().contains(p) && (after@.dom().contains(p)
                    ==> after@[p] == expected[p]) by {
                if p.len() == 0 {
                } else if p[0] == k {
                    if p.len() == 1 {
                        assert(p =~= seq![k]);
                        
                    } else {
                        assert(p != seq![k]);
                        
                    }
                } else {
                    assert(p != seq![k]);
                    
                }
            }
        }
    }

    /// `after` is `self` without a node at position `i`.
    pub(super) open spec fn node_taken(self, after: Self, i: int) -> bool {
        &&& after.value == self.value
        &&& after.next_id == self.next_id
        &&& after.edges == self.edges
        &&& after.links == self.links
        &&& after.hypergraphs == self.hypergraphs
        &&& after.nodes@ == self.nodes@.remove(i)
    }

    /// Taking a stored item out takes its record out of the model.
    pub(super) proof fn lemma_node_taken(self, after: Self, i: int)
        requires
            self.wf(),
            0 <= i < self.nodes@.len(),
            self.node_taken(after, i),
        ensures
            after.wf(),
            after@ == self@.remove(seq![self.nodes@[i].id]),
            after.size() + 1 == self.size(),
    {
        let k = self.nodes@[i].id;
        let expected = self@.remove(seq![k]);
        lemma_slot_remove(self.nodes@, i);
        lemma_key_pos(self.nodes@, i);
        self.lemma_frame(after, k);
        assert(at_most_one(
            slot_of(self.nodes@, k) is Some,
            slot_of(self.edges@, k) is Some,
            slot_of(self.links@, k) is Some,
            slot_of(self.hypergraphs@, k) is Some,
        ));
        assert(after.wf()) by {
            assert forall|id: usize|
                #![trigger slot_of(after.nodes@, id)]
                #![trigger slot_of(after.edges@, id)]
                #![trigger slot_of(after.links@, id)]
                #![trigger slot_of(after.hypergraphs@, id)]
                at_most_one(
                    slot_of(after.nodes@, id) is Some,
                    slot_of(after.edges@, id) is Some,
                    slot_of(after.links@, id) is Some,
                    slot_of(after.hypergraphs@, id) is Some,
                ) by {
                assert(at_most_one(
                    slot_of(self.nodes@, id) is Some,
                    slot_of(self.edges@, id) is Some,
                    slot_of(self.links@, id) is Some,
                    slot_of(self.hypergraphs@, id) is Some,
                ));
            }
        }
        after.lemma_local(k);
        self.lemma_local(k);
        assert(seq![k][0] == k);
        assert(after@ =~= expected) by {
            assert forall|p: Seq<usize>|
                #![trigger after@.dom().contains(p)]
                #![trigger expected.dom().contains(p)]
                after@.dom().contains(p) == expected.dom().contains(p) && (after@.dom().contains(p)
                    ==> after@[p] == expected[p]) by {
                if p.len() == 0 {
                } else if p[0] == k {
                    if p.len() == 1 {
                        assert(p =~= seq![k]);
                        
                    } else {
                        assert(p != seq![k]);
                        
                    }
                } else {
                    assert(p != seq![k]);
                    
                }
            }
        }
    }

    /// `after` is `self` with another item, under the same local id, in place
    /// of a hyperedge at position `i`.
    pub(super) open spec fn edge_replaced(self, after: Self, i: int) -> bool {
        &&& after.value == self.value
        &&& after.next_id == self.next_id
        &&& after.nodes == self.nodes
        &&& after.links == self.links
        &&& after.hypergraphs == self.hypergraphs
        &&& after.edges@.len() == self.edges@.len()
        &&& forall|j: int| 0 <= j < self.edges@.len() && j != i ==> #[trigger] after.edges@[j] == self.edges@[j]
        &&& after.edges@[i].id == self.edges@[i].id
    }

    /// Replacing a stored item replaces its record in the model.
    pub(super) proof fn lemma_edge_replaced(self, after: Self, i: int)
        requires
            self.wf(),
            0 <= i < self.edges@.len(),
            self.edge_replaced(after, i),
        ensures
            after.wf(),
            after@ == self@.insert(seq![self.edges@[i].id], Self::edge_record(after.edges@[i])),
            after.size() == self.size(),
    {
        let k = self.edges@[i].id;
        let y = after.edges@[i];
        let expected = self@.insert(seq![k], Self::edge_record(y));
        assert(after.edges@ =~= self.edges@.update(i, y));
        lemma_slot_update(self.edges@, i, y);
        lemma_key_pos(self.edges@, i);
        self.lemma_frame(after, k);
        assert(at_most_one(
            slot_of(self.nodes@, k) is Some,
            slot_of(self.edges@, k) is Some,
            slot_of(self.links@, k) is Some,
            slot_of(self.hypergraphs@, k) is Some,
        ));
        assert(after.wf()) by {
            assert forall|id: usize|
                #![trigger slot_of(after.nodes@, id)]
                #![trigger slot_of(after.edges@, id)]
                #![trigger slot_of(after.links@, id)]
                #![trigger slot_of(after.hypergraphs@, id)]
                at_most_one(
                    slot_of(after.nodes@, id) is Some,
                    slot_of(after.edges@, id) is Some,
                    slot_of(after.links@, id) is Some,
                    slot_of(after.hypergraphs@, id) is Some,
                ) by {
                assert(at_most_one(
                    slot_of(self.nodes@, id) is Some,
                    slot_of(self.edges@, id) is Some,
                    slot_of(self.links@, id) is Some,
                    slot_of(self.hypergraphs@, id) is Some,
                ));
            }
        }
        after.lemma_local(k);
        self.lemma_local(k);
        assert(seq![k][0] == k);
        assert(after@ =~= expected) by {
            assert forall|p: Seq<usize>|
                #![trigger after@.dom().contains(p)]
                #![trigger expected.dom().contains(p)]
                after@.dom().contains(p) == expected.dom().contains(p) && (after@.dom().contains(p)
                    ==> after@[p] == expected[p]) by {
                if p.len() == 0 {
                } else if p[0] == k {
                    if p.len() == 1 {
                        assert(p =~= seq![k]);
                        
                    } else {
                        assert(p != seq![k]);
                        
                    }
                } else {
                    assert(p != seq![k]);
                    
                }
            }
        }
    }

    /// `after` is `self` without a hyperedge at position `i`.
    pub(super) open spec fn edge_taken(self, after: Self, i: int) -> bool {
        &&& after.value == self.value
        &&& after.next_id == self.next_id
        &&& after.nodes == self.nodes
        &&& after.links == self.links
        &&& after.hypergraphs == self.hypergraphs
        &&& after.edges@ == self.edges@.remove(i)
    }

    /// Taking a stored item out takes its record out of the model.
    pub(super) proof fn lemma_edge_taken(self, after: Self, i: int)
        requires
            self.wf(),
            0 <= i < self.edges@.len(),
            self.edge_taken(after, i),
        ensures
            after.wf(),
            after@ == self@.remove(seq![self.edges@[i].id]),
            after.size() + 1 == self.size(),
    {
        let k = self.edges@[i].id;
        let expected = self@.remove(seq![k]);
        lemma_slot_remove(self.edges@, i);
        lemma_key_pos(self.edges@, i);
        self.lemma_frame(after, k);
        assert(at_most_one(
            slot_of(self.nodes@, k) is Some,
            slot_of(self.edges@, k) is Some,
            slot_of(self.links@, k) is Some,
            slot_of(self.hypergraphs@, k) is Some,
        ));
        assert(after.wf()) by {
            assert forall|id: usize|
                #![trigger slot_of(after.nodes@, id)]
                #![trigger slot_of(after.edges@, id)]
                #![trigger slot_of(after.links@, id)]
                #![trigger slot_of(after.hypergraphs@, id)]
                at_most_one(
                    slot_of(after.nodes@, id) is Some,
                    slot_of(after.edges@, id) is Some,
                    slot_of(after.links@, id) is Some,
                    slot_of(after.hypergraphs@, id) is Some,
                ) by {
                assert(at_most_one(
                    slot_of(self.nodes@, id) is Some,
                    slot_of(self.edges@, id) is Some,
                    slot_of(self.links@, id) is Some,
                    slot_of(self.hypergraphs@, id) is Some,
                ));
            }
        }
        after.lemma_local(k);
        self.lemma_local(k);
        assert(seq![k][0] == k);
        assert(after@ =~= expected) by {
            assert forall|p: Seq<usize>|
                #![trigger after@.dom().contains(p)]
                #![trigger expected.dom().contains(p)]
                after@.dom().contains(p) == expected.dom().contains(p) && (after@.dom().contains(p)
                    ==> after@[p] == expected[p]) by {
                if p.len() == 0 {
                } else if p[0] == k {
                    if p.len() == 1 {
                        assert(p =~= seq![k]);
                        
                    } else {
                        assert(p != seq![k]);
                        
                    }
                } else {
                    assert(p != seq![k]);
                    
                }
            }
        }
    }

    /// `after` is `self` with another item, under the same local id, in place
    /// of a link at position `i`.
    pub(super) open spec fn link_replaced(self, after: Self, i: int) -> bool {
        &&& after.value == self.value
        &&& after.next_id == self.next_id
        &&& after.nodes == self.nodes
        &&& after.edges == self.edges
        &&& after.hypergraphs == self.hypergraphs
        &&& after.links@.len() == self.links@.len()
        &&& forall|j: int| 0 <= j < self.links@.len() && j != i ==> #[trigger] after.links@[j] == self.links@[j]
        &&& after.links@[i].id == self.links@[i].id
    }

    /// Replacing a stored item replaces its record in the model.
    pub(super) proof fn lemma_link_replaced(self, after: Self, i: int)
        requires
            self.wf(),
            0 <= i < self.links@.len(),
            self.link_replaced(after, i),
        ensures
            after.wf(),
            after@ == self@.insert(seq![self.links@[i].id], Self::link_record(after.links@[i])),
            after.size() == self.size(),
    {
        let k = self.links@[i].id;
        let y = after.links@[i];
        let expected = self@.insert(seq![k], Self::link_record(y));
        assert(after.links@ =~= self.links@.update(i, y));
        lemma_slot_update(self.links@, i, y);
        lemma_key_pos(self.links@, i);
        self.lemma_frame(after, k);
        assert(at_most_one(
            slot_of(self.nodes@, k) is Some,
            slot_of(self.edges@, k) is Some,
            slot_of(self.links@, k) is Some,
            slot_of(self.hypergraphs@, k) is Some,
        ));
        assert(after.wf()) by {
            assert forall|id: usize|
                #![trigger slot_of(after.nodes@, id)]
                #![trigger slot_of(after.edges@, id)]
                #![trigger slot_of(after.links@, id)]
                #![trigger slot_of(after.hypergraphs@, id)]
                at_most_one(
                    slot_of(after.nodes@, id) is Some,
                    slot_of(after.edges@, id) is Some,
                    slot_of(after.links@, id) is Some,
                    slot_of(after.hypergraphs@, id) is Some,
                ) by {
                assert(at_most_one(
                    slot_of(self.nodes@, id) is Some,
                    slot_of(self.edges@, id) is Some,
                    slot_of(self.links@, id) is Some,
                    slot_of(self.hypergraphs@, id) is Some,
                ));
            }
        }
        after.lemma_local(k);
        self.lemma_local(k);
        assert(seq![k][0] == k);
        assert(after@ =~= expected) by {
            assert forall|p: Seq<usize>|
                #![trigger after@.dom().contains(p)]
                #![trigger expected.dom().contains(p)]
                after@.dom().contains(p) == expected.dom().contains(p) && (after@.dom().contains(p)
                    ==> after@[p] == expected[p]) by {
                if p.len() == 0 {
                } else if p[0] == k {
                    if p.len() == 1 {
                        assert(p =~= seq![k]);
                        
                    } else {
                        assert(p != seq![k]);
                        
                    }
                } else {
                    assert(p != seq![k]);
                    
                }
            }
        }
    }

    /// `after` is `self` without a link at position `i`.
    pub(super) open spec fn link_taken(self, after: Self, i: int) -> bool {
        &&& after.value == self.value
        &&& after.next_id == self.next_id
        &&& after.nodes == self.nodes
        &&& after.edges == self.edges
        &&& after.hypergraphs == self.hypergraphs
        &&& after.links@ == self.links@.remove(i)
    }

    /// Taking a stored item out takes its record out of the model.
    pub(super) proof fn lemma_link_taken(self, after: Self, i: int)
        requires
            self.wf(),
            0 <= i < self.links@.len(),
            self.link_taken(after, i),
        ensures
            after.wf(),
            after@ == self@.remove(seq![self.links@[i].id]),
            after.size() + 1 == self.size(),
    {
        let k = self.links@[i].id;
        let expected = self@.remove(seq![k]);
        lemma_slot_remove(self.links@, i);
        lemma_key_pos(self.links@, i);
        self.lemma_frame(after, k);
        assert(at_most_one(
            slot_of(self.nodes@, k) is Some,
            slot_of(self.edges@, k) is Some,
            slot_of(self.links@, k) is Some,
            slot_of(self.hypergraphs@, k) is Some,
        ));
        assert(after.wf()) by {
            assert forall|id: usize|
                #![trigger slot_of(after.nodes@, id)]
                #![trigger slot_of(after.edges@, id)]
                #![trigger slot_of(after.links@, id)]
                #![trigger slot_of(after.hypergraphs@, id)]
                at_most_one(
                    slot_of(after.nodes@, id) is Some,
                    slot_of(after.edges@, id) is Some,
                    slot_of(after.links@, id) is Some,
                    slot_of(after.hypergraphs@, id) is Some,
                ) by {
                assert(at_most_one(
                    slot_of(self.nodes@, id) is Some,
                    slot_of(self.edges@, id) is Some,
                    slot_of(self.links@, id) is Some,
                    slot_of(self.hypergraphs@, id) is Some,
                ));
            }
        }
        after.lemma_local(k);
        self.lemma_local(k);
        assert(seq![k][0] == k);
        assert(after@ =~= expected) by {
            assert forall|p: Seq<usize>|
                #![trigger after@.dom().contains(p)]
                #![trigger expected.dom().contains(p)]
                after@.dom().contains(p) == expected.dom().contains(p) && (after@.dom().contains(p)
                    ==> after@[p] == expected[p]) by {
                if p.len() == 0 {
                } else if p[0] == k {
                    if p.len() == 1 {
                        assert(p =~= seq![k]);
                        
                    } else {
                        assert(p != seq![k]);
                        
                    }
                } else {
                    assert(p != seq![k]);
                    
                }
            }
        }
    }

    /// `after` is `self` with another item, under the same local id, in place
    /// of a nested hypergraph at position `i`.
    pub(super) open spec fn graph_replaced(self, after: Self, i: int) -> bool {
        &&& after.value == self.value
        &&& after.next_id == self.next_id
        &&& after.nodes == self.nodes
        &&& after.edges == self.edges
        &&& after.links == self.links
        &&& after.hypergraphs@.len() == self.hypergraphs@.len()
        &&& forall|j: int|
            0 <= j < self.hypergraphs@.len() && j != i ==> #[trigger] after.hypergraphs@[j]
                == self.hypergraphs@[j]
        &&& after.hypergraphs@[i].id == self.hypergraphs@[i].id
        &&& after.hypergraphs@[i].graph == self.hypergraphs@[i].graph
    }

    /// Replacing a stored item replaces its record in the model.
    pub(super) proof fn lemma_graph_replaced(self, after: Self, i: int)
        requires
            self.wf(),
            0 <= i < self.hypergraphs@.len(),
            self.graph_replaced(after, i),
        ensures
            after.wf(),
            after@ == self@.insert(seq![self.hypergraphs@[i].id], Self::graph_record(after.hypergraphs@[i])),
            after.size() == self.size(),
    {
        Self::lemma_nested_size_update(self.hypergraphs@, i, after.hypergraphs@[i]);
        assert(after.hypergraphs@ =~= self.hypergraphs@.update(i, after.hypergraphs@[i]));
        let k = self.hypergraphs@[i].id;
        let y = after.hypergraphs@[i];
        let expected = self@.insert(seq![k], Self::graph_record(y));
        assert(after.hypergraphs@ =~= self.hypergraphs@.update(i, y));
        lemma_slot_update(self.hypergraphs@, i, y);
        lemma_key_pos(self.hypergraphs@, i);
        self.lemma_frame(after, k);
        assert(at_most_one(
            slot_of(self.nodes@, k) is Some,
            slot_of(self.edges@, k) is Some,
            slot_of(self.links@, k) is Some,
            slot_of(self.hypergraphs@, k) is Some,
        ));
        assert(after.wf()) by {
            assert forall|id: usize|
                #![trigger slot_of(after.nodes@, id)]
                #![trigger slot_of(after.edges@, id)]
                #![trigger slot_of(after.links@, id)]
                #![trigger slot_of(after.hypergraphs@, id)]
                at_most_one(
                    slot_of(after.nodes@, id) is Some,
                    slot_of(after.edges@, id) is Some,
                    slot_of(after.links@, id) is Some,
                    slot_of(after.hypergraphs@, id) is Some,
                ) by {
                assert(at_most_one(
                    slot_of(self.nodes@, id) is Some,
                    slot_of(self.edges@, id) is Some,
                    slot_of(self.links@, id) is Some,
                    slot_of(self.hypergraphs@, id) is Some,
                ));
            }
            assert forall|j: int| 0 <= j < after.hypergraphs@.len() implies (
            #[trigger] after.hypergraphs@[j]).graph.wf() by {
                assert(self.hypergraphs@[j].graph.wf());
            }
        }
        after.lemma_local(k);
        self.lemma_local(k);
        assert(seq![k][0] == k);
        assert(after@ =~= expected) by {
            assert forall|p: Seq<usize>|
                #![trigger after@.dom().contains(p)]
                #![trigger expected.dom().contains(p)]
                after@.dom().contains(p) == expected.dom().contains(p) && (after@.dom().contains(p)
                    ==> after@[p] == expected[p]) by {
                if p.len() == 0 {
                } else if p[0] == k {
                    if p.len() == 1 {
                        assert(p =~= seq![k]);
                        
                    } else {
                        assert(p != seq![k]);
                        
                    }
                } else {
                    assert(p != seq![k]);
                    
                }
            }
        }
    }

    /// `after` is `self` without a nested hypergraph at position `i`.
    pub(super) open spec fn graph_taken(self, after: Self, i: int) -> bool {
        &&& after.value == self.value
        &&& after.next_id == self.next_id
        &&& after.nodes == self.nodes
        &&& after.edges == self.edges
        &&& after.links == self.links
        &&& after.hypergraphs@ == self.hypergraphs@.remove(i)
    }

    /// Taking a stored item out takes its record out of the model.
    pub(super) proof fn lemma_graph_taken(self, after: Self, i: int)
        requires
            self.wf(),
            0 <= i < self.hypergraphs@.len(),
            self.graph_taken(after, i),
        ensures
            after.wf(),
            after@ == prune(self@, seq![self.hypergraphs@[i].id]),
            after.size() + 1 + self.hypergraphs@[i].graph.size() == self.size(),
    {
        Self::lemma_nested_size_remove(self.hypergraphs@, i);
        let k = self.hypergraphs@[i].id;
        let expected = prune(self@, seq![k]);
        lemma_slot_remove(self.hypergraphs@, i);
        lemma_key_pos(self.hypergraphs@, i);
        self.lemma_frame(after, k);
        assert(at_most_one(
            slot_of(self.nodes@, k) is Some,
            slot_of(self.edges@, k) is Some,
            slot_of(self.links@, k) is Some,
            slot_of(self.hypergraphs@, k) is Some,
        ));
        assert(after.wf()) by {
            assert forall|id: usize|
                #![trigger slot_of(after.nodes@, id)]
                #![trigger slot_of(after.edges@, id)]
                #![trigger slot_of(after.links@, id)]
                #![trigger slot_of(after.hypergraphs@, id)]
                at_most_one(
                    slot_of(after.nodes@, id) is Some,
                    slot_of(after.edges@, id) is Some,
                    slot_of(after.links@, id) is Some,
                    slot_of(after.hypergraphs@, id) is Some,
                ) by {
                assert(at_most_one(
                    slot_of(self.nodes@, id) is Some,
                    slot_of(self.edges@, id) is Some,
                    slot_of(self.links@, id) is Some,
                    slot_of(self.hypergraphs@, id) is Some,
                ));
            }
            assert forall|j: int| 0 <= j < after.hypergraphs@.len() implies (
            #[trigger] after.hypergraphs@[j]).graph.wf() by {
                let j0 = if j < i { j } else { j + 1 };
                assert(self.hypergraphs@[j0].graph.wf());
            }
        }
        after.lemma_local(k);
        self.lemma_local(k);
        assert(seq![k][0] == k);
        assert(after@ =~= expected) by {
            assert forall|p: Seq<usize>|
                #![trigger after@.dom().contains(p)]
                #![trigger expected.dom().contains(p)]
                after@.dom().contains(p) == expected.dom().contains(p) && (after@.dom().contains(p)
                    ==> after@[p] == expected[p]) by {
                if p.len() == 0 {
                } else if p[0] == k {
                    if p.len() == 1 {
                        assert(p =~= seq![k]);
                        assert(p.take(1) =~= p);
                    } else {
                        assert(p != seq![k]);
                        assert(p.take(1) =~= seq![k]);
                    }
                } else {
                    assert(p != seq![k]);
                    assert(p.take(1)[0] == p[0]);
                }
            }
        }
    }

}

impl<N, E, H, L, Ty> Hypergraph<N, E, H, L, Ty> {
    /// Returns the kind of the element with local id `id`, if there is one.
    pub(crate) fn local_kind(&self, id: usize) -> (r: Option<ElementType>)
        requires
            self.wf(),
        ensures
            r == (if self@.dom().contains(seq![id]) {
                Some(self@[seq![id]].kind())
            } else {
                None
            }),
    {
        proof {
            self.lemma_local(id);
        }
        if position(&self.edges, id).is_some() {
            proof {
            assert(at_most_one(
                slot_of(self.nodes@, id) is Some,
                slot_of(self.edges@, id) is Some,
                slot_of(self.links@, id) is Some,
                slot_of(self.hypergraphs@, id) is Some,
            ));
            }
            Some(ElementType::Edge)
        } else if position(&self.hypergraphs, id).is_some() {
            proof {
            assert(at_most_one(
                slot_of(self.nodes@, id) is Some,
                slot_of(self.edges@, id) is Some,
                slot_of(self.links@, id) is Some,
                slot_of(self.hypergraphs@, id) is Some,
            ));
            }
            Some(ElementType::Hypergraph)
        } else if position(&self.links, id).is_some() {
            proof {
            assert(at_most_one(
                slot_of(self.nodes@, id) is Some,
                slot_of(self.edges@, id) is Some,
                slot_of(self.links@, id) is Some,
                slot_of(self.hypergraphs@, id) is Some,
            ));
            }
            Some(ElementType::Link)
        } else if position(&self.nodes, id).is_some() {
            Some(ElementType::Node)
        } else {
            None
        }
    }

    /// Returns the stored node with local id `id`.
    pub(crate) fn local_node(&self, id: usize) -> (r: Option<&NodeSlot<N>>)
        requires
            self.wf(),
        ensures
            match r {
                Some(s) => self@.dom().contains(seq![id]) && self@[seq![id]] == (Record::<N, E, H, L>::Node {
                    value: s.value,
                    links: links_view(s.links@),
                }) && s.id == id,
                None => !(self@.dom().contains(seq![id]) && self@[seq![id]] is Node),
            },
    {
        proof {
            self.lemma_local(id);
        }
        match position(&self.nodes, id) {
            Some(i) => Some(&self.nodes[i]),
            None => None,
        }
    }

    /// Returns the stored hyperedge with local id `id`.
    pub(crate) fn local_edge(&self, id: usize) -> (r: Option<&EdgeSlot<E>>)
        requires
            self.wf(),
        ensures
            match r {
                Some(s) => self@.dom().contains(seq![id]) && self@[seq![id]] == (Record::<N, E, H, L>::Edge {
                    value: s.value,
                    links: links_view(s.links@),
                }) && s.id == id,
                None => !(self@.dom().contains(seq![id]) && self@[seq![id]] is Edge),
            },
    {
        proof {
            self.lemma_local(id);
            assert(at_most_one(
                slot_of(self.nodes@, id) is Some,
                slot_of(self.edges@, id) is Some,
                slot_of(self.links@, id) is Some,
                slot_of(self.hypergraphs@, id) is Some,
            ));
        }
        match position(&self.edges, id) {
            Some(i) => Some(&self.edges[i]),
            None => None,
        }
    }

    /// Returns the stored link with local id `id`.
    pub(crate) fn local_link(&self, id: usize) -> (r: Option<&LinkSlot<L>>)
        requires
            self.wf(),
        ensures
            match r {
                Some(s) => self@.dom().contains(seq![id]) && self@[seq![id]] == (Record::<N, E, H, L>::Link {
                    value: s.value,
                    source: s.source@,
                    target: s.target@,
                }) && s.id == id,
                None => !(self@.dom().contains(seq![id]) && self@[seq![id]] is Link),
            },
    {
        proof {
            self.lemma_local(id);
            assert(at_most_one(
                slot_of(self.nodes@, id) is Some,
                slot_of(self.edges@, id) is Some,
                slot_of(self.links@, id) is Some,
                slot_of(self.hypergraphs@, id) is Some,
            ));
        }
        match position(&self.links, id) {
            Some(i) => Some(&self.links[i]),
            None => None,
        }
    }

    /// Returns the stored nested hypergraph with local id `id`.
    pub(crate) fn local_graph(&self, id: usize) -> (r: Option<&GraphSlot<N, E, H, L>>)
        requires
            self.wf(),
        ensures
            match r {
                Some(s) => {
                    &&& self@.dom().contains(seq![id])
                    &&& self@[seq![id]] is Graph
                    &&& self@[seq![id]].adjacency() == links_view(s.links@)
                    &&& s.graph.wf()
                    &&& s.graph@ == subview(self@, seq![id])
                    &&& s.id == id
                },
                None => !(self@.dom().contains(seq![id]) && self@[seq![id]] is Graph),
            },
            r matches Some(s) ==> s.graph.size() < self.size(),
    {
        proof {
            self.lemma_local(id);
            assert(at_most_one(
                slot_of(self.nodes@, id) is Some,
                slot_of(self.edges@, id) is Some,
                slot_of(self.links@, id) is Some,
                slot_of(self.hypergraphs@, id) is Some,
            ));
        }
        match position(&self.hypergraphs, id) {
            Some(i) => {
                proof {
                    self.lemma_subview_child(i as int);
                    Self::lemma_nested_size_update(self.hypergraphs@, i as int, self.hypergraphs@[i as int]);
                }
                Some(&self.hypergraphs[i])
            },
            None => None,
        }
    }

    /// Appends an entry to the adjacency list of the element with local id
    /// `id`.
    pub(crate) fn add_local_neighbor(&mut self, id: usize, entry: (Vec<usize>, Direction))
        requires
            old(self).wf(),
            old(self)@.dom().contains(seq![id]),
            old(self)@[seq![id]].linkable(),
        ensures
            final(self).wf(),
            final(self)@ == old(self)@.insert(
                seq![id],
                old(self)@[seq![id]].with_adjacency(old(self)@[seq![id]].adjacency().push((entry.0@, entry.1))),
            ),
            final(self).size() == old(self).size(),
    {
        let ghost before = *self;
        proof {
            self.lemma_local(id);
            assert(at_most_one(
                slot_of(self.nodes@, id) is Some,
                slot_of(self.edges@, id) is Some,
                slot_of(self.links@, id) is Some,
                slot_of(self.hypergraphs@, id) is Some,
            ));
        }
        if let Some(i) = position(&self.nodes, id) {
            proof {
                lemma_links_view_push(self.nodes@[i as int].links@, entry);
            }
            self.nodes[i].links.push(entry);
            proof {
                before.lemma_node_replaced(*self, i as int);
            }
        } else if let Some(i) = position(&self.edges, id) {
            proof {
                lemma_links_view_push(self.edges@[i as int].links@, entry);
            }
            self.edges[i].links.push(entry);
            proof {
                before.lemma_edge_replaced(*self, i as int);
            }
        } else {
            let found = position(&self.hypergraphs, id);
            let i = found.unwrap();
            proof {
                lemma_links_view_push(self.hypergraphs@[i as int].links@, entry);
            }
            self.hypergraphs[i].links.push(entry);
            proof {
                before.lemma_graph_replaced(*self, i as int);
            }
        }
    }

    /// Takes every entry that names the link `link` out of the adjacency list
    /// of the element with local id `id`.
    pub(crate) fn remove_local_neighbor(&mut self, id: usize, link: &[usize])
        requires
            old(self).wf(),
            old(self)@.dom().contains(seq![id]),
            old(self)@[seq![id]].linkable(),
        ensures
            final(self).wf(),
            final(self)@ == old(self)@.insert(
                seq![id],
                old(self)@[seq![id]].with_adjacency(strip(old(self)@[seq![id]].adjacency(), set![link@])),
            ),
            final(self).size() == old(self).size(),
    {
        let ghost before = *self;
        proof {
            self.lemma_local(id);
            assert(at_most_one(
                slot_of(self.nodes@, id) is Some,
                slot_of(self.edges@, id) is Some,
                slot_of(self.links@, id) is Some,
                slot_of(self.hypergraphs@, id) is Some,
            ));
        }
        if let Some(i) = position(&self.nodes, id) {
            drop_link(&mut self.nodes[i].links, link);
            proof {
                before.lemma_node_replaced(*self, i as int);
            }
        } else if let Some(i) = position(&self.edges, id) {
            drop_link(&mut self.edges[i].links, link);
            proof {
                before.lemma_edge_replaced(*self, i as int);
            }
        } else {
            let found = position(&self.hypergraphs, id);
            let i = found.unwrap();
            drop_link(&mut self.hypergraphs[i].links, link);
            proof {
                before.lemma_graph_replaced(*self, i as int);
            }
        }
    }

    /// Takes the node with local id `id` out of the hypergraph.
    pub(crate) fn take_local_node(&mut self, id: usize) -> (r: NodeSlot<N>)
        requires
            old(self).wf(),
            old(self)@.dom().contains(seq![id]),
            old(self)@[seq![id]] is Node,
        ensures
            final(self).wf(),
            final(self)@ == old(self)@.remove(seq![id]),
            old(self)@[seq![id]] == (Record::<N, E, H, L>::Node { value: r.value, links: links_view(r.links@) }),
            final(self).size() + 1 == old(self).size(),
    {
        let ghost before = *self;
        proof {
            self.lemma_local(id);
        }
        let found = position(&self.nodes, id);
        let i = found.unwrap();
        let r = self.nodes.remove(i);
        proof {
            before.lemma_node_taken(*self, i as int);
        }
        r
    }

    /// Takes the hyperedge with local id `id` out of the hypergraph.
    pub(crate) fn take_local_edge(&mut self, id: usize) -> (r: EdgeSlot<E>)
        requires
            old(self).wf(),
            old(self)@.dom().contains(seq![id]),
            old(self)@[seq![id]] is Edge,
        ensures
            final(self).wf(),
            final(self)@ == old(self)@.remove(seq![id]),
            old(self)@[seq![id]] == (Record::<N, E, H, L>::Edge { value: r.value, links: links_view(r.links@) }),
            final(self).size() + 1 == old(self).size(),
    {
        let ghost before = *self;
        proof {
            self.lemma_local(id);
            assert(at_most_one(
                slot_of(self.nodes@, id) is Some,
                slot_of(self.edges@, id) is Some,
                slot_of(self.links@, id) is Some,
                slot_of(self.hypergraphs@, id) is Some,
            ));
        }
        let found = position(&self.edges, id);
        let i = found.unwrap();
        let r = self.edges.remove(i);
        proof {
            before.lemma_edge_taken(*self, i as int);
        }
        r
    }

    /// Takes the link with local id `id` out of the hypergraph.
    pub(crate) fn take_local_link(&mut self, id: usize) -> (r: LinkSlot<L>)
        requires
            old(self).wf(),
            old(self)@.dom().contains(seq![id]),
            old(self)@[seq![id]] is Link,
        ensures
            final(self).wf(),
            final(self)@ == old(self)@.remove(seq![id]),
            old(self)@[seq![id]] == (Record::<N, E, H, L>::Link {
                value: r.value,
                source: r.source@,
                target: r.target@,
            }),
            final(self).size() + 1 == old(self).size(),
    {
        let ghost before = *self;
        proof {
            self.lemma_local(id);
            assert(at_most_one(
                slot_of(self.nodes@, id) is Some,
                slot_of(self.edges@, id) is Some,
                slot_of(self.links@, id) is Some,
                slot_of(self.hypergraphs@, id) is Some,
            ));
        }
        let found = position(&self.links, id);
        let i = found.unwrap();
        let r = self.links.remove(i);
        proof {
            before.lemma_link_taken(*self, i as int);
        }
        r
    }

    /// Takes the nested hypergraph with local id `id`, and with it all that
    /// it holds, out of the hypergraph.
    pub(crate) fn take_local_graph(&mut self, id: usize) -> (r: GraphSlot<N, E, H, L>)
        requires
            old(self).wf(),
            old(self)@.dom().contains(seq![id]),
            old(self)@[seq![id]] is Graph,
        ensures
            final(self).wf(),
            final(self)@ == prune(old(self)@, seq![id]),
            r.graph.wf(),
            r.graph@ == subview(old(self)@, seq![id]),
            old(self)@[seq![id]].adjacency() == links_view(r.links@),
            final(self).size() + 1 + r.graph.size() == old(self).size(),
    {
        let ghost before = *self;
        proof {
            self.lemma_local(id);
            assert(at_most_one(
                slot_of(self.nodes@, id) is Some,
                slot_of(self.edges@, id) is Some,
                slot_of(self.links@, id) is Some,
                slot_of(self.hypergraphs@, id) is Some,
            ));
        }
        let found = position(&self.hypergraphs, id);
        let i = found.unwrap();
        proof {
            self.lemma_subview_child(i as int);
        }
        let r = self.hypergraphs.remove(i);
        proof {
            before.lemma_graph_taken(*self, i as int);
        }
        r
    }
}

impl<N, E, H, L, Ty> Hypergraph<N, E, H, L, Ty> {
    /// The smaller of two optional local ids; nothing counts as larger than
    /// everything.
    pub(super) fn earlier(a: Option<usize>, b: Option<usize>) -> (r: Option<usize>)
        ensures
            r == match (a, b) {
                (Some(x), Some(y)) => Some(if x <= y {
                    x
                } else {
                    y
                }),
                (Some(x), None) => Some(x),
                (None, y) => y,
            },
    {
        match (a, b) {
            (Some(x), Some(y)) => Some(if x <= y {
                x
            } else {
                y
            }),
            (Some(x), None) => Some(x),
            (None, y) => y,
        }
    }

    /// Returns the smallest local id in use that is at least `from`.
    pub(crate) fn local_next(&self, from: usize) -> (r: Option<usize>)
        requires
            self.wf(),
        ensures
            match r {
                Some(k) => k >= from && self@.dom().contains(seq![k]) && forall|j: usize|
                    from <= j < k ==> !self@.dom().contains(#[trigger] seq![j]),
                None => forall|j: usize| from <= j ==> !self@.dom().contains(#[trigger] seq![j]),
            },
    {
        let a = first_from(&self.nodes, from);
        let b = first_from(&self.edges, from);
        let c = first_from(&self.links, from);
        let d = first_from(&self.hypergraphs, from);
        let r = Self::earlier(Self::earlier(a, b), Self::earlier(c, d));
        proof {
            assert forall|j: usize| #![trigger seq![j]] self@.dom().contains(seq![j]) == (self.local(j) is Some) by {
                self.lemma_local(j);
            }
            match r {
                Some(k) => {
                    assert forall|j: usize| from <= j < k implies !self@.dom().contains(#[trigger] seq![j]) by {
                        assert(slot_of(self.nodes@, j) is None);
                        assert(slot_of(self.edges@, j) is None);
                        assert(slot_of(self.links@, j) is None);
                        assert(slot_of(self.hypergraphs@, j) is None);
                    }
                },
                None => {
                    assert forall|j: usize| from <= j implies !self@.dom().contains(#[trigger] seq![j]) by {
                        assert(slot_of(self.nodes@, j) is None);
                        assert(slot_of(self.edges@, j) is None);
                        assert(slot_of(self.links@, j) is None);
                        assert(slot_of(self.hypergraphs@, j) is None);
                    }
                },
            }
        }
        r
    }
}

impl<N, E, H, L, Ty> Hypergraph<N, E, H, L, Ty> {
    /// Gives mutable access to the payload of the node with local id `id`.
    pub(crate) fn local_node_value_mut(&mut self, id: usize) -> (r: &mut N)
        requires
            old(self).wf(),
            old(self)@.dom().contains(seq![id]),
            old(self)@[seq![id]] is Node,
        ensures
            *r == old(self)@[seq![id]].node_value(),
            final(self).wf(),
            final(self).size() == old(self).size(),
            final(self)@ == old(self)@.insert(
                seq![id],
                Record::Node { value: *final(r), links: old(self)@[seq![id]].adjacency() },
            ),
    {
        let ghost before = *self;
        proof {
            self.lemma_local(id);
            assert(at_most_one(
                slot_of(self.nodes@, id) is Some,
                slot_of(self.edges@, id) is Some,
                slot_of(self.links@, id) is Some,
                slot_of(self.hypergraphs@, id) is Some,
            ));
        }
        let found = position(&self.nodes, id);
        let i = found.unwrap();
        proof {
            assert forall|after: Self| before.node_replaced(after, i as int) implies (#[trigger] after@)
                == before@.insert(seq![id], Self::node_record(after.nodes@[i as int])) && after.wf() && after.size()
                == before.size() by {
                before.lemma_node_replaced(after, i as int);
            }
        }
        &mut self.nodes[i].value
    }

    /// Gives mutable access to the payload of the hyperedge with local id `id`.
    pub(crate) fn local_edge_value_mut(&mut self, id: usize) -> (r: &mut E)
        requires
            old(self).wf(),
            old(self)@.dom().contains(seq![id]),
            old(self)@[seq![id]] is Edge,
        ensures
            *r == old(self)@[seq![id]].edge_value(),
            final(self).wf(),
            final(self).size() == old(self).size(),
            final(self)@ == old(self)@.insert(
                seq![id],
                Record::Edge { value: *final(r), links: old(self)@[seq![id]].adjacency() },
            ),
    {
        let ghost before = *self;
        proof {
            self.lemma_local(id);
            assert(at_most_one(
                slot_of(self.nodes@, id) is Some,
                slot_of(self.edges@, id) is Some,
                slot_of(self.links@, id) is Some,
                slot_of(self.hypergraphs@, id) is Some,
            ));
        }
        let found = position(&self.edges, id);
        let i = found.unwrap();
        proof {
            assert forall|after: Self| before.edge_replaced(after, i as int) implies (#[trigger] after@)
                == before@.insert(seq![id], Self::edge_record(after.edges@[i as int])) && after.wf() && after.size()
                == before.size() by {
                before.lemma_edge_replaced(after, i as int);
            }
        }
        &mut self.edges[i].value
    }

    /// Gives mutable access to the payload of the link with local id `id`.
    pub(crate) fn local_link_value_mut(&mut self, id: usize) -> (r: &mut Option<L>)
        requires
            old(self).wf(),
            old(self)@.dom().contains(seq![id]),
            old(self)@[seq![id]] is Link,
        ensures
            *r == old(self)@[seq![id]].link_value(),
            final(self).wf(),
            final(self).size() == old(self).size(),
            final(self)@ == old(self)@.insert(seq![id], (Record::<N, E, H, L>::Link {
                value: *final(r),
                source: old(self)@[seq![id]].source(),
                target: old(self)@[seq![id]].target(),
            })),
    {
        let ghost before = *self;
        proof {
            self.lemma_local(id);
            assert(at_most_one(
                slot_of(self.nodes@, id) is Some,
                slot_of(self.edges@, id) is Some,
                slot_of(self.links@, id) is Some,
                slot_of(self.hypergraphs@, id) is Some,
            ));
        }
        let found = position(&self.links, id);
        let i = found.unwrap();
        proof {
            assert forall|after: Self| before.link_replaced(after, i as int) implies (#[trigger] after@)
                == before@.insert(seq![id], Self::link_record(after.links@[i as int])) && after.wf() && after.size()
                == before.size() by {
                before.lemma_link_replaced(after, i as int);
            }
        }
        &mut self.links[i].value
    }

    /// Gives mutable access to the payload of the hypergraph as a whole.
    pub fn value_mut(&mut self) -> (r: &mut Option<H>)
        requires
            old(self).wf(),
        ensures
            *r == old(self)@[Seq::empty()].graph_value(),
            final(self).wf(),
            final(self).size() == old(self).size(),
            final(self)@ == old(self)@.insert(
                Seq::empty(),
                Record::Graph {
                    value: *final(r),
                    links: Seq::empty(),
                    next_id: old(self)@[Seq::empty()].counter(),
                },
            ),
    {
        let ghost before = *self;
        proof {
            assert forall|after: Self| before.value_replaced(after) implies (#[trigger] after@)
                == before@.insert(
                Seq::empty(),
                Record::Graph { value: after.value, links: Seq::empty(), next_id: before.next_id },
            ) && after.wf() && after.size() == before.size() by {
                before.lemma_value_replaced(after);
            }
        }
        &mut self.value
    }

    /// `after` is `self` with another payload.
    pub(super) open spec fn value_replaced(self, after: Self) -> bool {
        &&& after.nodes == self.nodes
        &&& after.edges == self.edges
        &&& after.links == self.links
        &&& after.hypergraphs == self.hypergraphs
        &&& after.next_id == self.next_id
    }

    /// Replacing the payload of the hypergraph replaces it in the model.
    pub(super) proof fn lemma_value_replaced(self, after: Self)
        requires
            self.wf(),
            self.value_replaced(after),
        ensures
            after.wf(),
            after.size() == self.size(),
            after@ == self@.insert(
                Seq::empty(),
                Record::Graph { value: after.value, links: Seq::empty(), next_id: self.next_id },
            ),
    {
        let expected = self@.insert(
            Seq::empty(),
            Record::Graph { value: after.value, links: Seq::empty(), next_id: self.next_id },
        );
        assert forall|p: Seq<usize>|
            #![trigger after@.dom().contains(p)]
            #![trigger expected.dom().contains(p)]
            after@.dom().contains(p) == expected.dom().contains(p) && (after@.dom().contains(p) ==> after@[p]
                == expected[p]) by {
            if p.len() == 0 {
                assert(p =~= Seq::<usize>::empty());
            }
        }
        assert(after@ =~= expected);
    }
}

impl<N, E, H, L, Ty> Hypergraph<N, E, H, L, Ty> {
    /// Takes out all that the hypergraph holds. Its payload and its counter
    /// stay.
    pub(crate) fn wipe(&mut self)
        ensures
            final(self).wf(),
            final(self)@ == Map::<Seq<usize>, Record<N, E, H, L>>::empty().insert(
                Seq::empty(),
                old(self)@[Seq::empty()],
            ),
    {
        self.edges.clear();
        self.hypergraphs.clear();
        self.links.clear();
        self.nodes.clear();
        proof {
            let r = *self;
            assert forall|p: Seq<usize>| p.len() > 0 implies r.record(p) is None by {
                reveal_with_fuel(Hypergraph::record, 2);
            }
            assert forall|p: Seq<usize>| p.len() == 0 implies p == Seq::<usize>::empty() by {
                assert(p =~= Seq::<usize>::empty());
            }
            assert(r.record(Seq::empty()) == Some(r.root()));
            assert(r@ =~= Map::<Seq<usize>, Record<N, E, H, L>>::empty().insert(
                Seq::empty(),
                old(self)@[Seq::empty()],
            ));
        }
    }
}

} // verus!
