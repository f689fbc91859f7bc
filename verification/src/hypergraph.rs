//! The hypergraph: how it is represented, what its model is, and how a
//! nested hypergraph is reached.

use vstd::prelude::*;

pub mod add;
pub mod check;
pub mod clear;
mod copy;
pub mod extend;
pub mod find;
pub mod get;
pub mod inform;
mod ops;
pub mod parts;
pub mod remove;
pub mod set;
pub mod shape;
mod store;
pub mod walk;

use crate::direction::Direction;
use crate::model::LinkRef;
use crate::model::Model;
use crate::model::Record;
use crate::model::consistent;
use crate::model::graft;
use crate::model::lemma_graft_nested;
use crate::model::placed;
use crate::model::subview;
use crate::model::tree_shaped;
use crate::path::is_prefix;
use crate::path::parent;
use crate::slots::EdgeSlot;
use crate::slots::Keyed;
use crate::slots::LinkSlot;
use crate::slots::NodeSlot;
use crate::slots::all_below;
use crate::slots::ascending;
use crate::slots::has_key;
use crate::slots::key_pos;
use crate::slots::lemma_key_pos;
use crate::slots::lemma_slot_update;
use crate::slots::links_view;
use crate::slots::position;
use crate::slots::slot_of;
use crate::traits::HypergraphClass;
use crate::traits::Main;
use crate::traits::Sub;

verus! {

/// At most one of the four holds.
pub open spec fn at_most_one(a: bool, b: bool, c: bool, d: bool) -> bool {
    &&& !(a && b)
    &&& !(a && c)
    &&& !(a && d)
    &&& !(b && c)
    &&& !(b && d)
    &&& !(c && d)
}

/// A nested hypergraph as it is stored in the hypergraph around it.
#[derive(Debug)]
pub struct GraphSlot<N, E, H, L> {
    /// The local id of the nested hypergraph.
    pub id: usize,
    /// The nested hypergraph.
    pub graph: Hypergraph<N, E, H, L, Sub>,
    /// The links of the nested hypergraph: the id of each link and its
    /// orientation.
    pub links: Vec<(Vec<usize>, Direction)>,
}

impl<N, E, H, L> Keyed for GraphSlot<N, E, H, L> {
    open spec fn key(&self) -> usize {
        self.id
    }

    fn local_id(&self) -> (r: usize) {
        self.id
    }
}

/// A directed hyper-multigraph that can hold other hypergraphs.
///
/// Nodes and hyperedges carry a payload and an adjacency list. A link is a
/// simple edge between a hyperedge and a node, hyperedge or hypergraph; a
/// hyperedge connects its endpoints through at least two links. Each element
/// has a local id, unique in its hypergraph and never used again, and is
/// addressed by the path of local ids that leads to it from the root.
///
/// # Contracts
///
/// The contracts speak of the model of the hypergraph, written `h@`: a map
/// from the path of each element to its record. Two predicates say that a
/// hypergraph is in order. `wf` holds of every hypergraph, root or nested,
/// that was made and changed through the operations of this library.
/// `inv` holds of every root made and changed in this way: it adds the
/// structural rules for links, which a nested hypergraph cannot obey alone,
/// as the links that lie in it are kept in its adjacency lists under the
/// paths that they have in the root. `is_consistent` decides `inv`.
///
/// # Type parameters
///
/// - `N`: payload of a node
/// - `E`: payload of a hyperedge
/// - `H`: payload of a hypergraph
/// - `L`: payload of a link
/// - `Ty`: [`Main`] for the root of a structure, [`Sub`] for a nested level
#[derive(Debug)]
pub struct Hypergraph<N, E, H = (), L = (), Ty = Main> {
    /// Payload of the hypergraph as a whole.
    value: Option<H>,
    /// The nodes, in the order of their local ids.
    nodes: Vec<NodeSlot<N>>,
    /// The hyperedges, in the order of their local ids.
    edges: Vec<EdgeSlot<E>>,
    /// The links, in the order of their local ids.
    links: Vec<LinkSlot<L>>,
    /// The nested hypergraphs, in the order of their local ids.
    hypergraphs: Vec<GraphSlot<N, E, H, L>>,
    /// The local id that the next element gets.
    next_id: usize,
    /// Root or nested.
    class: Ty,
}

impl<N, E, H, L, Ty> View for Hypergraph<N, E, H, L, Ty> {
    type V = Model<N, E, H, L>;

    /// The model: every element held at any depth, under its path.
    closed spec fn view(&self) -> Model<N, E, H, L> {
        Map::new(|p: Seq<usize>| self.record(p) is Some, |p: Seq<usize>| self.record(p).unwrap())
    }
}

impl<N, E, H, L, Ty> Hypergraph<N, E, H, L, Ty> {
    /// The representation is in order: in each of the four stores the local
    /// ids ascend and stay below the counter, no local id is used by two
    /// stores, and the same holds in every nested hypergraph.
    pub closed spec fn wf(self) -> bool
        decreases self,
    {
        &&& ascending(self.nodes@) && all_below(self.nodes@, self.next_id)
        &&& ascending(self.edges@) && all_below(self.edges@, self.next_id)
        &&& ascending(self.links@) && all_below(self.links@, self.next_id)
        &&& ascending(self.hypergraphs@) && all_below(self.hypergraphs@, self.next_id)
        &&& forall|id: usize|
            #![trigger slot_of(self.nodes@, id)]
            #![trigger slot_of(self.edges@, id)]
            #![trigger slot_of(self.links@, id)]
            #![trigger slot_of(self.hypergraphs@, id)]
            at_most_one(
                slot_of(self.nodes@, id) is Some,
                slot_of(self.edges@, id) is Some,
                slot_of(self.links@, id) is Some,
                slot_of(self.hypergraphs@, id) is Some,
            )
        &&& forall|i: int|
            0 <= i < self.hypergraphs@.len() ==> (#[trigger] self.hypergraphs@[i]).graph.wf()
    }

    /// The record of a stored node.
    pub closed spec fn node_record(s: NodeSlot<N>) -> Record<N, E, H, L> {
        Record::Node { value: s.value, links: links_view(s.links@) }
    }

    /// The record of a stored hyperedge.
    pub closed spec fn edge_record(s: EdgeSlot<E>) -> Record<N, E, H, L> {
        Record::Edge { value: s.value, links: links_view(s.links@) }
    }

    /// The record of a stored link.
    pub closed spec fn link_record(s: LinkSlot<L>) -> Record<N, E, H, L> {
        Record::Link { value: s.value, source: s.source@, target: s.target@ }
    }

    /// The record of a stored nested hypergraph.
    pub closed spec fn graph_record(s: GraphSlot<N, E, H, L>) -> Record<N, E, H, L> {
        Record::Graph { value: s.graph.value, links: links_view(s.links@), next_id: s.graph.next_id }
    }

    /// The record of the element with local id `id` in this hypergraph.
    pub closed spec fn local(self, id: usize) -> Option<Record<N, E, H, L>> {
        if let Some(s) = slot_of(self.nodes@, id) {
            Some(Self::node_record(s))
        } else if let Some(s) = slot_of(self.edges@, id) {
            Some(Self::edge_record(s))
        } else if let Some(s) = slot_of(self.links@, id) {
            Some(Self::link_record(s))
        } else if let Some(s) = slot_of(self.hypergraphs@, id) {
            Some(Self::graph_record(s))
        } else {
            None
        }
    }

    /// The record of this hypergraph in its own model.
    pub closed spec fn root(self) -> Record<N, E, H, L> {
        Record::Graph { value: self.value, links: Seq::empty(), next_id: self.next_id }
    }

    /// The record of the element with path `p`, if there is one.
    pub closed spec fn record(self, p: Seq<usize>) -> Option<Record<N, E, H, L>>
        decreases p.len(),
    {
        if p.len() == 0 {
            Some(self.root())
        } else if p.len() == 1 {
            self.local(p[0])
        } else if let Some(s) = slot_of(self.hypergraphs@, p[0]) {
            s.graph.record(p.skip(1))
        } else {
            None
        }
    }
}

impl<N, E, H, L, Ty> Hypergraph<N, E, H, L, Ty> {
    /// The record of the nested hypergraph stored at position `i`.
    pub closed spec fn nested_record(self, i: int) -> Record<N, E, H, L> {
        let s = self.hypergraphs@[i];
        Record::Graph { value: s.graph.value, links: links_view(s.links@), next_id: s.graph.next_id }
    }

    /// An element of this hypergraph has a local id below the counter.
    proof fn lemma_local_below(self, id: usize)
        requires
            self.wf(),
            self.local(id) is Some,
        ensures
            id < self.next_id,
    {
        if has_key(self.nodes@, id) {
            assert(self.nodes@[key_pos(self.nodes@, id)].key() == id);
        }
        if has_key(self.edges@, id) {
            assert(self.edges@[key_pos(self.edges@, id)].key() == id);
        }
        if has_key(self.links@, id) {
            assert(self.links@[key_pos(self.links@, id)].key() == id);
        }
        if has_key(self.hypergraphs@, id) {
            assert(self.hypergraphs@[key_pos(self.hypergraphs@, id)].key() == id);
        }
    }

    /// What the model holds below the nested hypergraph at position `i` is
    /// what that hypergraph holds, and under its id stands its own record
    /// with the adjacency list that is kept beside it.
    proof fn lemma_child_records(self, i: int)
        requires
            self.wf(),
            0 <= i < self.hypergraphs@.len(),
        ensures
            self.record(seq![self.hypergraphs@[i].id]) == Some(self.nested_record(i)),
            forall|y: Seq<usize>|
                y.len() > 0 ==> self.record(#[trigger] (seq![self.hypergraphs@[i].id] + y))
                    == self.hypergraphs@[i].graph.record(y),
    {
        let k = self.hypergraphs@[i].id;
        lemma_key_pos(self.hypergraphs@, i);
        assert(at_most_one(
            slot_of(self.nodes@, k) is Some,
            slot_of(self.edges@, k) is Some,
            slot_of(self.links@, k) is Some,
            slot_of(self.hypergraphs@, k) is Some,
        ));
        assert(seq![k][0] == k);
        assert forall|y: Seq<usize>| y.len() > 0 implies self.record(#[trigger] (seq![k] + y))
            == self.hypergraphs@[i].graph.record(y) by {
            let p = seq![k] + y;
            assert(p[0] == k);
            assert(p.skip(1) =~= y);
        }
    }

    /// A path of two or more entries starts with the local id of a nested
    /// hypergraph.
    proof fn lemma_record_needs_child(self, p: Seq<usize>)
        requires
            p.len() >= 2,
            !has_key(self.hypergraphs@, p[0]),
        ensures
            self.record(p) is None,
    {
    }

    /// Every path splits into its first entry and the rest.
    proof fn lemma_split(p: Seq<usize>)
        requires
            p.len() > 0,
        ensures
            p == seq![p[0]] + p.skip(1),
    {
        assert(p =~= seq![p[0]] + p.skip(1));
    }
}

impl<N, E, H, L, Ty> Hypergraph<N, E, H, L, Ty> {
    /// Finds the nested hypergraph whose path is `q` from position `depth`
    /// on.
    pub(crate) fn sub(&self, q: &[usize], depth: usize) -> (r: Option<&Hypergraph<N, E, H, L, Sub>>)
        requires
            self.wf(),
            depth < q@.len(),
        ensures
            match r {
                Some(g) => {
                    &&& g.wf()
                    &&& self@.dom().contains(q@.skip(depth as int))
                    &&& self@[q@.skip(depth as int)] is Graph
                    &&& g@ == subview(self@, q@.skip(depth as int))
                },
                None => !(self@.dom().contains(q@.skip(depth as int)) && self@[q@.skip(
                    depth as int,
                )] is Graph),
            },
            r matches Some(g) ==> g.size() < self.size(),
        decreases q@.len() - depth,
    {
        let ghost qs = q@.skip(depth as int);
        let k = q[depth];
        proof {
            Self::lemma_split(qs);
        }
        match position(&self.hypergraphs, k) {
            None => {
                proof {
                    if qs.len() >= 2 {
                        self.lemma_record_needs_child(qs);
                    }
                }
                None
            },
            Some(i) => {
                let child = &self.hypergraphs[i].graph;
                proof {
                    self.lemma_child_records(i as int);
                    assert(qs.skip(1) =~= q@.skip(depth + 1));
                    Self::lemma_nested_size_update(self.hypergraphs@, i as int, self.hypergraphs@[i as int]);
                }
                if depth + 1 == q.len() {
                    proof {
                        assert(qs =~= seq![k]);
                        assert(child@ =~= subview(self@, qs)) by {
                            assert forall|x: Seq<usize>| #[trigger]
                                child@.dom().contains(x) == subview(self@, qs).dom().contains(x) by {
                                if x.len() == 0 {
                                    assert(qs + x =~= qs);
                                }
                            }
                            assert forall|x: Seq<usize>| #[trigger]
                                child@.dom().contains(x) implies child@[x] == subview(self@, qs)[x] by {
                                if x.len() == 0 {
                                    assert(qs + x =~= qs);
                                }
                            }
                        }
                    }
                    Some(child)
                } else {
                    let r = child.sub(q, depth + 1);
                    proof {
                        let q1 = qs.skip(1);
                        assert(qs == seq![k] + q1);
                        if let Some(g) = r {
                            assert(g@ =~= subview(self@, qs)) by {
                                assert forall|x: Seq<usize>| #[trigger] (qs + x) == seq![k] + (q1 + x) by {
                                    assert(qs + x =~= seq![k] + (q1 + x));
                                }
                                assert forall|x: Seq<usize>|
                                    g@.dom().contains(x) == #[trigger] subview(self@, qs).dom().contains(x) by {
                                    assert(qs + x == seq![k] + (q1 + x));
                                }
                                assert forall|x: Seq<usize>| #[trigger]
                                    g@.dom().contains(x) implies g@[x] == subview(self@, qs)[x] by {
                                    assert(qs + x == seq![k] + (q1 + x));
                                    assert(q1 + Seq::<usize>::empty() =~= q1);
                                    assert(qs + Seq::<usize>::empty() =~= qs);
                                }
                            }
                        }
                    }
                    r
                }
            },
        }
    }
}

impl<N, E, H, L, Ty> Hypergraph<N, E, H, L, Ty> {
    /// `after` is `self` with another hypergraph in place of the nested one
    /// at position `i`.
    spec fn child_replaced(self, after: Self, i: int) -> bool {
        &&& after.value == self.value
        &&& after.nodes == self.nodes
        &&& after.edges == self.edges
        &&& after.links == self.links
        &&& after.next_id == self.next_id
        &&& after.hypergraphs@.len() == self.hypergraphs@.len()
        &&& forall|j: int|
            0 <= j < self.hypergraphs@.len() && j != i ==> #[trigger] after.hypergraphs@[j]
                == self.hypergraphs@[j]
        &&& after.hypergraphs@[i].id == self.hypergraphs@[i].id
        &&& after.hypergraphs@[i].links == self.hypergraphs@[i].links
    }

    /// Replacing a nested hypergraph grafts its model into the model of
    /// the whole.
    proof fn lemma_child_replaced(self, after: Self, i: int)
        requires
            self.wf(),
            0 <= i < self.hypergraphs@.len(),
            self.child_replaced(after, i),
        ensures
            after.hypergraphs@[i].graph.wf() ==> after.wf(),
            after@ == graft(self@, seq![self.hypergraphs@[i].id], after.hypergraphs@[i].graph@),
            after.size() + self.hypergraphs@[i].graph.size() == self.size() + after.hypergraphs@[i].graph.size(),
            self.hypergraphs@[i].graph.size() < self.size(),
    {
        Self::lemma_nested_size_update(self.hypergraphs@, i, after.hypergraphs@[i]);
        assert(after.hypergraphs@ =~= self.hypergraphs@.update(i, after.hypergraphs@[i]));
        let k = self.hypergraphs@[i].id;
        let q = seq![k];
        let y = after.hypergraphs@[i];
        let c = y.graph;
        assert(after.hypergraphs@ =~= self.hypergraphs@.update(i, y));
        lemma_slot_update(self.hypergraphs@, i, y);
        lemma_key_pos(self.hypergraphs@, i);
        assert(slot_of(self.hypergraphs@, k) == Some(self.hypergraphs@[i]));
        assert(slot_of(after.hypergraphs@, k) == Some(y));
        assert(at_most_one(
            slot_of(self.nodes@, k) is Some,
            slot_of(self.edges@, k) is Some,
            slot_of(self.links@, k) is Some,
            slot_of(self.hypergraphs@, k) is Some,
        ));
        if c.wf() {
            assert(after.wf()) by {
                assert forall|j: int| 0 <= j < after.hypergraphs@.len() implies (
                #[trigger] after.hypergraphs@[j]).graph.wf() by {
                    if j != i {
                        assert(self.hypergraphs@[j].graph.wf());
                    }
                }
                assert forall|id: usize|
                    #![trigger slot_of(after.nodes@, id)]
                    #![trigger slot_of(after.edges@, id)]
                    #![trigger slot_of(after.links@, id)]
                    #![trigger slot_of(after.hypergraphs@, id)]
                    at_most_one(
                        slot_of(after.nodes@, id) is Some,
                        slot_of(after.edges@, id) is Some,
                        slot_of(after.links@, id) is Some,
                        slot_of(after.hypergraphs@, id) is Some,
                    ) by {
                    assert(at_most_one(
                        slot_of(self.nodes@, id) is Some,
                        slot_of(self.edges@, id) is Some,
                        slot_of(self.links@, id) is Some,
                        slot_of(self.hypergraphs@, id) is Some,
                    ));
                }
            }
        }
        let g = graft(self@, q, c@);
        assert forall|p: Seq<usize>| after.record(p) == (if p == q {
            Some(after.nested_record(i))
        } else if is_prefix(q, p) {
            c.record(p.skip(1))
        } else {
            self.record(p)
        }) by {
            if p.len() == 0 {
            } else if p[0] == k {
                assert(p.take(1) =~= q);
                if p.len() == 1 {
                    assert(p =~= q);
                }
            } else {
                assert(p.take(1)[0] == p[0]);
                assert(slot_of(after.hypergraphs@, p[0]) == slot_of(self.hypergraphs@, p[0]));
            }
        }
        assert(self.record(q) == Some(self.nested_record(i)));
        assert(c.record(Seq::empty()) == Some(c.root()));
        assert(q.skip(1) =~= Seq::<usize>::empty());
        assert(after@ =~= g);
    }

    /// Gives mutable access to the nested hypergraph whose path is `q` from
    /// position `depth` on. Whatever the caller makes of it is grafted into
    /// the model of the whole.
    pub(crate) fn sub_mut(&mut self, q: &[usize], depth: usize) -> (r: &mut Hypergraph<N, E, H, L, Sub>)
        requires
            old(self).wf(),
            depth < q@.len(),
            old(self)@.dom().contains(q@.skip(depth as int)),
            old(self)@[q@.skip(depth as int)] is Graph,
        ensures
            r.wf(),
            r@ == subview(old(self)@, q@.skip(depth as int)),
            final(r).wf() ==> final(self).wf(),
            final(self)@ == graft(old(self)@, q@.skip(depth as int), final(r)@),
            r.size() < old(self).size(),
            final(self).size() + r.size() == old(self).size() + final(r).size(),
        decreases q@.len() - depth,
    {
        let ghost qs = q@.skip(depth as int);
        let k = q[depth];
        proof {
            Self::lemma_split(qs);
            if !has_key(self.hypergraphs@, k) && qs.len() >= 2 {
                self.lemma_record_needs_child(qs);
            }
            if qs.len() == 1 {
                assert(qs =~= seq![k]);
            }
        }
        let i = position(&self.hypergraphs, k).unwrap();
        proof {
            self.lemma_child_records(i as int);
            assert(qs.skip(1) =~= q@.skip(depth + 1));
        }
        let ghost before = *self;
        proof {
            let q1 = qs.skip(1);
            before.lemma_subview_child(i as int);
            assert forall|after: Self| before.child_replaced(after, i as int) implies (#[trigger] after@)
                == graft(before@, seq![k], after.hypergraphs@[i as int].graph@) by {
                before.lemma_child_replaced(after, i as int);
            }
            assert forall|after: Self|
                before.child_replaced(after, i as int) && after.hypergraphs@[i as int].graph.wf()
                    implies #[trigger] after.wf() by {
                before.lemma_child_replaced(after, i as int);
            }
            assert forall|after: Self| before.child_replaced(after, i as int) implies (#[trigger] after.size())
                + before.hypergraphs@[i as int].graph.size() == before.size()
                + after.hypergraphs@[i as int].graph.size() by {
                before.lemma_child_replaced(after, i as int);
            }
            Self::lemma_nested_size_update(before.hypergraphs@, i as int, before.hypergraphs@[i as int]);
            if q1.len() > 0 {
                before.lemma_subview_nested(i as int, q1);
                assert forall|c: Model<N, E, H, L>| #[trigger]
                    graft(subview(before@, seq![k]), q1, c) == graft(subview(before@, seq![k]), q1, c)
                    implies graft(before@, seq![k], graft(subview(before@, seq![k]), q1, c)) == graft(
                    before@,
                    qs,
                    c,
                ) by {
                    lemma_graft_nested(before@, k, q1, c);
                }
            }
        }
        let child = &mut self.hypergraphs[i].graph;
        if depth + 1 == q.len() {
            child
        } else {
            child.sub_mut(q, depth + 1)
        }
    }

    /// The model of the nested hypergraph at position `i` is the part of the
    /// model below its id.
    proof fn lemma_subview_child(self, i: int)
        requires
            self.wf(),
            0 <= i < self.hypergraphs@.len(),
        ensures
            self.hypergraphs@[i].graph@ == subview(self@, seq![self.hypergraphs@[i].id]),
            self.hypergraphs@[i].graph.wf(),
    {
        let k = self.hypergraphs@[i].id;
        let qs = seq![k];
        let child = self.hypergraphs@[i].graph;
        self.lemma_child_records(i);
        assert(child@ =~= subview(self@, qs)) by {
            assert forall|x: Seq<usize>| #[trigger]
                child@.dom().contains(x) == subview(self@, qs).dom().contains(x) by {
                if x.len() == 0 {
                    assert(qs + x =~= qs);
                }
            }
            assert forall|x: Seq<usize>| #[trigger]
                child@.dom().contains(x) implies child@[x] == subview(self@, qs)[x] by {
                if x.len() == 0 {
                    assert(qs + x =~= qs);
                }
            }
        }
    }

    /// A part of the model of a nested hypergraph is a part of the model of
    /// the whole.
    proof fn lemma_subview_nested(self, i: int, q1: Seq<usize>)
        requires
            self.wf(),
            0 <= i < self.hypergraphs@.len(),
            q1.len() > 0,
        ensures
            subview(self.hypergraphs@[i].graph@, q1) == subview(self@, seq![self.hypergraphs@[i].id] + q1),
    {
        let k = self.hypergraphs@[i].id;
        let qs = seq![k] + q1;
        let child = self.hypergraphs@[i].graph;
        self.lemma_child_records(i);
        assert forall|x: Seq<usize>| #[trigger] (qs + x) == seq![k] + (q1 + x) by {
            assert(qs + x =~= seq![k] + (q1 + x));
        }
        assert(q1 + Seq::<usize>::empty() =~= q1);
        assert(qs + Seq::<usize>::empty() =~= qs);
        assert(subview(child@, q1) =~= subview(self@, qs)) by {
            assert forall|x: Seq<usize>|
                subview(child@, q1).dom().contains(x) == #[trigger] subview(self@, qs).dom().contains(x) by {
                assert(qs + x == seq![k] + (q1 + x));
            }
            assert forall|x: Seq<usize>| #[trigger]
                subview(child@, q1).dom().contains(x) implies subview(child@, q1)[x] == subview(self@, qs)[x] by {
                assert(qs + x == seq![k] + (q1 + x));
            }
        }
    }
}

impl<N, E, H, L, Ty> Hypergraph<N, E, H, L, Ty> {
    /// Every element but the root lies in a hypergraph of the model, with a
    /// local id below the counter of that hypergraph.
    proof fn lemma_parent(self, p: Seq<usize>)
        requires
            self.wf(),
            p.len() > 0,
            self.record(p) is Some,
        ensures
            self.record(parent(p)) matches Some(Record::Graph { next_id, .. }) && p.last() < next_id,
        decreases p.len(),
    {
        if p.len() == 1 {
            assert(parent(p) =~= Seq::<usize>::empty());
            self.lemma_local_below(p[0]);
        } else {
            let k = p[0];
            let s = slot_of(self.hypergraphs@, k).unwrap();
            let i = key_pos(self.hypergraphs@, k);
            assert(self.hypergraphs@[i].graph.wf());
            let rest = p.skip(1);
            s.graph.lemma_parent(rest);
            assert(parent(p)[0] == k);
            assert(parent(p).skip(1) =~= parent(rest));
            if p.len() == 2 {
                assert(parent(rest) =~= Seq::<usize>::empty());
                assert(at_most_one(
                    slot_of(self.nodes@, k) is Some,
                    slot_of(self.edges@, k) is Some,
                    slot_of(self.links@, k) is Some,
                    slot_of(self.hypergraphs@, k) is Some,
                ));
            }
        }
    }

    /// The model of a hypergraph in good order is a tree.
    pub proof fn lemma_tree_shaped(self)
        requires
            self.wf(),
        ensures
            tree_shaped(self@),
    {
        self.lemma_root();
        assert forall|p: Seq<usize>| self@.dom().contains(p) && p.len() > 0 implies #[trigger] placed(
            self@,
            p,
        ) by {
            self.lemma_parent(p);
        }
    }
}

impl<N, E, H, L, Ty> Hypergraph<N, E, H, L, Ty> {
    /// Returns the payload of the hypergraph as a whole.
    pub fn value(&self) -> (r: &Option<H>)
        ensures
            *r == self@[Seq::empty()].graph_value(),
    {
        &self.value
    }

    /// Returns the local id that the next element added to this hypergraph
    /// gets.
    pub fn next_local_id(&self) -> (r: usize)
        ensures
            r == self@[Seq::empty()].counter(),
    {
        self.next_id
    }

    /// Returns the role marker.
    pub fn class(&self) -> (r: &Ty)
        ensures
            *r == self.role(),
    {
        &self.class
    }

    /// The hypergraph is in good order and obeys all structural rules.
    pub open spec fn inv(self) -> bool {
        self.wf() && consistent(self@)
    }

    /// The role marker of the hypergraph.
    pub closed spec fn role(self) -> Ty {
        self.class
    }
}

impl<N, E, H, L, Ty> Hypergraph<N, E, H, L, Ty> {
    /// The number of elements that the hypergraph holds, at any depth; the
    /// hypergraph itself is not counted.
    pub closed spec fn size(self) -> nat
        decreases self,
    {
        self.nodes@.len() + self.edges@.len() + self.links@.len() + Self::nested_size(self.hypergraphs@)
    }

    /// The number of elements in a store of nested hypergraphs: each of them
    /// and all that they hold.
    pub closed spec fn nested_size(slots: Seq<GraphSlot<N, E, H, L>>) -> nat
        decreases slots,
    {
        if slots.len() == 0 {
            0
        } else {
            Self::nested_size(slots.drop_last()) + 1 + slots.last().graph.size()
        }
    }

    /// Counting a store with one more nested hypergraph.
    proof fn lemma_nested_size_push(slots: Seq<GraphSlot<N, E, H, L>>, x: GraphSlot<N, E, H, L>)
        ensures
            Self::nested_size(slots.push(x)) == Self::nested_size(slots) + 1 + x.graph.size(),
    {
        assert(slots.push(x).drop_last() =~= slots);
    }

    /// Counting a store in which one nested hypergraph was replaced.
    proof fn lemma_nested_size_update(slots: Seq<GraphSlot<N, E, H, L>>, i: int, y: GraphSlot<N, E, H, L>)
        requires
            0 <= i < slots.len(),
        ensures
            Self::nested_size(slots.update(i, y)) + slots[i].graph.size() == Self::nested_size(slots)
                + y.graph.size(),
            slots[i].graph.size() < Self::nested_size(slots),
        decreases slots.len(),
    {
        if i == slots.len() - 1 {
            assert(slots.update(i, y).drop_last() =~= slots.drop_last());
        } else {
            Self::lemma_nested_size_update(slots.drop_last(), i, y);
            assert(slots.update(i, y).drop_last() =~= slots.drop_last().update(i, y));
        }
    }

    /// Counting a store from which one nested hypergraph was taken.
    proof fn lemma_nested_size_remove(slots: Seq<GraphSlot<N, E, H, L>>, i: int)
        requires
            0 <= i < slots.len(),
        ensures
            Self::nested_size(slots.remove(i)) + 1 + slots[i].graph.size() == Self::nested_size(slots),
        decreases slots.len(),
    {
        if i == slots.len() - 1 {
            assert(slots.remove(i) =~= slots.drop_last());
        } else {
            Self::lemma_nested_size_remove(slots.drop_last(), i);
            assert(slots.remove(i).drop_last() =~= slots.drop_last().remove(i));
            assert(slots.remove(i).last() == slots.last());
        }
    }
}

impl<N, E, H, L, Ty: HypergraphClass> Hypergraph<N, E, H, L, Ty> {
    /// Creates an empty hypergraph with room for the given numbers of nodes,
    /// hyperedges, links and nested hypergraphs.
    pub fn with_capacity(nodes: usize, edges: usize, links: usize, hypergraphs: usize) -> (r: Self)
        ensures
            r.inv(),
            r@ == Map::<Seq<usize>, Record<N, E, H, L>>::empty().insert(
                Seq::empty(),
                Record::Graph { value: None, links: Seq::empty(), next_id: 0 },
            ),
    {
        let r = Hypergraph {
            value: None,
            nodes: Vec::with_capacity(nodes),
            edges: Vec::with_capacity(edges),
            links: Vec::with_capacity(links),
            hypergraphs: Vec::with_capacity(hypergraphs),
            next_id: 0,
            class: Ty::new(),
        };
        proof {
            assert forall|p: Seq<usize>| p.len() > 0 implies r.record(p) is None by {
                reveal_with_fuel(Hypergraph::record, 2);
            }
            assert forall|p: Seq<usize>| p.len() == 0 implies p == Seq::<usize>::empty() by {
                assert(p =~= Seq::<usize>::empty());
            }
            assert(r.record(Seq::empty()) == Some(r.root()));
            assert(r@ =~= Map::<Seq<usize>, Record<N, E, H, L>>::empty().insert(
                Seq::empty(),
                Record::Graph { value: None, links: Seq::empty(), next_id: 0 },
            ));
            assert forall|p: Seq<usize>| r@.dom().contains(p) implies #[trigger] crate::model::link_rules(
                r@,
                p,
            ) && #[trigger] crate::model::adjacency_rules(r@, p) && #[trigger] crate::model::edge_rules(
                r@,
                Set::empty(),
                p,
            ) by {}
        }
        r
    }
}

impl<N, E, H, L, Ty: HypergraphClass> Hypergraph<N, E, H, L, Ty> {
    /// Creates an empty hypergraph.
    pub fn new() -> (r: Self)
        ensures
            r.inv(),
            r@ == Map::<Seq<usize>, Record<N, E, H, L>>::empty().insert(
                Seq::empty(),
                Record::Graph { value: None, links: Seq::empty(), next_id: 0 },
            ),
    {
        let r = Hypergraph {
            value: None,
            nodes: Vec::new(),
            edges: Vec::new(),
            links: Vec::new(),
            hypergraphs: Vec::new(),
            next_id: 0,
            class: Ty::new(),
        };
        proof {
            assert forall|p: Seq<usize>| p.len() > 0 implies r.record(p) is None by {
                reveal_with_fuel(Hypergraph::record, 2);
            }
            assert forall|p: Seq<usize>| p.len() == 0 implies p == Seq::<usize>::empty() by {
                assert(p =~= Seq::<usize>::empty());
            }
            assert(r.record(Seq::empty()) == Some(r.root()));
            assert(r@ =~= Map::<Seq<usize>, Record<N, E, H, L>>::empty().insert(
                Seq::empty(),
                Record::Graph { value: None, links: Seq::empty(), next_id: 0 },
            ));
            assert forall|p: Seq<usize>| r@.dom().contains(p) implies #[trigger] crate::model::link_rules(
                r@,
                p,
            ) && #[trigger] crate::model::adjacency_rules(r@, p) && #[trigger] crate::model::edge_rules(
                r@,
                Set::empty(),
                p,
            ) by {}
            assert(r@ =~= Map::<Seq<usize>, Record<N, E, H, L>>::empty().insert(
                Seq::empty(),
                Record::Graph { value: None, links: Seq::empty(), next_id: 0 },
            ));
        }
        r
    }
}

impl<N, E, H, L, Ty> Hypergraph<N, E, H, L, Ty> {
    /// The hypergraph stands in its own model under the empty path.
    pub(crate) proof fn lemma_root(self)
        ensures
            self@.dom().contains(Seq::empty()),
            self@[Seq::empty()] == self.root(),
            self@[Seq::empty()] is Graph,
            self@[Seq::empty()].adjacency() == Seq::<LinkRef>::empty(),
    {
    }

    /// The model holds under a path of one entry what the hypergraph holds
    /// under that local id.
    proof fn lemma_local(self, id: usize)
        ensures
            self@.dom().contains(seq![id]) == (self.local(id) is Some),
            self.local(id) is Some ==> self@[seq![id]] == self.local(id).unwrap(),
            self.record(seq![id]) == self.local(id),
    {
        assert(seq![id][0] == id);
    }

    /// Where two hypergraphs store the same under every local id but `id`,
    /// their models agree on every path that does not start with `id`.
    proof fn lemma_frame(self, after: Self, id: usize)
        requires
            forall|j: usize| j != id ==> #[trigger] slot_of(after.nodes@, j) == slot_of(self.nodes@, j),
            forall|j: usize| j != id ==> #[trigger] slot_of(after.edges@, j) == slot_of(self.edges@, j),
            forall|j: usize| j != id ==> #[trigger] slot_of(after.links@, j) == slot_of(self.links@, j),
            forall|j: usize|
                j != id ==> #[trigger] slot_of(after.hypergraphs@, j) == slot_of(self.hypergraphs@, j),
        ensures
            forall|p: Seq<usize>| p.len() > 0 && p[0] != id ==> #[trigger] after.record(p) == self.record(p),
    {
        assert forall|p: Seq<usize>| p.len() > 0 && p[0] != id implies #[trigger] after.record(p)
            == self.record(p) by {
            let j = p[0];
            assert(slot_of(after.nodes@, j) == slot_of(self.nodes@, j));
            assert(slot_of(after.edges@, j) == slot_of(self.edges@, j));
            assert(slot_of(after.links@, j) == slot_of(self.links@, j));
            assert(slot_of(after.hypergraphs@, j) == slot_of(self.hypergraphs@, j));
        }
    }

    /// No item is stored under a local id that bounds the store.
    proof fn lemma_unused<S: Keyed>(slots: Seq<S>, id: usize)
        requires
            all_below(slots, id),
        ensures
            slot_of(slots, id) is None,
    {
        if has_key(slots, id) {
            assert(slots[key_pos(slots, id)].key() < id);
        }
    }
}

} // verus!
