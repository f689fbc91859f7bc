//! Storing a copy of a whole hypergraph in another.

use vstd::prelude::*;
use crate::elements::ElementType;
use crate::embedding::embedded;
use crate::embedding::lemma_embedded_consistent;
use crate::embedding::lemma_graft_planted;
use crate::embedding::planted;
use crate::embedding::shifted;
use crate::embedding::shifted_links;
use crate::embedding::shifted_record;
use crate::errors::AddError;
use crate::errors::AddRefusal;
use crate::errors::NoHypergraph;
use crate::growth::has_room;
use crate::hypergraph::GraphSlot;
use crate::hypergraph::Hypergraph;
use crate::hypergraph::at_most_one;
use crate::model::Model;
use crate::model::copy_of;
use crate::model::lemma_shape_consistent;
use crate::path::child_path;
use crate::path::is_prefix;
use crate::path::join_paths;
use crate::path::to_path;
use crate::slots::EdgeSlot;
use crate::slots::LinkSlot;
use crate::slots::NodeSlot;
use crate::slots::has_key;
use crate::slots::key_pos;
use crate::slots::lemma_same_keys;
use crate::slots::lemma_slot_push;
use crate::slots::links_view;
use crate::slots::shift_links;
use crate::slots::slot_of;
use crate::traits::Main;
use crate::traits::Sub;

verus! {

impl<N, E, H, L, Ty> Hypergraph<N, E, H, L, Ty> {
    /// In the store `b` the first `upto` nodes of the store `a` have `q` in
    /// front of every path; the others are as they were.
    spec fn nodes_shifted(a: Seq<NodeSlot<N>>, b: Seq<NodeSlot<N>>, q: Seq<usize>, upto: int) -> bool {
        &&& a.len() == b.len()
        &&& forall|j: int|
            0 <= j < a.len() ==> {
                &&& (#[trigger] b[j]).id == a[j].id
                &&& b[j].value == a[j].value
                &&& links_view(b[j].links@) == if j < upto {
                    shifted_links(links_view(a[j].links@), q)
                } else {
                    links_view(a[j].links@)
                }
            }
    }

    /// In the store `b` the first `upto` hyperedges of the store `a` have
    /// `q` in front of every path; the others are as they were.
    spec fn edges_shifted(a: Seq<EdgeSlot<E>>, b: Seq<EdgeSlot<E>>, q: Seq<usize>, upto: int) -> bool {
        &&& a.len() == b.len()
        &&& forall|j: int|
            0 <= j < a.len() ==> {
                &&& (#[trigger] b[j]).id == a[j].id
                &&& b[j].value == a[j].value
                &&& links_view(b[j].links@) == if j < upto {
                    shifted_links(links_view(a[j].links@), q)
                } else {
                    links_view(a[j].links@)
                }
            }
    }

    /// In the store `b` the first `upto` links of the store `a` have `q` in
    /// front of their source and target; the others are as they were.
    spec fn links_shifted(a: Seq<LinkSlot<L>>, b: Seq<LinkSlot<L>>, q: Seq<usize>, upto: int) -> bool {
        &&& a.len() == b.len()
        &&& forall|j: int|
            0 <= j < a.len() ==> {
                &&& (#[trigger] b[j]).id == a[j].id
                &&& b[j].value == a[j].value
                &&& b[j].source@ == if j < upto {
                    q + a[j].source@
                } else {
                    a[j].source@
                }
                &&& b[j].target@ == if j < upto {
                    q + a[j].target@
                } else {
                    a[j].target@
                }
            }
    }

    /// In the store `b` the first `upto` nested hypergraphs of the store `a`
    /// have `q` in front of every path that they or what lies in them hold;
    /// the others are as they were.
    spec fn graphs_shifted(
        a: Seq<GraphSlot<N, E, H, L>>,
        b: Seq<GraphSlot<N, E, H, L>>,
        q: Seq<usize>,
        upto: int,
    ) -> bool {
        &&& a.len() == b.len()
        &&& forall|j: int|
            0 <= j < a.len() ==> {
                &&& (#[trigger] b[j]).id == a[j].id
                &&& b[j].graph.wf()
                &&& b[j].graph.size() == a[j].graph.size()
                &&& links_view(b[j].links@) == if j < upto {
                    shifted_links(links_view(a[j].links@), q)
                } else {
                    links_view(a[j].links@)
                }
                &&& b[j].graph@ == if j < upto {
                    shifted(a[j].graph@, q)
                } else {
                    a[j].graph@
                }
            }
    }

    /// A hypergraph whose stores are the shifted stores of another has the
    /// shifted model.
    proof fn lemma_shifted(self, other: Self, q: Seq<usize>)
        requires
            self.wf(),
            other.next_id == self.next_id,
            other.value == self.value,
            Self::nodes_shifted(self.nodes@, other.nodes@, q, self.nodes@.len() as int),
            Self::edges_shifted(self.edges@, other.edges@, q, self.edges@.len() as int),
            Self::links_shifted(self.links@, other.links@, q, self.links@.len() as int),
            Self::graphs_shifted(self.hypergraphs@, other.hypergraphs@, q, self.hypergraphs@.len() as int),
        ensures
            other.wf(),
            other@ == shifted(self@, q),
            other.size() == self.size(),
    {
        lemma_same_keys(self.nodes@, other.nodes@);
        lemma_same_keys(self.edges@, other.edges@);
        lemma_same_keys(self.links@, other.links@);
        lemma_same_keys(self.hypergraphs@, other.hypergraphs@);
        assert(other.wf()) by {
            assert forall|i: int| 0 <= i < other.hypergraphs@.len() implies (
            #[trigger] other.hypergraphs@[i]).graph.wf() by {}
            assert forall|id: usize|
                #![trigger slot_of(other.nodes@, id)]
                #![trigger slot_of(other.edges@, id)]
                #![trigger slot_of(other.links@, id)]
                #![trigger slot_of(other.hypergraphs@, id)]
                at_most_one(
                    slot_of(other.nodes@, id) is Some,
                    slot_of(other.edges@, id) is Some,
                    slot_of(other.links@, id) is Some,
                    slot_of(other.hypergraphs@, id) is Some,
                ) by {
                assert(at_most_one(
                    slot_of(self.nodes@, id) is Some,
                    slot_of(self.edges@, id) is Some,
                    slot_of(self.links@, id) is Some,
                    slot_of(self.hypergraphs@, id) is Some,
                ));
            }
        }
        assert(shifted_links(Seq::empty(), q) =~= Seq::<crate::model::LinkRef>::empty());
        assert forall|p: Seq<usize>|
            (self.record(p) is Some) == (other.record(p) is Some) && (self.record(p) is Some
                ==> other.record(p).unwrap() == shifted_record(self.record(p).unwrap(), q)) by {
            if p.len() == 0 {
            } else {
                let k = p[0];
                assert(has_key(other.nodes@, k) == has_key(self.nodes@, k));
                assert(has_key(other.edges@, k) == has_key(self.edges@, k));
                assert(has_key(other.links@, k) == has_key(self.links@, k));
                assert(has_key(other.hypergraphs@, k) == has_key(self.hypergraphs@, k));
                assert(at_most_one(
                    slot_of(self.nodes@, k) is Some,
                    slot_of(self.edges@, k) is Some,
                    slot_of(self.links@, k) is Some,
                    slot_of(self.hypergraphs@, k) is Some,
                ));
                if has_key(self.nodes@, k) {
                    let i = key_pos(self.nodes@, k);
                    assert(key_pos(other.nodes@, k) == i);
                    assert(other.nodes@[i].id == self.nodes@[i].id);
                    assert(self.local(k) == Some(Self::node_record(self.nodes@[i])));
                    assert(other.local(k) == Some(Self::node_record(other.nodes@[i])));
                } else if has_key(self.edges@, k) {
                    let i = key_pos(self.edges@, k);
                    assert(key_pos(other.edges@, k) == i);
                    assert(other.edges@[i].id == self.edges@[i].id);
                    assert(self.local(k) == Some(Self::edge_record(self.edges@[i])));
                    assert(other.local(k) == Some(Self::edge_record(other.edges@[i])));
                } else if has_key(self.links@, k) {
                    let i = key_pos(self.links@, k);
                    assert(key_pos(other.links@, k) == i);
                    assert(other.links@[i].id == self.links@[i].id);
                    assert(self.local(k) == Some(Self::link_record(self.links@[i])));
                    assert(other.local(k) == Some(Self::link_record(other.links@[i])));
                } else if has_key(self.hypergraphs@, k) {
                    let i = key_pos(self.hypergraphs@, k);
                    assert(key_pos(other.hypergraphs@, k) == i);
                    assert(other.hypergraphs@[i].id == self.hypergraphs@[i].id);
                    let a = self.hypergraphs@[i].graph;
                    let b = other.hypergraphs@[i].graph;
                    assert(b@ == shifted(a@, q));
                    a.lemma_root();
                    b.lemma_root();
                    assert(b@[Seq::empty()] == shifted_record(a@[Seq::empty()], q));
                    assert(b.value == a.value && b.next_id == a.next_id);
                    assert(self.local(k) == Some(Self::graph_record(self.hypergraphs@[i])));
                    assert(other.local(k) == Some(Self::graph_record(other.hypergraphs@[i])));
                    if p.len() >= 2 {
                        let rest = p.skip(1);
                        assert(a@.dom().contains(rest) == b@.dom().contains(rest));
                        if a@.dom().contains(rest) {
                            assert(b@[rest] == shifted_record(a@[rest], q));
                        }
                    }
                }
            }
        }
        assert(other@ =~= shifted(self@, q));
        Self::lemma_shifted_size(self.hypergraphs@, other.hypergraphs@, q);
    }

    /// Shifted nested hypergraphs hold as much as before.
    proof fn lemma_shifted_size(a: Seq<GraphSlot<N, E, H, L>>, b: Seq<GraphSlot<N, E, H, L>>, q: Seq<usize>)
        requires
            a.len() == b.len(),
            forall|j: int| 0 <= j < a.len() ==> (#[trigger] b[j]).graph.size() == a[j].graph.size(),
        ensures
            Self::nested_size(a) == Self::nested_size(b),
        decreases a.len(),
    {
        if a.len() > 0 {
            assert(b[b.len() - 1].graph.size() == a[a.len() - 1].graph.size());
            assert forall|j: int| 0 <= j < a.drop_last().len() implies (#[trigger] b.drop_last()[j]).graph.size()
                == a.drop_last()[j].graph.size() by {
                assert(b[j].graph.size() == a[j].graph.size());
            }
            Self::lemma_shifted_size(a.drop_last(), b.drop_last(), q);
        }
    }

    /// Puts `front` in front of every path that the hypergraph holds.
    #[verifier::loop_isolation(false)]
    fn shift_paths(&mut self, front: &[usize], Ghost(fuel): Ghost<nat>)
        requires
            old(self).wf(),
            old(self).size() <= fuel,
        ensures
            final(self).wf(),
            final(self)@ == shifted(old(self)@, front@),
            final(self).size() == old(self).size(),
        decreases fuel,
    {
        let ghost before = *self;
        let ghost q = front@;
        let mut i: usize = 0;
        while i < self.nodes.len()
            invariant
                i <= self.nodes@.len(),
                self.value == before.value,
                self.next_id == before.next_id,
                self.edges == before.edges,
                self.links == before.links,
                self.hypergraphs == before.hypergraphs,
                Self::nodes_shifted(before.nodes@, self.nodes@, q, i as int),
            decreases self.nodes@.len() - i,
        {
            let fresh = shift_links(&self.nodes[i].links, front);
            self.nodes[i].links = fresh;
            i += 1;
        }
        let mut i: usize = 0;
        while i < self.edges.len()
            invariant
                i <= self.edges@.len(),
                self.value == before.value,
                self.next_id == before.next_id,
                self.links == before.links,
                self.hypergraphs == before.hypergraphs,
                Self::nodes_shifted(before.nodes@, self.nodes@, q, before.nodes@.len() as int),
                Self::edges_shifted(before.edges@, self.edges@, q, i as int),
            decreases self.edges@.len() - i,
        {
            let fresh = shift_links(&self.edges[i].links, front);
            self.edges[i].links = fresh;
            i += 1;
        }
        let mut i: usize = 0;
        while i < self.links.len()
            invariant
                i <= self.links@.len(),
                self.value == before.value,
                self.next_id == before.next_id,
                self.hypergraphs == before.hypergraphs,
                Self::nodes_shifted(before.nodes@, self.nodes@, q, before.nodes@.len() as int),
                Self::edges_shifted(before.edges@, self.edges@, q, before.edges@.len() as int),
                Self::links_shifted(before.links@, self.links@, q, i as int),
            decreases self.links@.len() - i,
        {
            let source = join_paths(front, self.links[i].source.as_slice());
            let target = join_paths(front, self.links[i].target.as_slice());
            self.links[i].source = source;
            self.links[i].target = target;
            i += 1;
        }
        let mut i: usize = 0;
        proof {
            assert forall|j: int| 0 <= j < before.hypergraphs@.len() implies (
            #[trigger] self.hypergraphs@[j]).graph.wf() by {}
        }
        while i < self.hypergraphs.len()
            invariant
                i <= self.hypergraphs@.len(),
                self.value == before.value,
                self.next_id == before.next_id,
                Self::nodes_shifted(before.nodes@, self.nodes@, q, before.nodes@.len() as int),
                Self::edges_shifted(before.edges@, self.edges@, q, before.edges@.len() as int),
                Self::links_shifted(before.links@, self.links@, q, before.links@.len() as int),
                Self::graphs_shifted(before.hypergraphs@, self.hypergraphs@, q, i as int),
            decreases self.hypergraphs@.len() - i,
        {
            let fresh = shift_links(&self.hypergraphs[i].links, front);
            self.hypergraphs[i].links = fresh;
            proof {
                Self::lemma_nested_size_update(before.hypergraphs@, i as int, before.hypergraphs@[i as int]);
            }
            let inner = &mut self.hypergraphs[i].graph;
            inner.shift_paths(front, Ghost(inner.size()));
            i += 1;
        }
        proof {
            before.lemma_shifted(*self, q);
        }
    }

    /// Puts `location` in front of every path that the hypergraph holds: the
    /// links in its adjacency lists and the ends of its links, at every
    /// depth. The elements stay where they are, so that the rules for links
    /// hold again only once the hypergraph is stored under the path
    /// `location`.
    pub fn preappend_id(&mut self, location: &[usize])
        requires
            old(self).wf(),
        ensures
            final(self).wf(),
            final(self)@ == shifted(old(self)@, location@),
    {
        self.shift_paths(location, Ghost(self.size()))
    }

    /// Stores a hypergraph, as it is, under the next local id and returns
    /// that id.
    fn add_local_graph(&mut self, graph: Hypergraph<N, E, H, L, Sub>) -> (id: usize)
        requires
            old(self).wf(),
            graph.wf(),
            old(self)@[Seq::empty()].counter() < usize::MAX,
        ensures
            final(self).wf(),
            id == old(self)@[Seq::empty()].counter(),
            final(self)@ == planted(old(self)@, Seq::empty(), graph@),
    {
        let id = self.next_id;
        let ghost before = *self;
        let slot = GraphSlot { id, graph, links: Vec::new() };
        proof {
            before.lemma_root();
            Self::lemma_unused(before.nodes@, id);
            Self::lemma_unused(before.edges@, id);
            Self::lemma_unused(before.links@, id);
            Self::lemma_unused(before.hypergraphs@, id);
            lemma_slot_push(before.hypergraphs@, slot);
            assert(links_view(Seq::<(Vec<usize>, crate::direction::Direction)>::empty())
                =~= Seq::<crate::model::LinkRef>::empty());
        }
        self.hypergraphs.push(slot);
        self.next_id = id + 1;
        proof {
            let after = *self;
            let expected = planted(before@, Seq::empty(), graph@);
            let new = Seq::<usize>::empty().push(id);
            assert(new =~= seq![id]);
            before.lemma_frame(after, id);
            after.lemma_local(id);
            graph.lemma_root();
            assert(slot_of(after.hypergraphs@, id) == Some(slot));
            assert(after.local(id) == Some(graph.root()));
            assert(new.take(1) =~= new);
            assert forall|p: Seq<usize>|
                #![trigger after@.dom().contains(p)]
                #![trigger expected.dom().contains(p)]
                after@.dom().contains(p) == expected.dom().contains(p) && (after@.dom().contains(p) ==> after@[p]
                    == expected[p]) by {
                if p.len() == 0 {
                    assert(p =~= Seq::<usize>::empty());
                    assert(!is_prefix(new, p));
                } else if p[0] == id {
                    assert(p.take(1) =~= new);
                    assert(is_prefix(new, p));
                    if p.len() == 1 {
                        assert(p =~= new);
                        assert(p.skip(1) =~= Seq::<usize>::empty());
                    }
                    before.lemma_local_fresh(p);
                } else {
                    assert(p.take(1)[0] == p[0]);
                    assert(!is_prefix(new, p));
                }
            }
            assert(after@ =~= expected);
            assert(after.wf()) by {
                assert forall|i: int| 0 <= i < after.hypergraphs@.len() implies (
                #[trigger] after.hypergraphs@[i]).graph.wf() by {
                    if i < before.hypergraphs@.len() {
                        assert(before.hypergraphs@[i].graph.wf());
                    }
                }
                Self::lemma_bound_all(before, after);
            }
        }
        id
    }

    /// Nothing is stored under a path that starts with the counter.
    proof fn lemma_local_fresh(self, p: Seq<usize>)
        requires
            self.wf(),
            p.len() > 0,
            p[0] == self.next_id,
        ensures
            !self@.dom().contains(p),
    {
        Self::lemma_unused(self.nodes@, p[0]);
        Self::lemma_unused(self.edges@, p[0]);
        Self::lemma_unused(self.links@, p[0]);
        Self::lemma_unused(self.hypergraphs@, p[0]);
    }

    /// Stores a hypergraph, as it is, in the hypergraph `location` and
    /// returns the local id that it got there.
    fn plant_at(&mut self, location: &[usize], graph: Hypergraph<N, E, H, L, Sub>) -> (id: usize)
        requires
            old(self).wf(),
            graph.wf(),
            old(self)@.dom().contains(location@),
            old(self)@[location@] is Graph,
            old(self)@[location@].counter() < usize::MAX,
        ensures
            final(self).wf(),
            id == old(self)@[location@].counter(),
            final(self)@ == planted(old(self)@, location@, graph@),
    {
        let ghost m = self@;
        if location.len() == 0 {
            proof {
                assert(location@ =~= Seq::<usize>::empty());
            }
            self.add_local_graph(graph)
        } else {
            proof {
                assert(location@.skip(0) =~= location@);
                assert(location@ + Seq::<usize>::empty() =~= location@);
                lemma_graft_planted(m, location@, graph@);
            }
            let level = self.sub_mut(location, 0);
            level.add_local_graph(graph)
        }
    }
}

impl<N, E, H, L, Ty> Hypergraph<N, E, H, L, Ty> {
    /// Returns the local id that the next element added to the hypergraph
    /// `location` gets.
    pub(crate) fn next_local_id_in(&self, location: &[usize]) -> (r: usize)
        requires
            self.wf(),
            self@.dom().contains(location@),
            self@[location@] is Graph,
        ensures
            r == self@[location@].counter(),
    {
        if location.len() == 0 {
            proof {
                assert(location@ =~= Seq::<usize>::empty());
            }
            self.next_local_id()
        } else {
            proof {
                assert(location@.skip(0) =~= location@);
                assert(location@ + Seq::<usize>::empty() =~= location@);
            }
            let found = self.sub(location, 0);
            let level = found.unwrap();
            proof {
                level.lemma_root();
            }
            level.next_local_id()
        }
    }
}

impl<N, E, H, L> Hypergraph<N, E, H, L, Main> {
    /// Stores a copy of the hypergraph `other` in the hypergraph `location`
    /// and returns the path of the copy. What `other` holds lies under that
    /// path, with clones of the payloads, and every link of the copy starts
    /// and ends inside the copy as it does in `other`.
    ///
    /// # Errors
    ///
    /// `NoLocation` where `location` names no hypergraph; the structure is
    /// then left as it was.
    pub fn extend_from_hypegraph<Ty>(&mut self, other: &Hypergraph<N, E, H, L, Ty>, location: &[usize]) -> (r:
        Result<Vec<usize>, AddError>)
        where N: Clone, E: Clone, H: Clone, L: Clone, Ty: Clone
        requires
            old(self).inv(),
            other.inv(),
            has_room(old(self)@, location@, ElementType::Hypergraph),
        ensures
            final(self).inv(),
            match r {
                Ok(id) => {
                    &&& old(self)@.dom().contains(location@) && old(self)@[location@] is Graph
                    &&& id@ == location@.push(old(self)@[location@].counter())
                    &&& exists|c: Model<N, E, H, L>| #[trigger]
                        copy_of(other@, c) && final(self)@ == embedded(old(self)@, location@, c)
                },
                Err(e) => {
                    &&& !(old(self)@.dom().contains(location@) && old(self)@[location@] is Graph)
                    &&& e@ == AddRefusal::NoLocation(location@)
                    &&& *final(self) == *old(self)
                },
            },
    {
        let ghost m = self@;
        if !self.contains_hypergraph(location) {
            return Err(AddError::NoLocation(NoHypergraph(to_path(location))));
        }
        let k = self.next_local_id_in(location);
        let id = child_path(location, k);
        let copy = other.clone();
        let ghost c = copy@;
        let mut inner = copy.into_sub();
        inner.preappend_id(id.as_slice());
        let planted_at = self.plant_at(location, inner);
        proof {
            lemma_shape_consistent(other@, c, Set::empty());
            lemma_embedded_consistent(m, location@, c);
            assert(copy_of(other@, c) && self@ == embedded(m, location@, c));
        }
        Ok(id)
    }
}

} // verus!
