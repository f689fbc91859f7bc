//! Replacing payloads, and mutable access to payloads and to nested
//! hypergraphs.

use vstd::prelude::*;
use vstd::slice::slice_subrange;
use crate::elements::ElementValue;
use crate::errors::GetError;
use crate::errors::NoEdge;
use crate::errors::NoElement;
use crate::errors::NoHypergraph;
use crate::errors::NoLink;
use crate::errors::NoNode;
use crate::errors::RootHypergraph;
use crate::errors::SetError;
use crate::hypergraph::Hypergraph;
use crate::hypergraph::get::HypergraphEnum;
use crate::model::Record;
use crate::model::graft;
use crate::model::lemma_graft_insert;
use crate::model::lemma_graft_root;
use crate::model::lemma_graft_same;
use crate::model::lemma_payload_consistent;
use crate::model::lemma_subview_step;
use crate::model::placed;
use crate::model::same_but_payload;
use crate::model::subview;
use crate::path::parent;
use crate::path::to_path;
use crate::traits::Sub;

verus! {

impl<N, E, H, L, Ty> Hypergraph<N, E, H, L, Ty> {
    /// Gives mutable access to the payload of the node `id`.
    ///
    /// # Errors
    ///
    /// `NoNode` where `id` names no such element.
    pub fn node_value_mut(&mut self, id: &[usize]) -> (r: Result<&mut N, GetError>)
        requires
            old(self).wf(),
        ensures
            match r {
                Ok(v) => {
                    &&& old(self)@.dom().contains(id@) && old(self)@[id@] is Node
                    &&& *v == old(self)@[id@].node_value()
                    &&& final(self).wf()
                    &&& old(self).inv() ==> final(self).inv()
                    &&& final(self).size() == old(self).size()
                    &&& final(self)@ == old(self)@.insert(
                        id@,
                        Record::Node { value: *final(v), links: old(self)@[id@].adjacency() },
                    )
                },
                Err(e) => {
                    &&& !(old(self)@.dom().contains(id@) && old(self)@[id@] is Node)
                    &&& e is NoNode && e.path() == id@
                    &&& *final(self) == *old(self)
                },
            },
    {
        if !self.contains_node(id) {
            return Err(GetError::NoNode(NoNode(to_path(id))));
        }
        let ghost m = self@;
        proof {
            self.lemma_root();
            if id@.len() == 0 {
                assert(id@ =~= Seq::<usize>::empty());
            }
            assert forall|rec: Record<N, E, H, L>|
                self.inv() && same_but_payload(m[id@], rec) implies crate::model::consistent(
                #[trigger] m.insert(id@, rec),
            ) by {
                lemma_payload_consistent(m, Set::empty(), id@, rec);
            }
        }
        let n = id.len() - 1;
        let last = id[n];
        proof {
            self.lemma_tree_shaped();
            assert(id@ =~= parent(id@).push(last));
            assert(placed(m, id@));
            lemma_subview_step(m, parent(id@), last);
        }
        if n == 0 {
            proof {
                assert(id@ =~= seq![last]);
            }
            Ok(self.local_node_value_mut(last))
        } else {
            let loc = slice_subrange(id, 0, n);
            proof {
                assert(loc@ =~= parent(id@));
                assert(loc@.skip(0) =~= loc@);
                assert(loc@ + seq![last] =~= id@);
                lemma_graft_same(m, loc@);
                assert forall|rec: Record<N, E, H, L>|
                    graft(m, loc@, #[trigger] subview(m, loc@).insert(seq![last], rec)) == m.insert(id@, rec) by {
                    lemma_graft_insert(m, loc@, subview(m, loc@), seq![last], rec);
                }
            }
            let level = self.sub_mut(loc, 0);
            Ok(level.local_node_value_mut(last))
        }
    }

    /// Gives mutable access to the payload of the hyperedge `id`.
    ///
    /// # Errors
    ///
    /// `NoEdge` where `id` names no such element.
    pub fn edge_value_mut(&mut self, id: &[usize]) -> (r: Result<&mut E, GetError>)
        requires
            old(self).wf(),
        ensures
            match r {
                Ok(v) => {
                    &&& old(self)@.dom().contains(id@) && old(self)@[id@] is Edge
                    &&& *v == old(self)@[id@].edge_value()
                    &&& final(self).wf()
                    &&& old(self).inv() ==> final(self).inv()
                    &&& final(self).size() == old(self).size()
                    &&& final(self)@ == old(self)@.insert(
                        id@,
                        Record::Edge { value: *final(v), links: old(self)@[id@].adjacency() },
                    )
                },
                Err(e) => {
                    &&& !(old(self)@.dom().contains(id@) && old(self)@[id@] is Edge)
                    &&& e is NoEdge && e.path() == id@
                    &&& *final(self) == *old(self)
                },
            },
    {
        if !self.contains_edge(id) {
            return Err(GetError::NoEdge(NoEdge(to_path(id))));
        }
        let ghost m = self@;
        proof {
            self.lemma_root();
            if id@.len() == 0 {
                assert(id@ =~= Seq::<usize>::empty());
            }
            assert forall|rec: Record<N, E, H, L>|
                self.inv() && same_but_payload(m[id@], rec) implies crate::model::consistent(
                #[trigger] m.insert(id@, rec),
            ) by {
                lemma_payload_consistent(m, Set::empty(), id@, rec);
            }
        }
        let n = id.len() - 1;
        let last = id[n];
        proof {
            self.lemma_tree_shaped();
            assert(id@ =~= parent(id@).push(last));
            assert(placed(m, id@));
            lemma_subview_step(m, parent(id@), last);
        }
        if n == 0 {
            proof {
                assert(id@ =~= seq![last]);
            }
            Ok(self.local_edge_value_mut(last))
        } else {
            let loc = slice_subrange(id, 0, n);
            proof {
                assert(loc@ =~= parent(id@));
                assert(loc@.skip(0) =~= loc@);
                assert(loc@ + seq![last] =~= id@);
                lemma_graft_same(m, loc@);
                assert forall|rec: Record<N, E, H, L>|
                    graft(m, loc@, #[trigger] subview(m, loc@).insert(seq![last], rec)) == m.insert(id@, rec) by {
                    lemma_graft_insert(m, loc@, subview(m, loc@), seq![last], rec);
                }
            }
            let level = self.sub_mut(loc, 0);
            Ok(level.local_edge_value_mut(last))
        }
    }

    /// Gives mutable access to the payload of the link `id`.
    ///
    /// # Errors
    ///
    /// `NoLink` where `id` names no such element.
    pub fn link_value_mut(&mut self, id: &[usize]) -> (r: Result<&mut Option<L>, GetError>)
        requires
            old(self).wf(),
        ensures
            match r {
                Ok(v) => {
                    &&& old(self)@.dom().contains(id@) && old(self)@[id@] is Link
                    &&& *v == old(self)@[id@].link_value()
                    &&& final(self).wf()
                    &&& old(self).inv() ==> final(self).inv()
                    &&& final(self).size() == old(self).size()
                    &&& final(self)@ == old(self)@.insert(id@, (Record::<N, E, H, L>::Link {
                        value: *final(v),
                        source: old(self)@[id@].source(),
                        target: old(self)@[id@].target(),
                    }))
                },
                Err(e) => {
                    &&& !(old(self)@.dom().contains(id@) && old(self)@[id@] is Link)
                    &&& e is NoLink && e.path() == id@
                    &&& *final(self) == *old(self)
                },
            },
    {
        if !self.contains_link(id) {
            return Err(GetError::NoLink(NoLink(to_path(id))));
        }
        let ghost m = self@;
        proof {
            self.lemma_root();
            if id@.len() == 0 {
                assert(id@ =~= Seq::<usize>::empty());
            }
            assert forall|rec: Record<N, E, H, L>|
                self.inv() && same_but_payload(m[id@], rec) implies crate::model::consistent(
                #[trigger] m.insert(id@, rec),
            ) by {
                lemma_payload_consistent(m, Set::empty(), id@, rec);
            }
        }
        let n = id.len() - 1;
        let last = id[n];
        proof {
            self.lemma_tree_shaped();
            assert(id@ =~= parent(id@).push(last));
            assert(placed(m, id@));
            lemma_subview_step(m, parent(id@), last);
        }
        if n == 0 {
            proof {
                assert(id@ =~= seq![last]);
            }
            Ok(self.local_link_value_mut(last))
        } else {
            let loc = slice_subrange(id, 0, n);
            proof {
                assert(loc@ =~= parent(id@));
                assert(loc@.skip(0) =~= loc@);
                assert(loc@ + seq![last] =~= id@);
                lemma_graft_same(m, loc@);
                assert forall|rec: Record<N, E, H, L>|
                    graft(m, loc@, #[trigger] subview(m, loc@).insert(seq![last], rec)) == m.insert(id@, rec) by {
                    lemma_graft_insert(m, loc@, subview(m, loc@), seq![last], rec);
                }
            }
            let level = self.sub_mut(loc, 0);
            Ok(level.local_link_value_mut(last))
        }
    }

    /// Gives mutable access to the payload of the hypergraph `id`; the empty
    /// path names the hypergraph itself.
    ///
    /// # Errors
    ///
    /// `NoHypergraph` where `id` names no hypergraph.
    pub fn hypergraph_value_mut(&mut self, id: &[usize]) -> (r: Result<&mut Option<H>, GetError>)
        requires
            old(self).wf(),
        ensures
            match r {
                Ok(v) => {
                    &&& old(self)@.dom().contains(id@) && old(self)@[id@] is Graph
                    &&& *v == old(self)@[id@].graph_value()
                    &&& final(self).wf()
                    &&& old(self).inv() ==> final(self).inv()
                    &&& final(self).size() == old(self).size()
                    &&& final(self)@ == old(self)@.insert(
                        id@,
                        Record::Graph {
                            value: *final(v),
                            links: old(self)@[id@].adjacency(),
                            next_id: old(self)@[id@].counter(),
                        },
                    )
                },
                Err(e) => {
                    &&& !(old(self)@.dom().contains(id@) && old(self)@[id@] is Graph)
                    &&& e is NoHypergraph && e.path() == id@
                    &&& *final(self) == *old(self)
                },
            },
    {
        if !self.contains_hypergraph(id) {
            return Err(GetError::NoHypergraph(NoHypergraph(to_path(id))));
        }
        let ghost m = self@;
        proof {
            assert forall|rec: Record<N, E, H, L>|
                self.inv() && same_but_payload(m[id@], rec) implies crate::model::consistent(
                #[trigger] m.insert(id@, rec),
            ) by {
                lemma_payload_consistent(m, Set::empty(), id@, rec);
            }
        }
        if id.len() == 0 {
            proof {
                self.lemma_root();
                assert(id@ =~= Seq::<usize>::empty());
            }
            Ok(self.value_mut())
        } else {
            proof {
                assert(id@.skip(0) =~= id@);
                lemma_graft_same(m, id@);
                assert(id@ + Seq::<usize>::empty() =~= id@);
                assert forall|rec: Record<N, E, H, L>|
                    graft(m, id@, #[trigger] subview(m, id@).insert(Seq::empty(), rec)) == m.insert(
                        id@,
                        rec.with_adjacency(m[id@].adjacency()),
                    ) by {
                    lemma_graft_root(m, id@, subview(m, id@), rec);
                }
            }
            let level = self.sub_mut(id, 0);
            Ok(level.value_mut())
        }
    }

    /// Replaces the payload of the node `id` and returns the payload that it had.
    ///
    /// # Errors
    ///
    /// `NoNode` where `id` names no such element; the structure is then left as
    /// it was.
    pub fn set_node_value(&mut self, id: &[usize], new_value: N) -> (r: Result<N, SetError>)
        requires
            old(self).wf(),
        ensures
            final(self).wf(),
            old(self).inv() ==> final(self).inv(),
            match r {
                Ok(v) => {
                    &&& old(self)@.dom().contains(id@) && old(self)@[id@] is Node
                    &&& v == old(self)@[id@].node_value()
                    &&& final(self)@ == old(self)@.insert(
                        id@,
                        Record::Node { value: new_value, links: old(self)@[id@].adjacency() },
                    )
                },
                Err(e) => {
                    &&& !(old(self)@.dom().contains(id@) && old(self)@[id@] is Node)
                    &&& e is NoNode && e.path() == id@
                    &&& *final(self) == *old(self)
                },
            },
    {
        match self.node_value_mut(id) {
            Ok(slot) => {
                let mut value = new_value;
                std::mem::swap(slot, &mut value);
                Ok(value)
            },
            Err(_) => Err(SetError::NoNode(NoNode(to_path(id)))),
        }
    }

    /// Replaces the payload of the hyperedge `id` and returns the payload that it had.
    ///
    /// # Errors
    ///
    /// `NoEdge` where `id` names no such element; the structure is then left as
    /// it was.
    pub fn set_edge_value(&mut self, id: &[usize], new_value: E) -> (r: Result<E, SetError>)
        requires
            old(self).wf(),
        ensures
            final(self).wf(),
            old(self).inv() ==> final(self).inv(),
            match r {
                Ok(v) => {
                    &&& old(self)@.dom().contains(id@) && old(self)@[id@] is Edge
                    &&& v == old(self)@[id@].edge_value()
                    &&& final(self)@ == old(self)@.insert(
                        id@,
                        Record::Edge { value: new_value, links: old(self)@[id@].adjacency() },
                    )
                },
                Err(e) => {
                    &&& !(old(self)@.dom().contains(id@) && old(self)@[id@] is Edge)
                    &&& e is NoEdge && e.path() == id@
                    &&& *final(self) == *old(self)
                },
            },
    {
        match self.edge_value_mut(id) {
            Ok(slot) => {
                let mut value = new_value;
                std::mem::swap(slot, &mut value);
                Ok(value)
            },
            Err(_) => Err(SetError::NoEdge(NoEdge(to_path(id)))),
        }
    }

    /// Replaces the payload of the link `id` and returns the payload that it had.
    ///
    /// # Errors
    ///
    /// `NoLink` where `id` names no such element; the structure is then left as
    /// it was.
    pub fn set_link_value(&mut self, id: &[usize], new_value: Option<L>) -> (r: Result<Option<L>, SetError>)
        requires
            old(self).wf(),
        ensures
            final(self).wf(),
            old(self).inv() ==> final(self).inv(),
            match r {
                Ok(v) => {
                    &&& old(self)@.dom().contains(id@) && old(self)@[id@] is Link
                    &&& v == old(self)@[id@].link_value()
                    &&& final(self)@ == old(self)@.insert(id@, (Record::<N, E, H, L>::Link {
                        value: new_value,
                        source: old(self)@[id@].source(),
                        target: old(self)@[id@].target(),
                    }))
                },
                Err(e) => {
                    &&& !(old(self)@.dom().contains(id@) && old(self)@[id@] is Link)
                    &&& e is NoLink && e.path() == id@
                    &&& *final(self) == *old(self)
                },
            },
    {
        match self.link_value_mut(id) {
            Ok(slot) => {
                let mut value = new_value;
                std::mem::swap(slot, &mut value);
                Ok(value)
            },
            Err(_) => Err(SetError::NoLink(NoLink(to_path(id)))),
        }
    }

    /// Replaces the payload of the hypergraph `id` and returns the payload
    /// that it had; the empty path names the hypergraph itself.
    ///
    /// # Errors
    ///
    /// `NoHypergraph` where `id` names no hypergraph; the structure is then
    /// left as it was.
    pub fn set_hypergraph_value(&mut self, id: &[usize], new_value: Option<H>) -> (r: Result<Option<H>, SetError>)
        requires
            old(self).wf(),
        ensures
            final(self).wf(),
            old(self).inv() ==> final(self).inv(),
            match r {
                Ok(v) => {
                    &&& old(self)@.dom().contains(id@) && old(self)@[id@] is Graph
                    &&& v == old(self)@[id@].graph_value()
                    &&& final(self)@ == old(self)@.insert(
                        id@,
                        Record::Graph {
                            value: new_value,
                            links: old(self)@[id@].adjacency(),
                            next_id: old(self)@[id@].counter(),
                        },
                    )
                },
                Err(e) => {
                    &&& !(old(self)@.dom().contains(id@) && old(self)@[id@] is Graph)
                    &&& e is NoHypergraph && e.path() == id@
                    &&& *final(self) == *old(self)
                },
            },
    {
        match self.hypergraph_value_mut(id) {
            Ok(slot) => {
                let mut value = new_value;
                std::mem::swap(slot, &mut value);
                Ok(value)
            },
            Err(_) => Err(SetError::NoHypergraph(NoHypergraph(to_path(id)))),
        }
    }

    /// Gives mutable access to the payload of the element `id`, tagged with
    /// the kind of the element. Where a link or a hypergraph has no payload,
    /// there is nothing to change through the result.
    ///
    /// # Errors
    ///
    /// `NoElement` where there is no such element.
    pub fn element_value_mut(&mut self, id: &[usize]) -> (r: Result<
        ElementValue<&mut N, &mut E, &mut H, &mut L>,
        GetError,
    >)
        requires
            old(self).wf(),
        ensures
            match r {
                Ok(ElementValue::Node { value }) => {
                    &&& old(self)@.dom().contains(id@) && old(self)@[id@] is Node
                    &&& *value == old(self)@[id@].node_value()
                    &&& final(self).wf()
                    &&& old(self).inv() ==> final(self).inv()
                    &&& final(self)@ == old(self)@.insert(
                        id@,
                        Record::Node { value: *final(value), links: old(self)@[id@].adjacency() },
                    )
                },
                Ok(ElementValue::Edge { value }) => {
                    &&& old(self)@.dom().contains(id@) && old(self)@[id@] is Edge
                    &&& *value == old(self)@[id@].edge_value()
                    &&& final(self).wf()
                    &&& old(self).inv() ==> final(self).inv()
                    &&& final(self)@ == old(self)@.insert(
                        id@,
                        Record::Edge { value: *final(value), links: old(self)@[id@].adjacency() },
                    )
                },
                Ok(ElementValue::Link { value: Some(value) }) => {
                    &&& old(self)@.dom().contains(id@) && old(self)@[id@] is Link
                    &&& Some(*value) == old(self)@[id@].link_value()
                    &&& final(self).wf()
                    &&& old(self).inv() ==> final(self).inv()
                    &&& final(self)@ == old(self)@.insert(
                        id@,
                        Record::Link {
                            value: Some(*final(value)),
                            source: old(self)@[id@].source(),
                            target: old(self)@[id@].target(),
                        },
                    )
                },
                Ok(ElementValue::Link { value: None }) => {
                    &&& old(self)@.dom().contains(id@) && old(self)@[id@] is Link
                    &&& old(self)@[id@].link_value() is None
                    &&& final(self).wf()
                    &&& old(self).inv() ==> final(self).inv()
                    &&& final(self)@ == old(self)@
                },
                Ok(ElementValue::Hypergraph { value: Some(value) }) => {
                    &&& old(self)@.dom().contains(id@) && old(self)@[id@] is Graph
                    &&& Some(*value) == old(self)@[id@].graph_value()
                    &&& final(self).wf()
                    &&& old(self).inv() ==> final(self).inv()
                    &&& final(self)@ == old(self)@.insert(
                        id@,
                        Record::Graph {
                            value: Some(*final(value)),
                            links: old(self)@[id@].adjacency(),
                            next_id: old(self)@[id@].counter(),
                        },
                    )
                },
                Ok(ElementValue::Hypergraph { value: None }) => {
                    &&& old(self)@.dom().contains(id@) && old(self)@[id@] is Graph
                    &&& old(self)@[id@].graph_value() is None
                    &&& final(self).wf()
                    &&& old(self).inv() ==> final(self).inv()
                    &&& final(self)@ == old(self)@
                },
                Err(e) => {
                    &&& !old(self)@.dom().contains(id@)
                    &&& e is NoElement && e.path() == id@
                    &&& *final(self) == *old(self)
                },
            },
    {
        let ghost m = self@;
        match self.kind_of(id) {
            None => Err(GetError::NoElement(NoElement(to_path(id)))),
            Some(crate::elements::ElementType::Node) => {
                match self.node_value_mut(id) {
                    Ok(value) => Ok(ElementValue::Node { value }),
                    Err(e) => Err(e),
                }
            },
            Some(crate::elements::ElementType::Edge) => {
                match self.edge_value_mut(id) {
                    Ok(value) => Ok(ElementValue::Edge { value }),
                    Err(e) => Err(e),
                }
            },
            Some(crate::elements::ElementType::Link) => {
                proof {
                    assert(m.insert(id@, m[id@]) =~= m);
                }
                match self.link_value_mut(id) {
                    Ok(value) => Ok(ElementValue::Link { value: value.as_mut() }),
                    Err(e) => Err(e),
                }
            },
            Some(crate::elements::ElementType::Hypergraph) => {
                proof {
                    assert(m.insert(id@, m[id@]) =~= m);
                }
                match self.hypergraph_value_mut(id) {
                    Ok(value) => Ok(ElementValue::Hypergraph { value: value.as_mut() }),
                    Err(e) => Err(e),
                }
            },
        }
    }

    /// Gives mutable access to the nested hypergraph `id`. What is changed
    /// through the result is grafted into the model of the whole.
    ///
    /// # Errors
    ///
    /// `RootHypergraph` for the empty path; else `NoHypergraph` with the
    /// shortest initial part of `id` that names no hypergraph.
    pub fn subhypergraph_mut(&mut self, id: &[usize]) -> (r: Result<&mut Hypergraph<N, E, H, L, Sub>, GetError>)
        requires
            old(self).wf(),
        ensures
            match r {
                Ok(g) => {
                    &&& id@.len() > 0
                    &&& old(self)@.dom().contains(id@) && old(self)@[id@] is Graph
                    &&& g.wf()
                    &&& g@ == subview(old(self)@, id@)
                    &&& final(g).wf() ==> final(self).wf()
                    &&& final(self)@ == graft(old(self)@, id@, final(g)@)
                },
                Err(GetError::RootHypergraph(_)) => id@.len() == 0 && *final(self) == *old(self),
                Err(GetError::NoHypergraph(x)) => {
                    &&& *final(self) == *old(self)
                    &&& 0 < x.0@.len() <= id@.len()
                    &&& x.0@ == id@.take(x.0@.len() as int)
                    &&& !(old(self)@.dom().contains(x.0@) && old(self)@[x.0@] is Graph)
                    &&& forall|k: int|
                        0 <= k < x.0@.len() ==> old(self)@.dom().contains(#[trigger] id@.take(k)) && old(
                            self,
                        )@[id@.take(k)] is Graph
                },
                Err(_) => false,
            },
    {
        match self.subhypergraph(id) {
            Err(e) => {
                return Err(e);
            },
            Ok(_) => {},
        }
        proof {
            assert(id@.skip(0) =~= id@);
        }
        Ok(self.sub_mut(id, 0))
    }

    /// Gives mutable access to the hypergraph `id`: this one for the empty
    /// path, else a nested one.
    ///
    /// # Errors
    ///
    /// `NoHypergraph` with the shortest initial part of `id` that names no
    /// hypergraph.
    pub fn hypergraph_mut(&mut self, id: &[usize]) -> (r: Result<
        HypergraphEnum<&mut Self, &mut Hypergraph<N, E, H, L, Sub>>,
        GetError,
    >)
        requires
            old(self).wf(),
        ensures
            match r {
                Ok(HypergraphEnum::Original(g)) => {
                    &&& id@.len() == 0
                    &&& *g == *old(self)
                    &&& *final(self) == *final(g)
                },
                Ok(HypergraphEnum::Sub(g)) => {
                    &&& id@.len() > 0
                    &&& old(self)@.dom().contains(id@) && old(self)@[id@] is Graph
                    &&& g.wf()
                    &&& g@ == subview(old(self)@, id@)
                    &&& final(g).wf() ==> final(self).wf()
                    &&& final(self)@ == graft(old(self)@, id@, final(g)@)
                },
                Err(GetError::NoHypergraph(x)) => {
                    &&& *final(self) == *old(self)
                    &&& 0 < x.0@.len() <= id@.len()
                    &&& x.0@ == id@.take(x.0@.len() as int)
                    &&& !(old(self)@.dom().contains(x.0@) && old(self)@[x.0@] is Graph)
                    &&& forall|k: int|
                        0 <= k < x.0@.len() ==> old(self)@.dom().contains(#[trigger] id@.take(k)) && old(
                            self,
                        )@[id@.take(k)] is Graph
                },
                Err(_) => false,
            },
    {
        if id.len() == 0 {
            return Ok(HypergraphEnum::Original(self));
        }
        match self.subhypergraph_mut(id) {
            Ok(g) => Ok(HypergraphEnum::Sub(g)),
            Err(e) => Err(e),
        }
    }

    /// Gives mutable access to the hypergraph that holds the element `id`:
    /// the one named by `id` without its last entry.
    ///
    /// # Errors
    ///
    /// `RootHypergraph` for the empty path; else `NoHypergraph` with the
    /// shortest initial part of `id` that names no hypergraph.
    pub fn hypergraph_of_mut(&mut self, id: &[usize]) -> (r: Result<
        HypergraphEnum<&mut Self, &mut Hypergraph<N, E, H, L, Sub>>,
        GetError,
    >)
        requires
            old(self).wf(),
        ensures
            match r {
                Ok(HypergraphEnum::Original(g)) => {
                    &&& id@.len() == 1
                    &&& *g == *old(self)
                    &&& *final(self) == *final(g)
                },
                Ok(HypergraphEnum::Sub(g)) => {
                    &&& id@.len() > 1
                    &&& old(self)@.dom().contains(parent(id@)) && old(self)@[parent(id@)] is Graph
                    &&& g.wf()
                    &&& g@ == subview(old(self)@, parent(id@))
                    &&& final(g).wf() ==> final(self).wf()
                    &&& final(self)@ == graft(old(self)@, parent(id@), final(g)@)
                },
                Err(GetError::RootHypergraph(_)) => id@.len() == 0 && *final(self) == *old(self),
                Err(GetError::NoHypergraph(x)) => {
                    &&& *final(self) == *old(self)
                    &&& 0 < x.0@.len() < id@.len()
                    &&& x.0@ == id@.take(x.0@.len() as int)
                    &&& !(old(self)@.dom().contains(x.0@) && old(self)@[x.0@] is Graph)
                    &&& forall|k: int|
                        0 <= k < x.0@.len() ==> old(self)@.dom().contains(#[trigger] id@.take(k)) && old(
                            self,
                        )@[id@.take(k)] is Graph
                },
                Err(_) => false,
            },
    {
        if id.len() == 0 {
            return Err(GetError::RootHypergraph(RootHypergraph));
        }
        let loc = slice_subrange(id, 0, id.len() - 1);
        proof {
            assert(loc@ =~= parent(id@));
            assert forall|k: int| 0 <= k <= loc@.len() implies loc@.take(k) == #[trigger] id@.take(k) by {
                assert(loc@.take(k) =~= id@.take(k));
            }
        }
        self.hypergraph_mut(loc)
    }

    /// Replaces the payload of the hypergraph as a whole and returns the
    /// payload that it had.
    pub fn set_value(&mut self, new_value: Option<H>) -> (r: Option<H>)
        requires
            old(self).wf(),
        ensures
            final(self).wf(),
            old(self).inv() ==> final(self).inv(),
            r == old(self)@[Seq::empty()].graph_value(),
            final(self)@ == old(self)@.insert(
                Seq::empty(),
                Record::Graph {
                    value: new_value,
                    links: Seq::empty(),
                    next_id: old(self)@[Seq::empty()].counter(),
                },
            ),
    {
        let mut value = new_value;
        let ghost m = self@;
        proof {
            self.lemma_root();
            assert forall|rec: Record<N, E, H, L>|
                self.inv() && same_but_payload(m[Seq::empty()], rec) implies crate::model::consistent(
                #[trigger] m.insert(Seq::empty(), rec),
            ) by {
                lemma_payload_consistent(m, Set::empty(), Seq::empty(), rec);
            }
        }
        let slot = self.value_mut();
        std::mem::swap(slot, &mut value);
        value
    }

    /// Replaces the payload of the element `id` by a payload of the same
    /// kind and returns the payload that it had.
    ///
    /// # Errors
    ///
    /// `NoNode`, `NoEdge`, `NoLink` or `NoHypergraph`, by the kind of
    /// `new_value`, where `id` names no element of that kind; the structure
    /// is then left as it was.
    pub fn set_element_value(&mut self, id: &[usize], new_value: ElementValue<N, E, H, L>) -> (r: Result<
        ElementValue<N, E, H, L>,
        SetError,
    >)
        requires
            old(self).wf(),
        ensures
            final(self).wf(),
            old(self).inv() ==> final(self).inv(),
            match r {
                Ok(v) => {
                    &&& old(self)@.dom().contains(id@) && old(self)@[id@].kind() == new_value.kind()
                    &&& v == old(self)@[id@].payload()
                    &&& final(self)@ == old(self)@.insert(id@, old(self)@[id@].with_payload(new_value))
                },
                Err(e) => {
                    &&& !(old(self)@.dom().contains(id@) && old(self)@[id@].kind() == new_value.kind())
                    &&& e.path() == id@
                    &&& match new_value {
                        ElementValue::Node { .. } => e is NoNode,
                        ElementValue::Edge { .. } => e is NoEdge,
                        ElementValue::Link { .. } => e is NoLink,
                        ElementValue::Hypergraph { .. } => e is NoHypergraph,
                    }
                    &&& *final(self) == *old(self)
                },
            },
    {
        match new_value {
            ElementValue::Edge { value } => {
                match self.set_edge_value(id, value) {
                    Ok(v) => Ok(ElementValue::Edge { value: v }),
                    Err(e) => Err(e),
                }
            },
            ElementValue::Hypergraph { value } => {
                match self.set_hypergraph_value(id, value) {
                    Ok(v) => Ok(ElementValue::Hypergraph { value: v }),
                    Err(e) => Err(e),
                }
            },
            ElementValue::Link { value } => {
                match self.set_link_value(id, value) {
                    Ok(v) => Ok(ElementValue::Link { value: v }),
                    Err(e) => Err(e),
                }
            },
            ElementValue::Node { value } => {
                match self.set_node_value(id, value) {
                    Ok(v) => Ok(ElementValue::Node { value: v }),
                    Err(e) => Err(e),
                }
            },
        }
    }
}

} // verus!
