//! Reading a hypergraph: what it contains, the kind and payload of an
//! element, its links, and the hypergraphs nested in it.

use vstd::prelude::*;
use vstd::slice::slice_subrange;
use crate::direction::Direction;
use crate::elements::ElementType;
use crate::elements::ElementValue;
use crate::errors::GetError;
use crate::errors::NoEdge;
use crate::errors::NoElement;
use crate::errors::NoElementLinkable;
use crate::errors::NoHypergraph;
use crate::errors::NoLink;
use crate::errors::NoNode;
use crate::errors::RootHypergraph;
use crate::hypergraph::GraphSlot;
use crate::hypergraph::Hypergraph;
use crate::model::Record;
use crate::model::lemma_subview_step;
use crate::model::placed;
use crate::model::subview;
use crate::path::parent;
use crate::path::to_path;
use crate::slots::EdgeSlot;
use crate::slots::LinkSlot;
use crate::slots::NodeSlot;
use crate::slots::links_view;
use crate::traits::Sub;

verus! {

impl<N, E, H, L, Ty> Hypergraph<N, E, H, L, Ty> {
    /// Finds a node by its path.
    pub(crate) fn find_node(&self, id: &[usize]) -> (r: Option<&NodeSlot<N>>)
        requires
            self.wf(),
        ensures
            match r {
                Some(s) => self@.dom().contains(id@) && self@[id@] == (Record::<N, E, H, L>::Node {
                    value: s.value,
                    links: links_view(s.links@),
                }) && s.id == id@.last(),
                None => !(self@.dom().contains(id@) && self@[id@] is Node),
            },
    {
        if id.len() == 0 {
            proof {
                self.lemma_root();
                assert(id@ =~= Seq::<usize>::empty());
            }
            return None;
        }
        let n = id.len() - 1;
        let last = id[n];
        proof {
            self.lemma_tree_shaped();
            assert(id@ =~= parent(id@).push(last));
            assert(id@.last() == last);
            if self@.dom().contains(id@) {
                assert(placed(self@, id@));
            }
            lemma_subview_step(self@, parent(id@), last);
        }
        if n == 0 {
            proof {
                assert(id@ =~= seq![last]);
            }
            self.local_node(last)
        } else {
            let loc = slice_subrange(id, 0, n);
            proof {
                assert(loc@ =~= parent(id@));
                assert(loc@.skip(0) =~= loc@);
            }
            match self.sub(loc, 0) {
                None => None,
                Some(g) => g.local_node(last),
            }
        }
    }

    /// Finds a hyperedge by its path.
    pub(crate) fn find_edge(&self, id: &[usize]) -> (r: Option<&EdgeSlot<E>>)
        requires
            self.wf(),
        ensures
            match r {
                Some(s) => self@.dom().contains(id@) && self@[id@] == (Record::<N, E, H, L>::Edge {
                    value: s.value,
                    links: links_view(s.links@),
                }) && s.id == id@.last(),
                None => !(self@.dom().contains(id@) && self@[id@] is Edge),
            },
    {
        if id.len() == 0 {
            proof {
                self.lemma_root();
                assert(id@ =~= Seq::<usize>::empty());
            }
            return None;
        }
        let n = id.len() - 1;
        let last = id[n];
        proof {
            self.lemma_tree_shaped();
            assert(id@ =~= parent(id@).push(last));
            assert(id@.last() == last);
            if self@.dom().contains(id@) {
                assert(placed(self@, id@));
            }
            lemma_subview_step(self@, parent(id@), last);
        }
        if n == 0 {
            proof {
                assert(id@ =~= seq![last]);
            }
            self.local_edge(last)
        } else {
            let loc = slice_subrange(id, 0, n);
            proof {
                assert(loc@ =~= parent(id@));
                assert(loc@.skip(0) =~= loc@);
            }
            match self.sub(loc, 0) {
                None => None,
                Some(g) => g.local_edge(last),
            }
        }
    }

    /// Finds a link by its path.
    pub(crate) fn find_link(&self, id: &[usize]) -> (r: Option<&LinkSlot<L>>)
        requires
            self.wf(),
        ensures
            match r {
                Some(s) => self@.dom().contains(id@) && self@[id@] == (Record::<N, E, H, L>::Link {
                    value: s.value,
                    source: s.source@,
                    target: s.target@,
                }) && s.id == id@.last(),
                None => !(self@.dom().contains(id@) && self@[id@] is Link),
            },
    {
        if id.len() == 0 {
            proof {
                self.lemma_root();
                assert(id@ =~= Seq::<usize>::empty());
            }
            return None;
        }
        let n = id.len() - 1;
        let last = id[n];
        proof {
            self.lemma_tree_shaped();
            assert(id@ =~= parent(id@).push(last));
            assert(id@.last() == last);
            if self@.dom().contains(id@) {
                assert(placed(self@, id@));
            }
            lemma_subview_step(self@, parent(id@), last);
        }
        if n == 0 {
            proof {
                assert(id@ =~= seq![last]);
            }
            self.local_link(last)
        } else {
            let loc = slice_subrange(id, 0, n);
            proof {
                assert(loc@ =~= parent(id@));
                assert(loc@.skip(0) =~= loc@);
            }
            match self.sub(loc, 0) {
                None => None,
                Some(g) => g.local_link(last),
            }
        }
    }

    /// Finds a nested hypergraph, as it is stored, by its path. The root is
    /// stored nowhere and is not found.
    pub(crate) fn find_graph(&self, id: &[usize]) -> (r: Option<&GraphSlot<N, E, H, L>>)
        requires
            self.wf(),
        ensures
            match r {
                Some(s) => {
                    &&& id@.len() > 0
                    &&& self@.dom().contains(id@)
                    &&& self@[id@] is Graph
                    &&& self@[id@].adjacency() == links_view(s.links@)
                    &&& s.graph.wf()
                    &&& s.graph@ == subview(self@, id@)
                    &&& s.id == id@.last()
                },
                None => !(id@.len() > 0 && self@.dom().contains(id@) && self@[id@] is Graph),
            },
    {
        if id.len() == 0 {
            return None;
        }
        let n = id.len() - 1;
        let last = id[n];
        proof {
            self.lemma_tree_shaped();
            assert(id@ =~= parent(id@).push(last));
            assert(id@.last() == last);
            if self@.dom().contains(id@) {
                assert(placed(self@, id@));
            }
            lemma_subview_step(self@, parent(id@), last);
        }
        if n == 0 {
            proof {
                assert(id@ =~= seq![last]);
            }
            self.local_graph(last)
        } else {
            let loc = slice_subrange(id, 0, n);
            proof {
                assert(loc@ =~= parent(id@));
                assert(loc@.skip(0) =~= loc@);
            }
            match self.sub(loc, 0) {
                None => None,
                Some(g) => g.local_graph(last),
            }
        }
    }

    /// Returns the kind of the element with path `id`, if there is one. The
    /// empty path names the hypergraph itself.
    pub(crate) fn kind_of(&self, id: &[usize]) -> (r: Option<ElementType>)
        requires
            self.wf(),
        ensures
            r == (if self@.dom().contains(id@) {
                Some(self@[id@].kind())
            } else {
                None
            }),
    {
        if id.len() == 0 {
            proof {
                self.lemma_root();
                assert(id@ =~= Seq::<usize>::empty());
            }
            return Some(ElementType::Hypergraph);
        }
        let n = id.len() - 1;
        let last = id[n];
        proof {
            self.lemma_tree_shaped();
            assert(id@ =~= parent(id@).push(last));
            assert(id@.last() == last);
            if self@.dom().contains(id@) {
                assert(placed(self@, id@));
            }
            lemma_subview_step(self@, parent(id@), last);
        }
        if n == 0 {
            proof {
                assert(id@ =~= seq![last]);
            }
            self.local_kind(last)
        } else {
            let loc = slice_subrange(id, 0, n);
            proof {
                assert(loc@ =~= parent(id@));
                assert(loc@.skip(0) =~= loc@);
            }
            match self.sub(loc, 0) {
                None => None,
                Some(g) => g.local_kind(last),
            }
        }
    }
}

} // verus!

verus! {

/// A reference to a hypergraph that is either the one a search started from
/// or one nested in it.
#[derive(Debug, Clone)]
pub enum HypergraphEnum<O, S> {
    /// The hypergraph that the search started from.
    Original(O),
    /// A hypergraph nested in it.
    Sub(S),
}

impl<O, S> HypergraphEnum<O, S> {
    /// Returns `true` for the hypergraph that the search started from.
    pub fn is_original(&self) -> (r: bool)
        ensures
            r == (self is Original),
    {
        match self {
            HypergraphEnum::Original(_) => true,
            HypergraphEnum::Sub(_) => false,
        }
    }

    /// Returns `true` for a nested hypergraph.
    pub fn is_sub(&self) -> (r: bool)
        ensures
            r == (self is Sub),
    {
        match self {
            HypergraphEnum::Original(_) => false,
            HypergraphEnum::Sub(_) => true,
        }
    }
}

impl<'a, N, E, H, L, Ty> HypergraphEnum<&'a Hypergraph<N, E, H, L, Ty>, &'a Hypergraph<N, E, H, L, Sub>> {
    /// The model of the hypergraph referred to.
    pub open spec fn model(self) -> crate::model::Model<N, E, H, L> {
        match self {
            HypergraphEnum::Original(h) => h@,
            HypergraphEnum::Sub(h) => h@,
        }
    }

    /// Whether the hypergraph referred to is in good order.
    pub open spec fn wf(self) -> bool {
        match self {
            HypergraphEnum::Original(h) => h.wf(),
            HypergraphEnum::Sub(h) => h.wf(),
        }
    }

    /// Returns `true` if the hypergraph referred to holds an element with
    /// path `id`.
    pub fn contains(&self, id: &[usize]) -> (r: bool)
        requires
            self.wf(),
        ensures
            r == self.model().dom().contains(id@),
    {
        match self {
            HypergraphEnum::Original(h) => h.contains(id),
            HypergraphEnum::Sub(h) => h.contains(id),
        }
    }

    /// Returns the adjacency list of the node, hyperedge or nested hypergraph
    /// with path `id` in the hypergraph referred to.
    pub fn links_of(&self, id: &[usize]) -> (r: Result<&'a Vec<(Vec<usize>, Direction)>, GetError>)
        requires
            self.wf(),
        ensures
            match r {
                Ok(v) => id@.len() > 0 && self.model().dom().contains(id@) && self.model()[id@].linkable()
                    && links_view(v@) == self.model()[id@].adjacency(),
                Err(e) => !(id@.len() > 0 && self.model().dom().contains(id@) && self.model()[id@].linkable())
                    && e is NoElementLinkable && e.path() == id@,
            },
    {
        match self {
            HypergraphEnum::Original(h) => h.links_of(id),
            HypergraphEnum::Sub(h) => h.links_of(id),
        }
    }

    /// Returns the nodes that lie directly in the hypergraph referred to, as
    /// they are stored.
    pub fn raw_nodes(&self) -> (r: &'a Vec<NodeSlot<N>>)
        requires
            self.wf(),
        ensures
            crate::hypergraph::inform::stores_nodes(self.model(), r@),
    {
        match self {
            HypergraphEnum::Original(h) => h.raw_nodes(),
            HypergraphEnum::Sub(h) => h.raw_nodes(),
        }
    }

    /// Returns the hyperedges that lie directly in the hypergraph referred
    /// to, as they are stored.
    pub fn raw_edges(&self) -> (r: &'a Vec<EdgeSlot<E>>)
        requires
            self.wf(),
        ensures
            crate::hypergraph::inform::stores_edges(self.model(), r@),
    {
        match self {
            HypergraphEnum::Original(h) => h.raw_edges(),
            HypergraphEnum::Sub(h) => h.raw_edges(),
        }
    }

    /// Returns the links that lie directly in the hypergraph referred to, as
    /// they are stored.
    pub fn raw_links(&self) -> (r: &'a Vec<LinkSlot<L>>)
        requires
            self.wf(),
        ensures
            crate::hypergraph::inform::stores_links(self.model(), r@),
    {
        match self {
            HypergraphEnum::Original(h) => h.raw_links(),
            HypergraphEnum::Sub(h) => h.raw_links(),
        }
    }

    /// Returns the hypergraphs that lie directly in the hypergraph referred
    /// to, as they are stored.
    pub fn raw_hypergraphs(&self) -> (r: &'a Vec<GraphSlot<N, E, H, L>>)
        requires
            self.wf(),
        ensures
            crate::hypergraph::inform::stores_graphs(self.model(), r@),
    {
        match self {
            HypergraphEnum::Original(h) => h.raw_hypergraphs(),
            HypergraphEnum::Sub(h) => h.raw_hypergraphs(),
        }
    }

    /// Returns the kind of the element with path `id` in the hypergraph
    /// referred to.
    pub fn element_type(&self, id: &[usize]) -> (r: Result<ElementType, GetError>)
        requires
            self.wf(),
        ensures
            match r {
                Ok(k) => self.model().dom().contains(id@) && k == self.model()[id@].kind(),
                Err(e) => !self.model().dom().contains(id@) && e is NoElement && e.path() == id@,
            },
    {
        match self {
            HypergraphEnum::Original(h) => h.element_type(id),
            HypergraphEnum::Sub(h) => h.element_type(id),
        }
    }
}

impl<N, E, H, L, Ty> Hypergraph<N, E, H, L, Ty> {
    /// Returns `true` if there is an element with path `id`. The empty path
    /// names the hypergraph itself.
    pub fn contains(&self, id: &[usize]) -> (r: bool)
        requires
            self.wf(),
        ensures
            r == self@.dom().contains(id@),
    {
        self.kind_of(id).is_some()
    }

    /// Returns `true` if `id` is the path of a node.
    pub fn contains_node(&self, id: &[usize]) -> (r: bool)
        requires
            self.wf(),
        ensures
            r == (self@.dom().contains(id@) && self@[id@] is Node),
    {
        self.find_node(id).is_some()
    }

    /// Returns `true` if `id` is the path of a hyperedge.
    pub fn contains_edge(&self, id: &[usize]) -> (r: bool)
        requires
            self.wf(),
        ensures
            r == (self@.dom().contains(id@) && self@[id@] is Edge),
    {
        self.find_edge(id).is_some()
    }

    /// Returns `true` if `id` is the path of a link.
    pub fn contains_link(&self, id: &[usize]) -> (r: bool)
        requires
            self.wf(),
        ensures
            r == (self@.dom().contains(id@) && self@[id@] is Link),
    {
        self.find_link(id).is_some()
    }

    /// Returns `true` if `id` is the path of a hypergraph: empty, for the
    /// hypergraph itself, or the path of a nested one.
    pub fn contains_hypergraph(&self, id: &[usize]) -> (r: bool)
        requires
            self.wf(),
        ensures
            r == (self@.dom().contains(id@) && self@[id@] is Graph),
    {
        proof {
            self.lemma_root();
            if id@.len() == 0 {
                assert(id@ =~= Seq::<usize>::empty());
            }
        }
        id.len() == 0 || self.find_graph(id).is_some()
    }

    /// Returns `true` if `id` is the path of a nested hypergraph.
    pub fn contains_subhypergraph(&self, id: &[usize]) -> (r: bool)
        requires
            self.wf(),
        ensures
            r == (id@.len() > 0 && self@.dom().contains(id@) && self@[id@] is Graph),
    {
        self.find_graph(id).is_some()
    }

    /// Returns `true` if `id` is the path of an element that a link can end
    /// at: a node, a hyperedge or a nested hypergraph.
    pub fn contains_linkable(&self, id: &[usize]) -> (r: bool)
        requires
            self.wf(),
        ensures
            r == (id@.len() > 0 && self@.dom().contains(id@) && self@[id@].linkable()),
    {
        if id.len() == 0 {
            return false;
        }
        match self.kind_of(id) {
            Some(ElementType::Link) => false,
            Some(_) => true,
            None => false,
        }
    }

    /// Returns the kind of the element with path `id`.
    pub fn element_type(&self, id: &[usize]) -> (r: Result<ElementType, GetError>)
        requires
            self.wf(),
        ensures
            match r {
                Ok(k) => self@.dom().contains(id@) && k == self@[id@].kind(),
                Err(e) => !self@.dom().contains(id@) && e is NoElement && e.path() == id@,
            },
    {
        match self.kind_of(id) {
            Some(k) => Ok(k),
            None => Err(GetError::NoElement(NoElement(to_path(id)))),
        }
    }

    /// Returns the payload of the element with path `id`, tagged with the
    /// kind of the element.
    pub fn element_value(&self, id: &[usize]) -> (r: Result<ElementValue<&N, &E, &H, &L>, GetError>)
        requires
            self.wf(),
        ensures
            match r {
                Ok(ElementValue::Node { value }) => self@.dom().contains(id@) && self@[id@] is Node && *value
                    == self@[id@].node_value(),
                Ok(ElementValue::Edge { value }) => self@.dom().contains(id@) && self@[id@] is Edge && *value
                    == self@[id@].edge_value(),
                Ok(ElementValue::Link { value }) => self@.dom().contains(id@) && self@[id@] is Link && match value {
                    Some(x) => self@[id@].link_value() == Some(*x),
                    None => self@[id@].link_value() is None,
                },
                Ok(ElementValue::Hypergraph { value }) => self@.dom().contains(id@) && self@[id@] is Graph
                    && match value {
                    Some(x) => self@[id@].graph_value() == Some(*x),
                    None => self@[id@].graph_value() is None,
                },
                Err(e) => !self@.dom().contains(id@) && e is NoElement && e.path() == id@,
            },
    {
        match self.kind_of(id) {
            None => Err(GetError::NoElement(NoElement(to_path(id)))),
            Some(ElementType::Node) => {
                let found = self.find_node(id);
                Ok(ElementValue::Node { value: &found.unwrap().value })
            },
            Some(ElementType::Edge) => {
                let found = self.find_edge(id);
                Ok(ElementValue::Edge { value: &found.unwrap().value })
            },
            Some(ElementType::Link) => {
                let found = self.find_link(id);
                Ok(ElementValue::Link { value: found.unwrap().value.as_ref() })
            },
            Some(ElementType::Hypergraph) => {
                let found = self.hypergraph_value(id);
                Ok(ElementValue::Hypergraph { value: found.unwrap().as_ref() })
            },
        }
    }

    /// Returns the payload of the node with path `id`.
    pub fn node_value(&self, id: &[usize]) -> (r: Result<&N, GetError>)
        requires
            self.wf(),
        ensures
            match r {
                Ok(value) => self@.dom().contains(id@) && self@[id@] is Node && *value == self@[id@].node_value(),
                Err(e) => !(self@.dom().contains(id@) && self@[id@] is Node) && e is NoNode && e.path() == id@,
            },
    {
        match self.find_node(id) {
            Some(s) => Ok(&s.value),
            None => Err(GetError::NoNode(NoNode(to_path(id)))),
        }
    }

    /// Returns the payload of the hyperedge with path `id`.
    pub fn edge_value(&self, id: &[usize]) -> (r: Result<&E, GetError>)
        requires
            self.wf(),
        ensures
            match r {
                Ok(value) => self@.dom().contains(id@) && self@[id@] is Edge && *value == self@[id@].edge_value(),
                Err(e) => !(self@.dom().contains(id@) && self@[id@] is Edge) && e is NoEdge && e.path() == id@,
            },
    {
        match self.find_edge(id) {
            Some(s) => Ok(&s.value),
            None => Err(GetError::NoEdge(NoEdge(to_path(id)))),
        }
    }

    /// Returns the payload of the link with path `id`.
    pub fn link_value(&self, id: &[usize]) -> (r: Result<&Option<L>, GetError>)
        requires
            self.wf(),
        ensures
            match r {
                Ok(value) => self@.dom().contains(id@) && self@[id@] is Link && *value == self@[id@].link_value(),
                Err(e) => !(self@.dom().contains(id@) && self@[id@] is Link) && e is NoLink && e.path() == id@,
            },
    {
        match self.find_link(id) {
            Some(s) => Ok(&s.value),
            None => Err(GetError::NoLink(NoLink(to_path(id)))),
        }
    }

    /// Returns the payload of the hypergraph with path `id`; the empty path
    /// names the hypergraph itself.
    pub fn hypergraph_value(&self, id: &[usize]) -> (r: Result<&Option<H>, GetError>)
        requires
            self.wf(),
        ensures
            match r {
                Ok(value) => self@.dom().contains(id@) && self@[id@] is Graph && *value == self@[id@].graph_value(),
                Err(e) => !(self@.dom().contains(id@) && self@[id@] is Graph)
                    && e is NoHypergraph && e.path() == id@,
            },
    {
        if id.len() == 0 {
            proof {
                assert(id@ =~= Seq::<usize>::empty());
            }
            return Ok(self.value());
        }
        match self.find_graph(id) {
            Some(s) => {
                proof {
                    s.graph.lemma_root();
                    assert(id@ + Seq::<usize>::empty() =~= id@);
                }
                Ok(s.graph.value())
            },
            None => Err(GetError::NoHypergraph(NoHypergraph(to_path(id)))),
        }
    }

    /// Returns the paths of the source and of the target of the link with
    /// path `id`.
    pub fn link_endpoints(&self, id: &[usize]) -> (r: Result<(&Vec<usize>, &Vec<usize>), GetError>)
        requires
            self.wf(),
        ensures
            match r {
                Ok((s, t)) => self@.dom().contains(id@) && self@[id@] is Link && s@ == self@[id@].source() && t@
                    == self@[id@].target(),
                Err(e) => !(self@.dom().contains(id@) && self@[id@] is Link) && e is NoLink && e.path() == id@,
            },
    {
        match self.find_link(id) {
            Some(s) => Ok((&s.source, &s.target)),
            None => Err(GetError::NoLink(NoLink(to_path(id)))),
        }
    }

    /// Returns the adjacency list of the node, hyperedge or nested hypergraph
    /// with path `id`: the path of each of its links with the orientation in
    /// which the element takes part in it.
    pub fn links_of(&self, id: &[usize]) -> (r: Result<&Vec<(Vec<usize>, Direction)>, GetError>)
        requires
            self.wf(),
        ensures
            match r {
                Ok(v) => id@.len() > 0 && self@.dom().contains(id@) && self@[id@].linkable() && links_view(v@)
                    == self@[id@].adjacency(),
                Err(e) => !(id@.len() > 0 && self@.dom().contains(id@) && self@[id@].linkable())
                    && e is NoElementLinkable && e.path() == id@,
            },
    {
        if let Some(s) = self.find_node(id) {
            proof {
                self.lemma_root();
            }
            Ok(&s.links)
        } else if let Some(s) = self.find_edge(id) {
            proof {
                self.lemma_root();
            }
            Ok(&s.links)
        } else if let Some(s) = self.find_graph(id) {
            Ok(&s.links)
        } else {
            Err(GetError::NoElementLinkable(NoElementLinkable(to_path(id))))
        }
    }

    /// Returns the nested hypergraph with path `id`.
    ///
    /// # Errors
    ///
    /// `RootHypergraph` for the empty path; else `NoHypergraph` with the
    /// shortest initial part of `id` that names no hypergraph.
    pub fn subhypergraph(&self, id: &[usize]) -> (r: Result<&Hypergraph<N, E, H, L, Sub>, GetError>)
        requires
            self.wf(),
        ensures
            match r {
                Ok(g) => id@.len() > 0 && self@.dom().contains(id@) && self@[id@] is Graph && g.wf() && g@
                    == subview(self@, id@),
                Err(GetError::RootHypergraph(_)) => id@.len() == 0,
                Err(GetError::NoHypergraph(x)) => {
                    &&& 0 < x.0@.len() <= id@.len()
                    &&& x.0@ == id@.take(x.0@.len() as int)
                    &&& !(self@.dom().contains(x.0@) && self@[x.0@] is Graph)
                    &&& forall|k: int|
                        0 <= k < x.0@.len() ==> self@.dom().contains(#[trigger] id@.take(k)) && self@[id@.take(
                            k,
                        )] is Graph
                },
                Err(_) => false,
            },
    {
        if id.len() == 0 {
            return Err(GetError::RootHypergraph(RootHypergraph));
        }
        match self.find_graph(id) {
            Some(s) => Ok(&s.graph),
            None => {
                let mut k: usize = 1;
                let n = id.len();
                proof {
                    self.lemma_root();
                    assert(id@.take(0) =~= Seq::<usize>::empty());
                }
                loop
                    invariant
                        self.wf(),
                        n == id@.len(),
                        1 <= k <= id@.len(),
                        !(self@.dom().contains(id@) && self@[id@] is Graph),
                        forall|j: int|
                            0 <= j < k ==> self@.dom().contains(#[trigger] id@.take(j)) && self@[id@.take(
                                j,
                            )] is Graph,
                    decreases id@.len() - k,
                {
                    let prefix = slice_subrange(id, 0, k);
                    proof {
                        assert(prefix@ =~= id@.take(k as int));
                        if k == id@.len() {
                            assert(id@.take(k as int) =~= id@);
                        }
                    }
                    if !self.contains_hypergraph(prefix) {
                        return Err(GetError::NoHypergraph(NoHypergraph(to_path(prefix))));
                    }
                    assert(k < id@.len());
                    k += 1;
                }
            },
        }
    }

    /// Returns the hypergraph with path `id`: this one for the empty path,
    /// else a nested one.
    pub fn hypergraph(&self, id: &[usize]) -> (r: Result<
        HypergraphEnum<&Self, &Hypergraph<N, E, H, L, Sub>>,
        GetError,
    >)
        requires
            self.wf(),
        ensures
            match r {
                Ok(HypergraphEnum::Original(g)) => id@.len() == 0 && *g == *self,
                Ok(HypergraphEnum::Sub(g)) => id@.len() > 0 && self@.dom().contains(id@) && self@[id@] is Graph
                    && g.wf() && g@ == subview(self@, id@),
                Err(GetError::NoHypergraph(x)) => {
                    &&& 0 < x.0@.len() <= id@.len()
                    &&& x.0@ == id@.take(x.0@.len() as int)
                    &&& !(self@.dom().contains(x.0@) && self@[x.0@] is Graph)
                    &&& forall|k: int|
                        0 <= k < x.0@.len() ==> self@.dom().contains(#[trigger] id@.take(k)) && self@[id@.take(
                            k,
                        )] is Graph
                },
                Err(_) => false,
            },
    {
        if id.len() == 0 {
            return Ok(HypergraphEnum::Original(self));
        }
        match self.subhypergraph(id) {
            Ok(g) => Ok(HypergraphEnum::Sub(g)),
            Err(e) => Err(e),
        }
    }

    /// Returns the hypergraph that holds the element with path `id`: the one
    /// named by `id` without its last entry.
    ///
    /// # Errors
    ///
    /// `RootHypergraph` for the empty path, which names the root, an element
    /// that no hypergraph holds; else `NoHypergraph` as for `subhypergraph`.
    pub fn hypergraph_of(&self, id: &[usize]) -> (r: Result<
        HypergraphEnum<&Self, &Hypergraph<N, E, H, L, Sub>>,
        GetError,
    >)
        requires
            self.wf(),
        ensures
            match r {
                Ok(HypergraphEnum::Original(g)) => id@.len() == 1 && *g == *self,
                Ok(HypergraphEnum::Sub(g)) => id@.len() > 1 && self@.dom().contains(parent(id@)) && self@[parent(
                    id@,
                )] is Graph && g.wf() && g@ == subview(self@, parent(id@)),
                Err(GetError::RootHypergraph(_)) => id@.len() == 0,
                Err(GetError::NoHypergraph(x)) => {
                    &&& 0 < x.0@.len() < id@.len()
                    &&& x.0@ == id@.take(x.0@.len() as int)
                    &&& !(self@.dom().contains(x.0@) && self@[x.0@] is Graph)
                    &&& forall|k: int|
                        0 <= k < x.0@.len() ==> self@.dom().contains(#[trigger] id@.take(k)) && self@[id@.take(
                            k,
                        )] is Graph
                },
                Err(_) => false,
            },
    {
        if id.len() == 0 {
            return Err(GetError::RootHypergraph(RootHypergraph));
        }
        if id.len() == 1 {
            return Ok(HypergraphEnum::Original(self));
        }
        let loc = slice_subrange(id, 0, id.len() - 1);
        proof {
            assert(loc@ =~= parent(id@));
            assert forall|k: int| 0 <= k <= loc@.len() implies loc@.take(k) == #[trigger] id@.take(k) by {
                assert(loc@.take(k) =~= id@.take(k));
            }
        }
        match self.subhypergraph(loc) {
            Ok(g) => Ok(HypergraphEnum::Sub(g)),
            Err(e) => Err(e),
        }
    }
}

} // verus!
