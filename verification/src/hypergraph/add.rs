//! Adding elements.

use vstd::prelude::*;
use crate::direction::Direction;
use crate::elements::Element;
use crate::elements::ElementExt;
use crate::elements::ElementType;
use crate::errors::AddError;
use crate::errors::EmptySource;
use crate::errors::EmptyTarget;
use crate::errors::IncoherentLink;
use crate::errors::LinkSource;
use crate::errors::LinkTarget;
use crate::errors::NoElementLinkable;
use crate::errors::NoHypergraph;
use crate::errors::Unlinkable;
use crate::growth::added;
use crate::growth::added_edge;
use crate::growth::endpoints;
use crate::growth::has_room;
use crate::growth::lemma_added_edge_consistent;
use crate::growth::lemma_added_link_consistent;
use crate::growth::lemma_stored_consistent;
use crate::growth::lemma_unused_id;
use crate::growth::refusal;
use crate::hypergraph::Hypergraph;
use crate::model::LinkRef;
use crate::model::Record;
use crate::path::child_path;
use crate::path::is_prefix;
use crate::path::parent;
use crate::path::starts_with;
use crate::path::to_path;
use crate::traits::Main;

verus! {

impl<N, E, H, L> Hypergraph<N, E, H, L, Main> {
    /// Decides whether `element` can be stored in the hypergraph `location`.
    pub fn check_element(&self, element: &ElementExt<N, E, H, L, Vec<usize>>, location: &[usize]) -> (r: Result<
        (),
        AddError,
    >)
        requires
            self.wf(),
        ensures
            match r {
                Ok(_) => refusal(self@, element.kind(), endpoints(*element).0, endpoints(*element).1, location@)
                    is None,
                Err(e) => refusal(self@, element.kind(), endpoints(*element).0, endpoints(*element).1, location@)
                    == Some(e@),
            },
    {
        if !self.contains_hypergraph(location) {
            return Err(AddError::NoLocation(NoHypergraph(to_path(location))));
        }
        if element.is_node() || element.is_hypergraph() {
            return Ok(());
        }
        let found_source = element.source();
        let source = found_source.unwrap();
        let found_target = element.target();
        let target = found_target.unwrap();
        if source.len() == 0 {
            return Err(AddError::EmptySource(EmptySource));
        }
        if target.len() == 0 {
            return Err(AddError::EmptyTarget(EmptyTarget));
        }
        let source_kind = match self.kind_of(source.as_slice()) {
            None => {
                return Err(AddError::NoSource(NoElementLinkable(to_path(source.as_slice()))));
            },
            Some(k) => k,
        };
        let target_kind = match self.kind_of(target.as_slice()) {
            None => {
                return Err(AddError::NoTarget(NoElementLinkable(to_path(target.as_slice()))));
            },
            Some(k) => k,
        };
        if source_kind == ElementType::Link {
            return Err(AddError::LinkSource(LinkSource(to_path(source.as_slice()))));
        }
        if target_kind == ElementType::Link {
            return Err(AddError::LinkTarget(LinkTarget(to_path(target.as_slice()))));
        }
        if element.is_link() && ((source_kind == ElementType::Edge) == (target_kind == ElementType::Edge)) {
            return Err(
                AddError::Unlinkable(Unlinkable(to_path(source.as_slice()), to_path(target.as_slice()))),
            );
        }
        proof {
            assert(location@.take(location@.len() as int) =~= location@);
            assert(source@.take(source@.len() - 1) =~= parent(source@));
            assert(target@.take(target@.len() - 1) =~= parent(target@));
        }
        let coherent = starts_with(source.as_slice(), location, location.len()) && source.len()
            > location.len() && starts_with(target.as_slice(), location, location.len()) && target.len()
            > location.len();
        proof {
            assert(is_prefix(location@, source@) && source@.len() > location@.len() <==> is_prefix(
                location@,
                parent(source@),
            )) by {
                if is_prefix(location@, source@) && source@.len() > location@.len() {
                    assert(parent(source@).take(location@.len() as int) =~= source@.take(
                        location@.len() as int,
                    ));
                }
                if is_prefix(location@, parent(source@)) {
                    assert(parent(source@).take(location@.len() as int) =~= source@.take(
                        location@.len() as int,
                    ));
                }
            }
            assert(is_prefix(location@, target@) && target@.len() > location@.len() <==> is_prefix(
                location@,
                parent(target@),
            )) by {
                if is_prefix(location@, target@) && target@.len() > location@.len() {
                    assert(parent(target@).take(location@.len() as int) =~= target@.take(
                        location@.len() as int,
                    ));
                }
                if is_prefix(location@, parent(target@)) {
                    assert(parent(target@).take(location@.len() as int) =~= target@.take(
                        location@.len() as int,
                    ));
                }
            }
        }
        if !coherent {
            return Err(
                AddError::IncoherentLink(
                    IncoherentLink(to_path(location), to_path(source.as_slice()), to_path(target.as_slice())),
                ),
            );
        }
        Ok(())
    }

    /// Adds an element to the hypergraph `location` and returns its path.
    /// The empty `location` names the root.
    ///
    /// A hyperedge comes with two anchor links, stored beside it under the
    /// two local ids that follow its own: one from its source to the
    /// hyperedge and one from the hyperedge to its target.
    ///
    /// # Errors
    ///
    /// The first of the checks of [`refusal`] that fails; the structure is
    /// then left as it was.
    pub fn add_element(&mut self, element: ElementExt<N, E, H, L, Vec<usize>>, location: &[usize]) -> (r:
        Result<Vec<usize>, AddError>)
        requires
            old(self).inv(),
            has_room(old(self)@, location@, element.kind()),
        ensures
            final(self).inv(),
            match r {
                Ok(id) => {
                    &&& refusal(old(self)@, element.kind(), endpoints(element).0, endpoints(element).1, location@)
                        is None
                    &&& id@ == location@.push(old(self)@[location@].counter())
                    &&& final(self)@ == added(old(self)@, element, location@)
                },
                Err(e) => {
                    &&& refusal(old(self)@, element.kind(), endpoints(element).0, endpoints(element).1, location@)
                        == Some(e@)
                    &&& *final(self) == *old(self)
                },
            },
    {
        match self.check_element(&element, location) {
            Err(e) => Err(e),
            Ok(_) => Ok(self.add_element_unchecked(element, location)),
        }
    }

    /// Adds an element that is known to pass all checks.
    pub fn add_element_unchecked(&mut self, element: ElementExt<N, E, H, L, Vec<usize>>, location: &[usize]) -> (id:
        Vec<usize>)
        requires
            old(self).inv(),
            refusal(old(self)@, element.kind(), endpoints(element).0, endpoints(element).1, location@) is None,
            has_room(old(self)@, location@, element.kind()),
        ensures
            final(self).inv(),
            id@ == location@.push(old(self)@[location@].counter()),
            final(self)@ == added(old(self)@, element, location@),
    {
        let ghost m = self@;
        let ghost c = m[location@].counter();
        proof {
            lemma_unused_id(m, location@, c);
        }
        match element {
            ElementExt::Node { value } => {
                let k = self.insert_at(location, Element::Node { value });
                proof {
                    lemma_stored_consistent(m, location@, Record::Node { value, links: Seq::empty() });
                }
                child_path(location, k)
            },
            ElementExt::Hypergraph { value } => {
                let k = self.insert_at(location, Element::Hypergraph { value });
                proof {
                    lemma_stored_consistent(
                        m,
                        location@,
                        Record::Graph { value, links: Seq::empty(), next_id: 0 },
                    );
                }
                child_path(location, k)
            },
            ElementExt::Link { source, target, value } => {
                let from = to_path(source.as_slice());
                let to = to_path(target.as_slice());
                let k = self.insert_at(location, Element::Link { source, target, value });
                let id = child_path(location, k);
                proof {
                    assert(location@ != from@ && location@ != to@);
                }
                self.push_neighbor_at(from.as_slice(), (to_path(id.as_slice()), Direction::Outgoing));
                self.push_neighbor_at(to.as_slice(), (to_path(id.as_slice()), Direction::Incoming));
                proof {
                    lemma_added_link_consistent(m, location@, from@, to@, value);
                }
                id
            },
            ElementExt::Edge { source, target, value } => {
                let k = self.insert_at(location, Element::Edge { value });
                let id = child_path(location, k);
                let ghost m1 = self@;
                proof {
                    lemma_unused_id(m, location@, (c + 1) as usize);
                    lemma_unused_id(m, location@, (c + 2) as usize);
                    assert(location@ != source@ && location@ != target@);
                }
                let k1 = self.insert_at(
                    location,
                    Element::Link { source: to_path(source.as_slice()), target: to_path(id.as_slice()), value: None },
                );
                let first = child_path(location, k1);
                let k2 = self.insert_at(
                    location,
                    Element::Link { source: to_path(id.as_slice()), target: to_path(target.as_slice()), value: None },
                );
                let second = child_path(location, k2);
                proof {
                    assert(id@.last() == c);
                    assert(first@.last() == c + 1);
                    assert(second@.last() == c + 2);
                }
                self.push_neighbor_at(id.as_slice(), (to_path(first.as_slice()), Direction::Incoming));
                self.push_neighbor_at(id.as_slice(), (to_path(second.as_slice()), Direction::Outgoing));
                let ghost m5 = self@;
                proof {
                    let links = seq![(first@, Direction::Incoming), (second@, Direction::Outgoing)];
                    assert(Seq::<LinkRef>::empty().push((first@, Direction::Incoming)).push(
                        (second@, Direction::Outgoing),
                    ) =~= links);
                    let expected = m.insert(id@, Record::Edge { value, links }).insert(
                        first@,
                        Record::Link { value: None, source: source@, target: id@ },
                    ).insert(second@, Record::Link { value: None, source: id@, target: target@ }).insert(
                        location@,
                        m[location@].advanced(3),
                    );
                    assert(m5 =~= expected);
                }
                self.push_neighbor_at(source.as_slice(), (to_path(first.as_slice()), Direction::Outgoing));
                self.push_neighbor_at(target.as_slice(), (to_path(second.as_slice()), Direction::Incoming));
                proof {
                    lemma_added_edge_consistent(m, location@, source@, target@, value);
                    assert(self@ == added_edge(m, location@, source@, target@, value));
                }
                id
            },
        }
    }

    /// Adds a hyperedge from `source` to `target` to the hypergraph `location`
    /// and returns its path. The two anchor links that come with it get the
    /// two local ids after that of the hyperedge.
    pub fn add_edge(&mut self, source: &[usize], target: &[usize], value: E, location: &[usize]) -> (r: Result<
        Vec<usize>,
        AddError,
    >)
        requires
            old(self).inv(),
            has_room(old(self)@, location@, ElementType::Edge),
        ensures
            final(self).inv(),
            match r {
                Ok(id) => {
                    &&& refusal(old(self)@, ElementType::Edge, source@, target@, location@) is None
                    &&& id@ == location@.push(old(self)@[location@].counter())
                    &&& final(self)@ == added_edge(old(self)@, location@, source@, target@, value)
                },
                Err(e) => {
                    &&& refusal(old(self)@, ElementType::Edge, source@, target@, location@) == Some(e@)
                    &&& *final(self) == *old(self)
                },
            },
    {
        let element = ElementExt::Edge { source: to_path(source), target: to_path(target), value };
        self.add_element(element, location)
    }

    /// Adds an empty hypergraph with the payload `value` to the hypergraph
    /// `location` and returns its path.
    pub fn add_hypergraph(&mut self, value: Option<H>, location: &[usize]) -> (r: Result<Vec<usize>, AddError>)
        requires
            old(self).inv(),
            has_room(old(self)@, location@, ElementType::Hypergraph),
        ensures
            final(self).inv(),
            match r {
                Ok(id) => {
                    &&& old(self)@.dom().contains(location@) && old(self)@[location@] is Graph
                    &&& id@ == location@.push(old(self)@[location@].counter())
                    &&& final(self)@ == crate::growth::stored(
                        old(self)@,
                        location@,
                        Record::Graph { value, links: Seq::empty(), next_id: 0 },
                    )
                },
                Err(e) => {
                    &&& !(old(self)@.dom().contains(location@) && old(self)@[location@] is Graph)
                    &&& e@ == crate::errors::AddRefusal::NoLocation(location@)
                    &&& *final(self) == *old(self)
                },
            },
    {
        let element = ElementExt::Hypergraph { value };
        self.add_element(element, location)
    }

    /// Adds a link from `source` to `target` to the hypergraph `location` and
    /// returns its path.
    pub fn add_link(&mut self, source: &[usize], target: &[usize], value: Option<L>, location: &[usize]) -> (r:
        Result<Vec<usize>, AddError>)
        requires
            old(self).inv(),
            has_room(old(self)@, location@, ElementType::Link),
        ensures
            final(self).inv(),
            match r {
                Ok(id) => {
                    &&& refusal(old(self)@, ElementType::Link, source@, target@, location@) is None
                    &&& id@ == location@.push(old(self)@[location@].counter())
                    &&& final(self)@ == crate::growth::added_link(old(self)@, location@, source@, target@, value)
                },
                Err(e) => {
                    &&& refusal(old(self)@, ElementType::Link, source@, target@, location@) == Some(e@)
                    &&& *final(self) == *old(self)
                },
            },
    {
        let element = ElementExt::Link { source: to_path(source), target: to_path(target), value };
        self.add_element(element, location)
    }

    /// Adds a node with the payload `value` to the hypergraph `location` and
    /// returns its path.
    pub fn add_node(&mut self, value: N, location: &[usize]) -> (r: Result<Vec<usize>, AddError>)
        requires
            old(self).inv(),
            has_room(old(self)@, location@, ElementType::Node),
        ensures
            final(self).inv(),
            match r {
                Ok(id) => {
                    &&& old(self)@.dom().contains(location@) && old(self)@[location@] is Graph
                    &&& id@ == location@.push(old(self)@[location@].counter())
                    &&& final(self)@ == crate::growth::stored(
                        old(self)@,
                        location@,
                        Record::Node { value, links: Seq::empty() },
                    )
                },
                Err(e) => {
                    &&& !(old(self)@.dom().contains(location@) && old(self)@[location@] is Graph)
                    &&& e@ == crate::errors::AddRefusal::NoLocation(location@)
                    &&& *final(self) == *old(self)
                },
            },
    {
        let element = ElementExt::Node { value };
        self.add_element(element, location)
    }
}

} // verus!
