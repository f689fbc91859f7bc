//! The kinds of element, and the values that stand for an element: its
//! payload alone, the element as it is stored, and the element with what is
//! needed to add it.

use vstd::prelude::*;
use vstd::std_specs::convert::FromSpecImpl;
use vstd::std_specs::convert::TryFromSpecImpl;
use crate::errors::LinkPresent;

verus! {

/// The payload of an element, tagged with the element's kind.
#[derive(Clone, Debug, PartialEq, Eq)]
#[allow(inconsistent_fields)]
pub enum ElementValue<N, E, H, L> {
    /// A hyperedge.
    Edge { value: E },
    /// A hypergraph.
    Hypergraph { value: Option<H> },
    /// A link.
    Link { value: Option<L> },
    /// A node.
    Node { value: N },
}

impl<N, E, H, L> ElementValue<N, E, H, L> {
    /// The kind of element that the payload belongs to.
    pub open spec fn kind(self) -> ElementType {
        match self {
            ElementValue::Edge { .. } => ElementType::Edge,
            ElementValue::Hypergraph { .. } => ElementType::Hypergraph,
            ElementValue::Link { .. } => ElementType::Link,
            ElementValue::Node { .. } => ElementType::Node,
        }
    }

    /// Returns `true` if the payload is a hyperedge.
    pub fn is_edge(&self) -> (r: bool)
        ensures
            r == (self is Edge),
    {
        match self {
            ElementValue::Edge { .. } => true,
            _ => false,
        }
    }

    /// Returns `true` if the payload is a hypergraph.
    pub fn is_hypergraph(&self) -> (r: bool)
        ensures
            r == (self is Hypergraph),
    {
        match self {
            ElementValue::Hypergraph { .. } => true,
            _ => false,
        }
    }

    /// Returns `true` if the payload is a link.
    pub fn is_link(&self) -> (r: bool)
        ensures
            r == (self is Link),
    {
        match self {
            ElementValue::Link { .. } => true,
            _ => false,
        }
    }

    /// Returns `true` if the payload is a node.
    pub fn is_node(&self) -> (r: bool)
        ensures
            r == (self is Node),
    {
        match self {
            ElementValue::Node { .. } => true,
            _ => false,
        }
    }
}

/// An element that can be an endpoint of a link: everything but a link.
#[derive(Clone, Debug, PartialEq, Eq)]
#[allow(inconsistent_fields)]
pub enum ElementLinkable<N, E, H> {
    /// A hyperedge.
    Edge { value: E },
    /// A hypergraph.
    Hypergraph { value: Option<H> },
    /// A node.
    Node { value: N },
}

impl<N, E, H, L, Id> TryFrom<Element<N, E, H, L, Id>> for ElementLinkable<N, E, H> {
    type Error = LinkPresent;

    /// Keeps a node, hyperedge or hypergraph and refuses a link.
    fn try_from(element: Element<N, E, H, L, Id>) -> (r: Result<ElementLinkable<N, E, H>, LinkPresent>) {
        match element {
            Element::Edge { value } => Ok(ElementLinkable::Edge { value }),
            Element::Hypergraph { value } => Ok(ElementLinkable::Hypergraph { value }),
            Element::Node { value } => Ok(ElementLinkable::Node { value }),
            Element::Link { .. } => Err(LinkPresent),
        }
    }
}

impl<N, E, H, L, Id> TryFromSpecImpl<Element<N, E, H, L, Id>> for ElementLinkable<N, E, H> {
    open spec fn obeys_try_from_spec() -> bool {
        true
    }

    open spec fn try_from_spec(element: Element<N, E, H, L, Id>) -> Result<Self, LinkPresent> {
        match element {
            Element::Edge { value } => Ok(ElementLinkable::Edge { value }),
            Element::Hypergraph { value } => Ok(ElementLinkable::Hypergraph { value }),
            Element::Node { value } => Ok(ElementLinkable::Node { value }),
            Element::Link { .. } => Err(LinkPresent),
        }
    }
}

/// An element as it is stored: a link carries the ids of its endpoints.
#[derive(Clone, Debug, PartialEq, Eq)]
#[allow(inconsistent_fields)]
pub enum Element<N, E, H, L, Id> {
    /// A hyperedge.
    Edge { value: E },
    /// A hypergraph.
    Hypergraph { value: Option<H> },
    /// A link.
    Link { source: Id, target: Id, value: Option<L> },
    /// A node.
    Node { value: N },
}

impl<N, E, H, L, Id> Element<N, E, H, L, Id> {
    /// The kind of the element.
    pub open spec fn kind(self) -> ElementType {
        match self {
            Element::Edge { .. } => ElementType::Edge,
            Element::Hypergraph { .. } => ElementType::Hypergraph,
            Element::Link { .. } => ElementType::Link,
            Element::Node { .. } => ElementType::Node,
        }
    }

    /// The source of a link; nothing for the other kinds.
    pub open spec fn source_spec(self) -> Option<Id> {
        match self {
            Element::Link { source, .. } => Some(source),
            _ => None,
        }
    }

    /// The target of a link; nothing for the other kinds.
    pub open spec fn target_spec(self) -> Option<Id> {
        match self {
            Element::Link { target, .. } => Some(target),
            _ => None,
        }
    }

    /// Returns `true` if the element is a hyperedge.
    pub fn is_edge(&self) -> (r: bool)
        ensures
            r == (self is Edge),
    {
        match self {
            Element::Edge { .. } => true,
            _ => false,
        }
    }

    /// Returns `true` if the element is a hypergraph.
    pub fn is_hypergraph(&self) -> (r: bool)
        ensures
            r == (self is Hypergraph),
    {
        match self {
            Element::Hypergraph { .. } => true,
            _ => false,
        }
    }

    /// Returns `true` if the element is a link.
    pub fn is_link(&self) -> (r: bool)
        ensures
            r == (self is Link),
    {
        match self {
            Element::Link { .. } => true,
            _ => false,
        }
    }

    /// Returns `true` if the element is a node.
    pub fn is_node(&self) -> (r: bool)
        ensures
            r == (self is Node),
    {
        match self {
            Element::Node { .. } => true,
            _ => false,
        }
    }

    /// Returns the source if the element is a link.
    pub fn source(&self) -> (r: Option<&Id>)
        ensures
            r matches Some(s) ==> self.source_spec() == Some(*s),
            r is None ==> self.source_spec() is None,
    {
        match self {
            Element::Link { source, .. } => Some(source),
            Element::Edge { .. } | Element::Hypergraph { .. } | Element::Node { .. } => None,
        }
    }

    /// Returns the target if the element is a link.
    pub fn target(&self) -> (r: Option<&Id>)
        ensures
            r matches Some(t) ==> self.target_spec() == Some(*t),
            r is None ==> self.target_spec() is None,
    {
        match self {
            Element::Link { target, .. } => Some(target),
            Element::Edge { .. } | Element::Hypergraph { .. } | Element::Node { .. } => None,
        }
    }
}

impl<N, E, H, L, Id> From<ElementExt<N, E, H, L, Id>> for Element<N, E, H, L, Id> {
    /// Forgets the endpoints of a hyperedge that is about to be added.
    fn from(element_ext: ElementExt<N, E, H, L, Id>) -> (r: Self) {
        match element_ext {
            ElementExt::Edge { value, .. } => Element::Edge { value },
            ElementExt::Link { source, target, value } => Element::Link { source, target, value },
            ElementExt::Hypergraph { value } => Element::Hypergraph { value },
            ElementExt::Node { value } => Element::Node { value },
        }
    }
}

impl<N, E, H, L, Id> FromSpecImpl<ElementExt<N, E, H, L, Id>> for Element<N, E, H, L, Id> {
    open spec fn obeys_from_spec() -> bool {
        true
    }

    open spec fn from_spec(element_ext: ElementExt<N, E, H, L, Id>) -> Self {
        match element_ext {
            ElementExt::Edge { value, .. } => Element::Edge { value },
            ElementExt::Link { source, target, value } => Element::Link { source, target, value },
            ElementExt::Hypergraph { value } => Element::Hypergraph { value },
            ElementExt::Node { value } => Element::Node { value },
        }
    }
}

impl<N, E, H, L, Id> From<ElementLinkable<N, E, H>> for Element<N, E, H, L, Id> {
    /// Every linkable element is an element.
    fn from(element_linkable: ElementLinkable<N, E, H>) -> (r: Self) {
        match element_linkable {
            ElementLinkable::Edge { value } => Element::Edge { value },
            ElementLinkable::Hypergraph { value } => Element::Hypergraph { value },
            ElementLinkable::Node { value } => Element::Node { value },
        }
    }
}

impl<N, E, H, L, Id> FromSpecImpl<ElementLinkable<N, E, H>> for Element<N, E, H, L, Id> {
    open spec fn obeys_from_spec() -> bool {
        true
    }

    open spec fn from_spec(element_linkable: ElementLinkable<N, E, H>) -> Self {
        match element_linkable {
            ElementLinkable::Edge { value } => Element::Edge { value },
            ElementLinkable::Hypergraph { value } => Element::Hypergraph { value },
            ElementLinkable::Node { value } => Element::Node { value },
        }
    }
}

/// The four kinds of element.
#[derive(Clone, Copy, Debug, PartialEq, Eq, Structural)]
pub enum ElementType {
    Edge,
    Hypergraph,
    Link,
    Node,
}

impl ElementType {
    /// The kind that follows in the cycle edge, hypergraph, link, node.
    pub open spec fn successor(self) -> ElementType {
        match self {
            ElementType::Edge => ElementType::Hypergraph,
            ElementType::Hypergraph => ElementType::Link,
            ElementType::Link => ElementType::Node,
            ElementType::Node => ElementType::Edge,
        }
    }

    /// Whether an element of this kind can be an endpoint of a link.
    pub open spec fn linkable(self) -> bool {
        self != ElementType::Link
    }

    /// Returns the next kind, wrapping around after the last one.
    pub fn wrapping_next(self) -> (r: Self)
        ensures
            r == self.successor(),
    {
        match self {
            ElementType::Edge => ElementType::Hypergraph,
            ElementType::Hypergraph => ElementType::Link,
            ElementType::Link => ElementType::Node,
            ElementType::Node => ElementType::Edge,
        }
    }

    /// Four steps through the cycle lead back to the start, and no fewer do.
    pub proof fn lemma_cycle_of_four(self)
        ensures
            self.successor().successor().successor().successor() == self,
            self.successor() != self,
            self.successor().successor() != self,
            self.successor().successor().successor() != self,
    {
    }
}

impl<N, E, H, L> From<ElementValue<N, E, H, L>> for ElementType {
    /// The kind of a payload.
    fn from(element_value: ElementValue<N, E, H, L>) -> (r: Self) {
        match element_value {
            ElementValue::Edge { .. } => ElementType::Edge,
            ElementValue::Link { .. } => ElementType::Link,
            ElementValue::Hypergraph { .. } => ElementType::Hypergraph,
            ElementValue::Node { .. } => ElementType::Node,
        }
    }
}

impl<N, E, H, L> FromSpecImpl<ElementValue<N, E, H, L>> for ElementType {
    open spec fn obeys_from_spec() -> bool {
        true
    }

    open spec fn from_spec(element_value: ElementValue<N, E, H, L>) -> Self {
        element_value.kind()
    }
}

impl<N, E, H, L, Id> From<Element<N, E, H, L, Id>> for ElementType {
    /// The kind of an element.
    fn from(element: Element<N, E, H, L, Id>) -> (r: Self) {
        match element {
            Element::Edge { .. } => ElementType::Edge,
            Element::Link { .. } => ElementType::Link,
            Element::Hypergraph { .. } => ElementType::Hypergraph,
            Element::Node { .. } => ElementType::Node,
        }
    }
}

impl<N, E, H, L, Id> FromSpecImpl<Element<N, E, H, L, Id>> for ElementType {
    open spec fn obeys_from_spec() -> bool {
        true
    }

    open spec fn from_spec(element: Element<N, E, H, L, Id>) -> Self {
        element.kind()
    }
}

/// An element together with what is needed to add it: a hyperedge names the
/// two elements that it connects.
#[derive(Clone, Debug, PartialEq, Eq)]
#[allow(inconsistent_fields)]
pub enum ElementExt<N, E, H, L, Id> {
    /// A hyperedge.
    Edge { source: Id, target: Id, value: E },
    /// A hypergraph.
    Hypergraph { value: Option<H> },
    /// A link.
    Link { source: Id, target: Id, value: Option<L> },
    /// A node.
    Node { value: N },
}

impl<N, E, H, L, Id> ElementExt<N, E, H, L, Id> {
    /// The kind of the element.
    pub open spec fn kind(self) -> ElementType {
        match self {
            ElementExt::Edge { .. } => ElementType::Edge,
            ElementExt::Hypergraph { .. } => ElementType::Hypergraph,
            ElementExt::Link { .. } => ElementType::Link,
            ElementExt::Node { .. } => ElementType::Node,
        }
    }

    /// The source of a hyperedge or link; nothing for the other kinds.
    pub open spec fn source_spec(self) -> Option<Id> {
        match self {
            ElementExt::Edge { source, .. } => Some(source),
            ElementExt::Link { source, .. } => Some(source),
            _ => None,
        }
    }

    /// The target of a hyperedge or link; nothing for the other kinds.
    pub open spec fn target_spec(self) -> Option<Id> {
        match self {
            ElementExt::Edge { target, .. } => Some(target),
            ElementExt::Link { target, .. } => Some(target),
            _ => None,
        }
    }

    /// Returns `true` if the element is a hyperedge.
    pub fn is_edge(&self) -> (r: bool)
        ensures
            r == (self is Edge),
    {
        match self {
            ElementExt::Edge { .. } => true,
            _ => false,
        }
    }

    /// Returns `true` if the element is a hypergraph.
    pub fn is_hypergraph(&self) -> (r: bool)
        ensures
            r == (self is Hypergraph),
    {
        match self {
            ElementExt::Hypergraph { .. } => true,
            _ => false,
        }
    }

    /// Returns `true` if the element is a link.
    pub fn is_link(&self) -> (r: bool)
        ensures
            r == (self is Link),
    {
        match self {
            ElementExt::Link { .. } => true,
            _ => false,
        }
    }

    /// Returns `true` if the element is a node.
    pub fn is_node(&self) -> (r: bool)
        ensures
            r == (self is Node),
    {
        match self {
            ElementExt::Node { .. } => true,
            _ => false,
        }
    }

    /// Gives up the element and returns its source, if it has one.
    pub fn into_source(self) -> (r: Option<Id>)
        ensures
            r == self.source_spec(),
    {
        match self {
            ElementExt::Edge { source, .. } => Some(source),
            ElementExt::Link { source, .. } => Some(source),
            ElementExt::Hypergraph { .. } | ElementExt::Node { .. } => None,
        }
    }

    /// Gives up the element and returns its target, if it has one.
    pub fn into_target(self) -> (r: Option<Id>)
        ensures
            r == self.target_spec(),
    {
        match self {
            ElementExt::Edge { target, .. } => Some(target),
            ElementExt::Link { target, .. } => Some(target),
            ElementExt::Hypergraph { .. } | ElementExt::Node { .. } => None,
        }
    }

    /// Returns the source of a hyperedge or link.
    pub fn source(&self) -> (r: Option<&Id>)
        ensures
            r matches Some(s) ==> self.source_spec() == Some(*s),
            r is None ==> self.source_spec() is None,
    {
        match self {
            ElementExt::Edge { source, .. } => Some(source),
            ElementExt::Link { source, .. } => Some(source),
            ElementExt::Hypergraph { .. } | ElementExt::Node { .. } => None,
        }
    }

    /// Returns the target of a hyperedge or link.
    pub fn target(&self) -> (r: Option<&Id>)
        ensures
            r matches Some(t) ==> self.target_spec() == Some(*t),
            r is None ==> self.target_spec() is None,
    {
        match self {
            ElementExt::Edge { target, .. } => Some(target),
            ElementExt::Link { target, .. } => Some(target),
            ElementExt::Hypergraph { .. } | ElementExt::Node { .. } => None,
        }
    }
}

} // verus!
