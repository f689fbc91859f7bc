//! The errors of the operations on a hypergraph. Each carries the paths that
//! it is about.

use vstd::prelude::*;

verus! {

/// The source of a link or hyperedge was the empty id.
#[derive(Copy, Debug, Clone, PartialEq, Eq, Structural)]
pub struct EmptySource;

/// The target of a link or hyperedge was the empty id.
#[derive(Copy, Debug, Clone, PartialEq, Eq, Structural)]
pub struct EmptyTarget;

/// A link or hyperedge would be stored in a hypergraph that does not contain
/// both of its endpoints. The fields are the location, the source and the
/// target.
#[derive(Debug, Clone, PartialEq, Eq)]
pub struct IncoherentLink(pub Vec<usize>, pub Vec<usize>, pub Vec<usize>);

/// A link was found where a node, hyperedge or hypergraph was required.
#[derive(Copy, Debug, Clone, PartialEq, Eq, Structural)]
pub struct LinkPresent;

/// The source of a link or hyperedge is itself a link.
#[derive(Debug, Clone, PartialEq, Eq)]
pub struct LinkSource(pub Vec<usize>);

/// The target of a link or hyperedge is itself a link.
#[derive(Debug, Clone, PartialEq, Eq)]
pub struct LinkTarget(pub Vec<usize>);

/// No hyperedge has this id.
#[derive(Debug, Clone, PartialEq, Eq)]
pub struct NoEdge(pub Vec<usize>);

/// No element has this id.
#[derive(Debug, Clone, PartialEq, Eq)]
pub struct NoElement(pub Vec<usize>);

/// No node, hyperedge or hypergraph has this id.
#[derive(Debug, Clone, PartialEq, Eq)]
pub struct NoElementLinkable(pub Vec<usize>);

/// No hypergraph has this id.
#[derive(Debug, Clone, PartialEq, Eq)]
pub struct NoHypergraph(pub Vec<usize>);

/// No link has this id.
#[derive(Debug, Clone, PartialEq, Eq)]
pub struct NoLink(pub Vec<usize>);

/// No node has this id.
#[derive(Debug, Clone, PartialEq, Eq)]
pub struct NoNode(pub Vec<usize>);

/// An operation that needs an element inside a hypergraph was given the
/// empty id, which stands for the root itself.
#[derive(Copy, Debug, Clone, PartialEq, Eq, Structural)]
pub struct RootHypergraph;

/// The two endpoints cannot be joined by a link: exactly one of them has to
/// be a hyperedge. The fields are the source and the target.
#[derive(Debug, Clone, PartialEq, Eq)]
pub struct Unlinkable(pub Vec<usize>, pub Vec<usize>);

/// A walk over neighbors was asked to start at something that is no node,
/// hyperedge or nested hypergraph.
#[derive(Debug, Clone, PartialEq, Eq)]
pub struct NewError(pub NoElementLinkable);

/// Why an element could not be added.
#[derive(Debug, Clone, PartialEq, Eq)]
pub enum AddError {
    EmptySource(EmptySource),
    EmptyTarget(EmptyTarget),
    IncoherentLink(IncoherentLink),
    LinkSource(LinkSource),
    LinkTarget(LinkTarget),
    NoLocation(NoHypergraph),
    NoSource(NoElementLinkable),
    NoTarget(NoElementLinkable),
    Unlinkable(Unlinkable),
}

/// The model of an [`AddError`]: the same reasons, with paths as sequences.
pub enum AddRefusal {
    EmptySource,
    EmptyTarget,
    IncoherentLink(Seq<usize>, Seq<usize>, Seq<usize>),
    LinkSource(Seq<usize>),
    LinkTarget(Seq<usize>),
    NoLocation(Seq<usize>),
    NoSource(Seq<usize>),
    NoTarget(Seq<usize>),
    Unlinkable(Seq<usize>, Seq<usize>),
}

impl View for AddError {
    type V = AddRefusal;

    open spec fn view(&self) -> AddRefusal {
        match *self {
            AddError::EmptySource(_) => AddRefusal::EmptySource,
            AddError::EmptyTarget(_) => AddRefusal::EmptyTarget,
            AddError::IncoherentLink(e) => AddRefusal::IncoherentLink(e.0@, e.1@, e.2@),
            AddError::LinkSource(e) => AddRefusal::LinkSource(e.0@),
            AddError::LinkTarget(e) => AddRefusal::LinkTarget(e.0@),
            AddError::NoLocation(e) => AddRefusal::NoLocation(e.0@),
            AddError::NoSource(e) => AddRefusal::NoSource(e.0@),
            AddError::NoTarget(e) => AddRefusal::NoTarget(e.0@),
            AddError::Unlinkable(e) => AddRefusal::Unlinkable(e.0@, e.1@),
        }
    }
}

/// Why a search found nothing.
#[derive(Debug, Clone, PartialEq, Eq)]
pub enum FindError {
    NoEdge,
    NoElement,
    NoHypergraph,
    NoLink,
    NoNode,
    NoLocation(NoHypergraph),
}

/// Why an element could not be read.
#[derive(Debug, Clone, PartialEq, Eq)]
pub enum GetError {
    NoEdge(NoEdge),
    NoElement(NoElement),
    NoElementLinkable(NoElementLinkable),
    NoHypergraph(NoHypergraph),
    NoLink(NoLink),
    NoNode(NoNode),
    RootHypergraph(RootHypergraph),
}

/// Why an element could not be removed.
#[derive(Debug, Clone, PartialEq, Eq)]
pub enum RemoveError {
    NoEdge(NoEdge),
    NoElement(NoElement),
    NoHypergraph(NoHypergraph),
    NoLink(NoLink),
    NoNode(NoNode),
}

/// Why a payload could not be replaced.
#[derive(Debug, Clone, PartialEq, Eq)]
pub enum SetError {
    NoEdge(NoEdge),
    NoElement(NoElement),
    NoElementLinkable(NoElementLinkable),
    NoHypergraph(NoHypergraph),
    NoLink(NoLink),
    NoNode(NoNode),
}

impl GetError {
    /// The path that the error reports; empty where it reports none.
    pub open spec fn path(self) -> Seq<usize> {
        match self {
            GetError::NoEdge(e) => e.0@,
            GetError::NoElement(e) => e.0@,
            GetError::NoElementLinkable(e) => e.0@,
            GetError::NoHypergraph(e) => e.0@,
            GetError::NoLink(e) => e.0@,
            GetError::NoNode(e) => e.0@,
            _ => Seq::empty(),
        }
    }
}

impl RemoveError {
    /// The path that the error reports; empty where it reports none.
    pub open spec fn path(self) -> Seq<usize> {
        match self {
            RemoveError::NoEdge(e) => e.0@,
            RemoveError::NoElement(e) => e.0@,
            RemoveError::NoHypergraph(e) => e.0@,
            RemoveError::NoLink(e) => e.0@,
            RemoveError::NoNode(e) => e.0@,
        }
    }
}

impl SetError {
    /// The path that the error reports; empty where it reports none.
    pub open spec fn path(self) -> Seq<usize> {
        match self {
            SetError::NoEdge(e) => e.0@,
            SetError::NoElement(e) => e.0@,
            SetError::NoElementLinkable(e) => e.0@,
            SetError::NoHypergraph(e) => e.0@,
            SetError::NoLink(e) => e.0@,
            SetError::NoNode(e) => e.0@,
        }
    }
}

impl AddError {
    /// The path that the error reports; empty where it reports none.
    pub open spec fn path(self) -> Seq<usize> {
        match self {
            AddError::LinkSource(e) => e.0@,
            AddError::LinkTarget(e) => e.0@,
            AddError::NoLocation(e) => e.0@,
            AddError::NoSource(e) => e.0@,
            AddError::NoTarget(e) => e.0@,
            _ => Seq::empty(),
        }
    }
}

impl FindError {
    /// The path that the error reports; empty where it reports none.
    pub open spec fn path(self) -> Seq<usize> {
        match self {
            FindError::NoLocation(e) => e.0@,
            _ => Seq::empty(),
        }
    }
}

} // verus!
