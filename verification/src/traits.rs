//! The role of a hypergraph: the root of a structure or a level nested in
//! another hypergraph.

use vstd::prelude::*;

verus! {

/// Role marker of a hypergraph: the root of a structure or a level nested in
/// another one.
pub trait HypergraphClass: Sized {
    /// Whether the marker stands for the root of a structure.
    spec fn main_spec(&self) -> bool;

    /// Creates the marker.
    fn new() -> Self;

    /// Returns `true` for the marker of a root hypergraph.
    fn is_main(&self) -> (r: bool)
        ensures
            r == self.main_spec(),
    ;

    /// Returns `true` for the marker of a nested hypergraph.
    fn is_sub(&self) -> (r: bool)
        ensures
            r == !self.main_spec(),
    ;
}

/// Marker of a root hypergraph.
#[derive(Debug, Clone, Copy, PartialEq, Eq, Structural)]
pub struct Main;

/// Marker of a nested hypergraph.
#[derive(Debug, Clone, Copy, PartialEq, Eq, Structural)]
pub struct Sub;

impl HypergraphClass for Main {
    open spec fn main_spec(&self) -> bool {
        true
    }

    fn new() -> Self {
        Main
    }

    fn is_main(&self) -> (r: bool) {
        true
    }

    fn is_sub(&self) -> (r: bool) {
        false
    }
}

impl HypergraphClass for Sub {
    open spec fn main_spec(&self) -> bool {
        false
    }

    fn new() -> Self {
        Sub
    }

    fn is_main(&self) -> (r: bool) {
        false
    }

    fn is_sub(&self) -> (r: bool) {
        true
    }
}

} // verus!
