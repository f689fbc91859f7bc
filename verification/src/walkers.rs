//! Walks over a hypergraph that hold a position and no reference. The
//! hypergraph is handed to each step, and may change between two steps.

use vstd::prelude::*;
use crate::direction::Direction;
use crate::errors::NewError;
use crate::errors::NoElementLinkable;
use crate::hypergraph::Hypergraph;
use crate::model::LinkRef;
use crate::model::Model;
use crate::order::at_or_after;
use crate::order::successor;
use crate::path::to_path;
use crate::slots::links_view;

verus! {

/// The path that a stored position stands for.
pub open spec fn position_view(p: Option<Vec<usize>>) -> Option<Seq<usize>> {
    match p {
        Some(v) => Some(v@),
        None => None,
    }
}

/// The position after one step of a walk over ids that stood at `c`: past
/// the element that the step gave out.
pub open spec fn after_step<N, E, H, L>(m: Model<N, E, H, L>, c: Seq<usize>) -> Option<Seq<usize>> {
    match at_or_after(m, c) {
        Some(e) => successor(m, e),
        None => None,
    }
}

/// One step of a walk over the ids of `hypergraph` from the position
/// `position`. The position is a path, not a reference: between two steps
/// the hypergraph may change.
///
/// The step gives out the first element at or after the position, and moves
/// the position to the first element after that one. Where no element is
/// left, it gives out nothing and the walk is over.
fn step_ids<N, E, H, L, Ty>(position: &mut Option<Vec<usize>>, hypergraph: &Hypergraph<N, E, H, L, Ty>) -> (r:
    Option<Vec<usize>>)
    requires
        hypergraph.wf(),
    ensures
        match position_view(*old(position)) {
            None => r is None && *final(position) is None,
            Some(c) => position_view(r) == at_or_after(hypergraph@, c) && position_view(*final(position))
                == after_step(hypergraph@, c),
        },
{
    let current = position.take();
    match current {
        None => None,
        Some(id) => {
            if hypergraph.contains(id.as_slice()) {
                *position = hypergraph.next_id(id.as_slice());
                Some(id)
            } else {
                match hypergraph.next_id(id.as_slice()) {
                    None => None,
                    Some(found) => {
                        *position = hypergraph.next_id(found.as_slice());
                        Some(found)
                    },
                }
            }
        },
    }
}

/// A position in the enumeration of the ids of a hypergraph. It holds no
/// reference to the hypergraph, which is handed to each step.
#[derive(Debug)]
pub struct IdWalk {
    next_id: Option<Vec<usize>>,
}

impl View for IdWalk {
    type V = Option<Seq<usize>>;

    /// The path at which the walk stands; nothing when it is over.
    closed spec fn view(&self) -> Option<Seq<usize>> {
        position_view(self.next_id)
    }
}

impl IdWalk {
    /// Creates a walk that stands at `next_id`.
    pub fn new(next_id: Option<Vec<usize>>) -> (r: Self)
        ensures
            r@ == position_view(next_id),
    {
        IdWalk { next_id }
    }

    /// Gives out the first element at or after the position and moves past
    /// it.
    pub fn next<N, E, H, L, Ty>(&mut self, hypergraph: &Hypergraph<N, E, H, L, Ty>) -> (r: Option<Vec<usize>>)
        requires
            hypergraph.wf(),
        ensures
            match old(self)@ {
                None => r is None && final(self)@ is None,
                Some(c) => position_view(r) == at_or_after(hypergraph@, c) && final(self)@ == after_step(
                    hypergraph@,
                    c,
                ),
            },
    {
        step_ids(&mut self.next_id, hypergraph)
    }
}

/// A position in the enumeration of the ids of a hypergraph. It holds no
/// reference to the hypergraph, which is handed to each step.
#[derive(Debug, Clone)]
pub struct WalkIds {
    next_id: Option<Vec<usize>>,
}

impl View for WalkIds {
    type V = Option<Seq<usize>>;

    /// The path at which the walk stands; nothing when it is over.
    closed spec fn view(&self) -> Option<Seq<usize>> {
        position_view(self.next_id)
    }
}

impl WalkIds {
    /// Creates a walk that stands at the root, the first element of every
    /// hypergraph.
    pub fn new() -> (r: Self)
        ensures
            r@ == Some(Seq::<usize>::empty()),
    {
        Self::new_from(Some(Vec::new()))
    }

    /// Creates a walk that stands at `next_id`.
    pub fn new_from(next_id: Option<Vec<usize>>) -> (r: Self)
        ensures
            r@ == position_view(next_id),
    {
        WalkIds { next_id }
    }

    /// Gives out the first element at or after the position and moves past
    /// it.
    pub fn walk_next<N, E, H, L, Ty>(&mut self, hypergraph: &Hypergraph<N, E, H, L, Ty>) -> (r: Option<
        Vec<usize>,
    >)
        requires
            hypergraph.wf(),
        ensures
            match old(self)@ {
                None => r is None && final(self)@ is None,
                Some(c) => position_view(r) == at_or_after(hypergraph@, c) && final(self)@ == after_step(
                    hypergraph@,
                    c,
                ),
            },
    {
        step_ids(&mut self.next_id, hypergraph)
    }
}

/// The first position at or after `from` in an adjacency list whose entry
/// has the orientation `direction`.
pub open spec fn next_match(adj: Seq<LinkRef>, direction: Direction, from: int) -> Option<int>
    decreases adj.len() - from,
{
    if from < 0 || from >= adj.len() {
        None
    } else if adj[from].1 == direction {
        Some(from)
    } else {
        next_match(adj, direction, from + 1)
    }
}

/// The element at the other end of the link `link` for an element that takes
/// part in it with the orientation `direction`.
pub open spec fn far_end<N, E, H, L>(m: Model<N, E, H, L>, link: Seq<usize>, direction: Direction) -> Seq<usize> {
    match direction {
        Direction::Outgoing => m[link].target(),
        Direction::Incoming => m[link].source(),
    }
}

/// Whether `source` names an element with an adjacency list.
pub open spec fn walkable<N, E, H, L>(m: Model<N, E, H, L>, source: Seq<usize>) -> bool {
    source.len() > 0 && m.dom().contains(source) && m[source].linkable()
}

/// One step of a walk over the neighbors of `source` in `hypergraph`. `cursor`
/// is a position in the adjacency list of `source`.
///
/// The step looks from the cursor on for an entry with the orientation
/// `direction`. Where it finds one, it gives out the element at the other end
/// of that link and moves the cursor behind the entry. Where it finds none, it
/// gives out nothing and leaves the cursor at the end of the list, so that
/// links added later are seen by a later step. Where `source` has no
/// adjacency list, it gives out nothing and leaves the cursor as it is.
fn step_neighbors<'a, N, E, H, L, Ty>(
    direction: Direction,
    source: &Vec<usize>,
    cursor: &mut usize,
    hypergraph: &'a Hypergraph<N, E, H, L, Ty>,
) -> (r: Option<&'a Vec<usize>>)
    requires
        hypergraph.inv(),
    ensures
        !walkable(hypergraph@, source@) ==> r is None && *final(cursor) == *old(cursor),
        walkable(hypergraph@, source@) ==> match next_match(
            hypergraph@[source@].adjacency(),
            direction,
            *old(cursor) as int,
        ) {
            Some(j) => {
                &&& r matches Some(found) && found@ == far_end(
                    hypergraph@,
                    hypergraph@[source@].adjacency()[j].0,
                    direction,
                )
                &&& *final(cursor) == j + 1
            },
            None => {
                &&& r is None
                &&& *final(cursor) == if *old(cursor) <= hypergraph@[source@].adjacency().len() {
                    hypergraph@[source@].adjacency().len() as usize
                } else {
                    *old(cursor)
                }
            },
        },
{
    let links = match hypergraph.links_of(source.as_slice()) {
        Ok(links) => links,
        Err(_) => {
            return None;
        },
    };
    let ghost adj = hypergraph@[source@].adjacency();
    let ghost start = *cursor as int;
    let mut i = *cursor;
    while i < links.len()
        invariant
            hypergraph.inv(),
            walkable(hypergraph@, source@),
            adj == hypergraph@[source@].adjacency(),
            *cursor == start,
            start == *old(cursor),
            adj == links_view(links@),
            start <= i,
            start < adj.len() ==> i <= adj.len(),
            next_match(adj, direction, start) == next_match(adj, direction, i as int),
        decreases links@.len() - i,
    {
        if links[i].1 == direction {
            proof {
                assert(crate::model::adjacency_rules(hypergraph@, source@));
                assert(crate::model::entry_rules(hypergraph@, source@, adj[i as int]));
                assert(adj[i as int] == (links@[i as int].0@, links@[i as int].1));
                assert(next_match(adj, direction, i as int) == Some(i as int));
            }
            let ends = hypergraph.link_endpoints(links[i].0.as_slice());
            let (from, to) = ends.unwrap();
            *cursor = i + 1;
            return Some(
                match direction {
                    Direction::Outgoing => to,
                    Direction::Incoming => from,
                },
            );
        }
        i += 1;
    }
    if *cursor < links.len() {
        *cursor = links.len();
    }
    None
}

/// A position in a walk over the neighbors of an element of a hypergraph. It
/// holds no reference to the hypergraph, which is handed to each step.
#[derive(Debug, Clone)]
pub struct NeighborWalk {
    /// Orientation of the links to follow.
    direction: Direction,
    /// Position in the adjacency list of the source.
    next_link: usize,
    /// Path of the element whose neighbors are walked.
    source_id: Vec<usize>,
}

impl NeighborWalk {
    /// The orientation of the links that the walk follows.
    pub closed spec fn direction(self) -> Direction {
        self.direction
    }

    /// The position in the adjacency list from which the walk goes on.
    pub closed spec fn cursor(self) -> usize {
        self.next_link
    }

    /// The path of the element whose neighbors are walked.
    pub closed spec fn source(self) -> Seq<usize> {
        self.source_id@
    }

    /// Creates a walk over the neighbors of `source_id` that goes on from
    /// position `next_link` of its adjacency list.
    pub fn new(direction: Direction, next_link: usize, source_id: &[usize]) -> (r: Self)
        ensures
            r.direction() == direction,
            r.cursor() == next_link,
            r.source() == source_id@,
    {
        NeighborWalk { direction, next_link, source_id: to_path(source_id) }
    }

    /// Gives out the next neighbor: see [`WalkNeighbors::walk_next`].
    pub fn next<'a, N, E, H, L, Ty>(&mut self, hypergraph: &'a Hypergraph<N, E, H, L, Ty>) -> (r: Option<
        &'a Vec<usize>,
    >)
        requires
            hypergraph.inv(),
        ensures
            final(self).direction() == old(self).direction(),
            final(self).source() == old(self).source(),
            !walkable(hypergraph@, old(self).source()) ==> r is None && final(self).cursor() == old(
                self,
            ).cursor(),
            walkable(hypergraph@, old(self).source()) ==> match next_match(
                hypergraph@[old(self).source()].adjacency(),
                old(self).direction(),
                old(self).cursor() as int,
            ) {
                Some(j) => {
                    &&& r matches Some(found) && found@ == far_end(
                        hypergraph@,
                        hypergraph@[old(self).source()].adjacency()[j].0,
                        old(self).direction(),
                    )
                    &&& final(self).cursor() == j + 1
                },
                None => {
                    &&& r is None
                    &&& final(self).cursor() == if old(self).cursor() <= hypergraph@[old(
                        self,
                    ).source()].adjacency().len() {
                        hypergraph@[old(self).source()].adjacency().len() as usize
                    } else {
                        old(self).cursor()
                    }
                },
            },
    {
        step_neighbors(self.direction, &self.source_id, &mut self.next_link, hypergraph)
    }
}

/// A position in a walk over the neighbors of an element of a hypergraph. It
/// holds no reference to the hypergraph, which is handed to each step.
#[derive(Debug, Clone)]
pub struct WalkNeighbors {
    /// Orientation of the links to follow.
    direction: Direction,
    /// Position in the adjacency list of the source.
    next_link: usize,
    /// Path of the element whose neighbors are walked.
    source_id: Vec<usize>,
}

impl WalkNeighbors {
    /// The orientation of the links that the walk follows.
    pub closed spec fn direction(self) -> Direction {
        self.direction
    }

    /// The position in the adjacency list from which the walk goes on.
    pub closed spec fn cursor(self) -> usize {
        self.next_link
    }

    /// The path of the element whose neighbors are walked.
    pub closed spec fn source(self) -> Seq<usize> {
        self.source_id@
    }

    /// Creates a walk over the neighbors of `source_id` from the start of its
    /// adjacency list.
    pub fn new(direction: Direction, source_id: &[usize]) -> (r: Self)
        ensures
            r.direction() == direction,
            r.cursor() == 0,
            r.source() == source_id@,
    {
        Self::new_from(direction, 0, source_id)
    }

    /// Creates a walk over the neighbors of `source_id` that goes on from
    /// position `next_link` of its adjacency list.
    pub fn new_from(direction: Direction, next_link: usize, source_id: &[usize]) -> (r: Self)
        ensures
            r.direction() == direction,
            r.cursor() == next_link,
            r.source() == source_id@,
    {
        WalkNeighbors { direction, next_link, source_id: to_path(source_id) }
    }

    /// Creates a walk over the neighbors of `source_id` from the start of its
    /// adjacency list, after making sure that `source_id` has one.
    pub fn new_checked<N, E, H, L, Ty>(
        hypergraph: &Hypergraph<N, E, H, L, Ty>,
        source_id: &[usize],
        direction: Direction,
    ) -> (r: Result<Self, NewError>)
        requires
            hypergraph.wf(),
        ensures
            match r {
                Ok(w) => walkable(hypergraph@, source_id@) && w.direction() == direction && w.cursor() == 0
                    && w.source() == source_id@,
                Err(e) => !walkable(hypergraph@, source_id@) && e.0.0@ == source_id@,
            },
    {
        if hypergraph.contains_linkable(source_id) {
            Ok(Self::new(direction, source_id))
        } else {
            Err(NewError(NoElementLinkable(to_path(source_id))))
        }
    }

    /// Gives out the next neighbor of the source.
    ///
    /// The step looks from the cursor on for an entry of the adjacency list
    /// with the orientation of the walk. Where it finds one, it gives out the
    /// element at the other end of that link and moves the cursor behind the
    /// entry. Where it finds none, it gives out nothing and leaves the cursor
    /// at the end of the list, so that links added later are seen by a later
    /// step. Where the source has no adjacency list, it gives out nothing.
    pub fn walk_next<'a, N, E, H, L, Ty>(&mut self, hypergraph: &'a Hypergraph<N, E, H, L, Ty>) -> (r: Option<
        &'a Vec<usize>,
    >)
        requires
            hypergraph.inv(),
        ensures
            final(self).direction() == old(self).direction(),
            final(self).source() == old(self).source(),
            !walkable(hypergraph@, old(self).source()) ==> r is None && final(self).cursor() == old(
                self,
            ).cursor(),
            walkable(hypergraph@, old(self).source()) ==> match next_match(
                hypergraph@[old(self).source()].adjacency(),
                old(self).direction(),
                old(self).cursor() as int,
            ) {
                Some(j) => {
                    &&& r matches Some(found) && found@ == far_end(
                        hypergraph@,
                        hypergraph@[old(self).source()].adjacency()[j].0,
                        old(self).direction(),
                    )
                    &&& final(self).cursor() == j + 1
                },
                None => {
                    &&& r is None
                    &&& final(self).cursor() == if old(self).cursor() <= hypergraph@[old(
                        self,
                    ).source()].adjacency().len() {
                        hypergraph@[old(self).source()].adjacency().len() as usize
                    } else {
                        old(self).cursor()
                    }
                },
            },
    {
        step_neighbors(self.direction, &self.source_id, &mut self.next_link, hypergraph)
    }
}

} // verus!
