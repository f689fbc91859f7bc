//! What holds of every hypergraph that obeys the structural rules, stated
//! for one element at a time. A hypergraph obeys the rules when it is
//! created, and every operation that changes it keeps them.

use vstd::prelude::*;
use crate::direction::Direction;
use crate::hypergraph::Hypergraph;
use crate::model::adjacency_rules;
use crate::model::edge_rules;
use crate::model::entry_rules;
use crate::model::link_rules;
use crate::model::placed;
use crate::model::strip;
use crate::order::at_or_after;
use crate::order::enumerates;
use crate::order::lemma_enumeration_successor;
use crate::order::lemma_enumeration_unique;
use crate::order::lemma_prefixes;
use crate::path::is_prefix;
use crate::path::parent;
use crate::removal::cascade;
use crate::removal::lemma_cascade_of_leaf;
use crate::removal::lemma_cascade_of_link;
use crate::removal::without;
use crate::walkers::after_step;

verus! {

/// Adjacency is symmetric: a link is listed as outgoing by its source and as
/// incoming by its target.
pub proof fn law_adjacency_symmetry<N, E, H, L, Ty>(h: Hypergraph<N, E, H, L, Ty>, link: Seq<usize>)
    requires
        h.inv(),
        h@.dom().contains(link),
        h@[link] is Link,
    ensures
        h@.dom().contains(h@[link].source()),
        h@.dom().contains(h@[link].target()),
        h@[h@[link].source()].adjacency().contains((link, Direction::Outgoing)),
        h@[h@[link].target()].adjacency().contains((link, Direction::Incoming)),
{
    assert(link_rules(h@, link));
}

/// Adjacency lists name links only: every entry is a link of the hypergraph
/// that starts or ends, as the orientation says, at the owner of the list.
pub proof fn law_adjacency_names_links<N, E, H, L, Ty>(h: Hypergraph<N, E, H, L, Ty>, id: Seq<usize>, i: int)
    requires
        h.inv(),
        h@.dom().contains(id),
        0 <= i < h@[id].adjacency().len(),
    ensures
        h@.dom().contains(h@[id].adjacency()[i].0),
        h@[h@[id].adjacency()[i].0] is Link,
        h@[id].adjacency()[i].1 == Direction::Outgoing ==> h@[h@[id].adjacency()[i].0].source() == id,
        h@[id].adjacency()[i].1 == Direction::Incoming ==> h@[h@[id].adjacency()[i].0].target() == id,
{
    assert(adjacency_rules(h@, id));
    assert(entry_rules(h@, id, h@[id].adjacency()[i]));
}

/// Every hyperedge has at least two links.
pub proof fn law_hyperedge_has_two_links<N, E, H, L, Ty>(h: Hypergraph<N, E, H, L, Ty>, edge: Seq<usize>)
    requires
        h.inv(),
        h@.dom().contains(edge),
        h@[edge] is Edge,
    ensures
        h@[edge].adjacency().len() >= 2,
{
    assert(edge_rules(h@, Set::empty(), edge));
}

/// No link starts or ends at a link, and every link touches a hyperedge.
pub proof fn law_no_link_of_link<N, E, H, L, Ty>(h: Hypergraph<N, E, H, L, Ty>, link: Seq<usize>)
    requires
        h.inv(),
        h@.dom().contains(link),
        h@[link] is Link,
    ensures
        !(h@[h@[link].source()] is Link),
        !(h@[h@[link].target()] is Link),
        h@[h@[link].source()] is Edge || h@[h@[link].target()] is Edge,
        h@[link].source() != h@[link].target(),
{
    assert(link_rules(h@, link));
}

/// A link lies in a hypergraph that contains both of its ends: the path of
/// the hypergraph of the link starts the paths of the hypergraphs of its
/// source and of its target.
pub proof fn law_coherent_placement<N, E, H, L, Ty>(h: Hypergraph<N, E, H, L, Ty>, link: Seq<usize>)
    requires
        h.inv(),
        h@.dom().contains(link),
        h@[link] is Link,
    ensures
        is_prefix(parent(link), parent(h@[link].source())),
        is_prefix(parent(link), parent(h@[link].target())),
{
    assert(link_rules(h@, link));
}

/// Local ids are handed out by one counter for each hypergraph: every
/// element lies in a hypergraph, and its local id is below the counter of
/// that hypergraph. One path names one element, so no local id is shared by
/// two elements of a hypergraph, whatever their kinds.
pub proof fn law_ids_below_counter<N, E, H, L, Ty>(h: Hypergraph<N, E, H, L, Ty>, id: Seq<usize>)
    requires
        h.wf(),
        h@.dom().contains(id),
        id.len() > 0,
    ensures
        h@.dom().contains(parent(id)),
        h@[parent(id)] is Graph,
        id.last() < h@[parent(id)].counter(),
{
    h.lemma_tree_shaped();
    assert(placed(h@, id));
}

/// Removal cascades fully: what is left after an element went with all that
/// goes with it holds no link that starts or ends at something that is gone,
/// no element that lies in something that is gone, and no hyperedge with
/// fewer than two links.
pub proof fn law_removal_leaves_nothing_dangling<N, E, H, L, Ty>(
    h: Hypergraph<N, E, H, L, Ty>,
    after: Hypergraph<N, E, H, L, Ty>,
    id: Seq<usize>,
    p: Seq<usize>,
)
    requires
        h.inv(),
        after.inv(),
        after@ == without(h@, cascade(h@, id)),
        cascade(h@, id).contains(p),
    ensures
        !after@.dom().contains(p),
        forall|l: Seq<usize>| #[trigger]
            after@.dom().contains(l) && after@[l] is Link ==> after@[l].source() != p && after@[l].target() != p,
        forall|q: Seq<usize>| is_prefix(p, q) ==> !after@.dom().contains(q),
{
    crate::removal::lemma_no_dangling(after@, Set::empty(), p);
    after.lemma_tree_shaped();
    assert forall|q: Seq<usize>| is_prefix(p, q) implies !after@.dom().contains(q) by {
        if after@.dom().contains(q) {
            if q.len() > p.len() {
                lemma_prefixes(after@, q, p.len() as int);
            } else {
                assert(q.take(p.len() as int) =~= q);
            }
        }
    }
}

/// Enumeration is complete and ordered, and reading changes nothing: two
/// lists that enumerate the same hypergraph are the same list.
pub proof fn law_enumeration_is_determined<N, E, H, L, Ty>(
    h: Hypergraph<N, E, H, L, Ty>,
    first: Seq<Vec<usize>>,
    second: Seq<Vec<usize>>,
)
    requires
        enumerates(first, h@),
        enumerates(second, h@),
    ensures
        first.len() == second.len(),
        forall|i: int| 0 <= i < first.len() ==> (#[trigger] first[i])@ == second[i]@,
{
    lemma_enumeration_unique(first, second, h@);
}

/// The two ways to enumerate agree: a walk over ids that starts at an
/// element of the list gives out that element and moves to the one behind
/// it, and is over after the last.
pub proof fn law_walk_follows_enumeration<N, E, H, L, Ty>(
    h: Hypergraph<N, E, H, L, Ty>,
    list: Seq<Vec<usize>>,
    i: int,
)
    requires
        enumerates(list, h@),
        0 <= i < list.len(),
    ensures
        at_or_after(h@, list[i]@) == Some(list[i]@),
        after_step(h@, list[i]@) == if i + 1 < list.len() {
            Some(list[i + 1]@)
        } else {
            None
        },
{
    lemma_enumeration_successor(list, h@, i);
}

/// Removal takes no more than it has to: a link goes alone where each of its
/// ends that is a hyperedge keeps two links without it.
pub proof fn law_spare_link_goes_alone<N, E, H, L, Ty>(h: Hypergraph<N, E, H, L, Ty>, link: Seq<usize>)
    requires
        h.inv(),
        h@.dom().contains(link),
        h@[link] is Link,
        h@[h@[link].source()] is Edge ==> strip(h@[h@[link].source()].adjacency(), set![link]).len() >= 2,
        h@[h@[link].target()] is Edge ==> strip(h@[h@[link].target()].adjacency(), set![link]).len() >= 2,
    ensures
        cascade(h@, link) == set![link],
{
    lemma_cascade_of_link(h@, link);
}

/// Removal takes no more than it has to: a node, hyperedge or hypergraph
/// that has no links and holds nothing goes alone.
pub proof fn law_unlinked_leaf_goes_alone<N, E, H, L, Ty>(h: Hypergraph<N, E, H, L, Ty>, id: Seq<usize>)
    requires
        h.inv(),
        h@.dom().contains(id),
        id.len() > 0,
        h@[id].linkable(),
        h@[id].adjacency().len() == 0,
        forall|j: usize| !h@.dom().contains(#[trigger] id.push(j)),
    ensures
        cascade(h@, id) == set![id],
{
    lemma_cascade_of_leaf(h@, id);
}

} // verus!
