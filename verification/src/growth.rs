//! The model of additions: when an element is refused, and what the model
//! holds after it was added.

use vstd::prelude::*;
use crate::direction::Direction;
use crate::elements::ElementExt;
use crate::elements::ElementType;
use crate::errors::AddRefusal;
use crate::model::LinkRef;
use crate::model::Model;
use crate::model::Record;
use crate::model::adjacency_rules;
use crate::model::consistent;
use crate::model::edge_rules;
use crate::model::entry_rules;
use crate::model::link_rules;
use crate::model::placed;
use crate::model::tree_shaped;
use crate::path::is_prefix;
use crate::path::parent;

verus! {

/// The number of local ids that adding an element of this kind uses up: a
/// hyperedge comes with its two anchor links.
pub open spec fn ids_needed(kind: ElementType) -> int {
    if kind == ElementType::Edge {
        3
    } else {
        1
    }
}

/// The counter of the hypergraph `location` can hand out the local ids that
/// adding an element of this kind takes.
pub open spec fn has_room<N, E, H, L>(m: Model<N, E, H, L>, location: Seq<usize>, kind: ElementType) -> bool {
    m.dom().contains(location) && m[location] is Graph ==> m[location].counter() + ids_needed(kind)
        <= usize::MAX
}

/// Why a new element of kind `kind`, between `source` and `target` if it is a
/// hyperedge or a link, cannot be stored in the hypergraph `location`; nothing
/// if it can. The checks are made in this order, and the first that fails
/// gives the reason:
///
/// 1. `location` names a hypergraph;
/// 2. a node or a hypergraph needs no more;
/// 3. `source`, then `target`, is not the empty path;
/// 4. `source`, then `target`, names an element;
/// 5. `source`, then `target`, is not a link;
/// 6. of the endpoints of a link, exactly one is a hyperedge;
/// 7. `location` contains the hypergraphs of both endpoints.
pub open spec fn refusal<N, E, H, L>(
    m: Model<N, E, H, L>,
    kind: ElementType,
    source: Seq<usize>,
    target: Seq<usize>,
    location: Seq<usize>,
) -> Option<AddRefusal> {
    if !(m.dom().contains(location) && m[location] is Graph) {
        Some(AddRefusal::NoLocation(location))
    } else if kind == ElementType::Node || kind == ElementType::Hypergraph {
        None
    } else if source.len() == 0 {
        Some(AddRefusal::EmptySource)
    } else if target.len() == 0 {
        Some(AddRefusal::EmptyTarget)
    } else if !m.dom().contains(source) {
        Some(AddRefusal::NoSource(source))
    } else if !m.dom().contains(target) {
        Some(AddRefusal::NoTarget(target))
    } else if m[source] is Link {
        Some(AddRefusal::LinkSource(source))
    } else if m[target] is Link {
        Some(AddRefusal::LinkTarget(target))
    } else if kind == ElementType::Link && (m[source] is Edge) == (m[target] is Edge) {
        Some(AddRefusal::Unlinkable(source, target))
    } else if !(is_prefix(location, parent(source)) && is_prefix(location, parent(target))) {
        Some(AddRefusal::IncoherentLink(location, source, target))
    } else {
        None
    }
}

/// The endpoints that an element to be added names; empty paths for a node
/// or a hypergraph.
pub open spec fn endpoints<N, E, H, L>(element: ElementExt<N, E, H, L, Vec<usize>>) -> (Seq<usize>, Seq<usize>) {
    match element {
        ElementExt::Edge { source, target, .. } => (source@, target@),
        ElementExt::Link { source, target, .. } => (source@, target@),
        _ => (Seq::empty(), Seq::empty()),
    }
}

/// The model after the element `with` has got an entry more at the end of
/// its adjacency list.
pub open spec fn linked<N, E, H, L>(m: Model<N, E, H, L>, with: Seq<usize>, entry: LinkRef) -> Model<N, E, H, L> {
    m.insert(with, m[with].with_adjacency(m[with].adjacency().push(entry)))
}

/// The model after a record without links has been stored in the hypergraph
/// `location` under the next local id.
pub open spec fn stored<N, E, H, L>(m: Model<N, E, H, L>, location: Seq<usize>, rec: Record<N, E, H, L>) -> Model<
    N,
    E,
    H,
    L,
> {
    m.insert(location.push(m[location].counter()), rec).insert(location, m[location].advanced(1))
}

/// The model after a link from `source` to `target` has been stored in the
/// hypergraph `location`: the link gets the next local id, the source lists
/// it as outgoing, and the target lists it as incoming.
pub open spec fn added_link<N, E, H, L>(
    m: Model<N, E, H, L>,
    location: Seq<usize>,
    source: Seq<usize>,
    target: Seq<usize>,
    value: Option<L>,
) -> Model<N, E, H, L> {
    let id = location.push(m[location].counter());
    let m1 = stored(m, location, Record::Link { value, source, target });
    let m2 = linked(m1, source, (id, Direction::Outgoing));
    linked(m2, target, (id, Direction::Incoming))
}

/// The model after a hyperedge from `source` to `target` has been stored in
/// the hypergraph `location`. The hyperedge gets the next local id, and the
/// two that follow go to its anchor links, one from `source` to the
/// hyperedge and one from the hyperedge to `target`, both without payload.
/// The hyperedge lists the first as incoming and the second as outgoing;
/// `source` lists the first as outgoing, `target` the second as incoming.
pub open spec fn added_edge<N, E, H, L>(
    m: Model<N, E, H, L>,
    location: Seq<usize>,
    source: Seq<usize>,
    target: Seq<usize>,
    value: E,
) -> Model<N, E, H, L> {
    let c = m[location].counter();
    let edge = location.push(c);
    let first = location.push((c + 1) as usize);
    let second = location.push((c + 2) as usize);
    let m1 = m.insert(
        edge,
        Record::Edge { value, links: seq![(first, Direction::Incoming), (second, Direction::Outgoing)] },
    ).insert(first, Record::Link { value: None, source, target: edge }).insert(
        second,
        Record::Link { value: None, source: edge, target },
    ).insert(location, m[location].advanced(3));
    let m2 = linked(m1, source, (first, Direction::Outgoing));
    linked(m2, target, (second, Direction::Incoming))
}

/// The model after `element` has been stored in the hypergraph `location`.
pub open spec fn added<N, E, H, L>(
    m: Model<N, E, H, L>,
    element: ElementExt<N, E, H, L, Vec<usize>>,
    location: Seq<usize>,
) -> Model<N, E, H, L> {
    match element {
        ElementExt::Node { value } => stored(m, location, Record::Node { value, links: Seq::empty() }),
        ElementExt::Hypergraph { value } => stored(
            m,
            location,
            Record::Graph { value, links: Seq::empty(), next_id: 0 },
        ),
        ElementExt::Link { source, target, value } => added_link(m, location, source@, target@, value),
        ElementExt::Edge { source, target, value } => added_edge(m, location, source@, target@, value),
    }
}

/// No element has a local id at or above the counter of its hypergraph.
pub proof fn lemma_unused_id<N, E, H, L>(m: Model<N, E, H, L>, location: Seq<usize>, k: usize)
    requires
        tree_shaped(m),
        k >= m[location].counter(),
    ensures
        !m.dom().contains(location.push(k)),
        location.push(k) != location,
        parent(location.push(k)) == location,
        location.push(k).last() == k,
{
    let p = location.push(k);
    assert(parent(p) =~= location);
    if m.dom().contains(p) {
        assert(placed(m, p));
    }
}

/// Storing a node or an empty hypergraph keeps all structural rules.
pub proof fn lemma_stored_consistent<N, E, H, L>(m: Model<N, E, H, L>, location: Seq<usize>, rec: Record<N, E, H, L>)
    requires
        consistent(m),
        m.dom().contains(location),
        m[location] is Graph,
        m[location].counter() < usize::MAX,
        rec is Node || rec is Graph,
        rec.adjacency().len() == 0,
    ensures
        consistent(stored(m, location, rec)),
{
    let c = m[location].counter();
    let new = location.push(c);
    let after = stored(m, location, rec);
    lemma_unused_id(m, location, c);
    assert forall|p: Seq<usize>| #[trigger] after.dom().contains(p) implies after[p].kind() == (if p == new {
        rec.kind()
    } else {
        m[p].kind()
    }) && after[p].adjacency() == (if p == new {
        rec.adjacency()
    } else {
        m[p].adjacency()
    }) && after[p].counter() >= (if p == new {
        0
    } else {
        m[p].counter()
    }) && (p != new ==> m.dom().contains(p)) && (after[p] is Link ==> after[p] == m[p]) by {}
    assert(tree_shaped(after)) by {
        assert forall|p: Seq<usize>| after.dom().contains(p) && p.len() > 0 implies #[trigger] placed(
            after,
            p,
        ) by {
            if p != new {
                assert(placed(m, p));
                assert(after.dom().contains(parent(p)));
            }
        }
    }
    assert forall|p: Seq<usize>| after.dom().contains(p) implies #[trigger] link_rules(after, p) by {
        if p != new {
            assert(link_rules(m, p));
            if m[p] is Link {
                assert(after.dom().contains(m[p].source()));
                assert(after.dom().contains(m[p].target()));
            }
        }
    }
    assert forall|p: Seq<usize>| after.dom().contains(p) implies #[trigger] adjacency_rules(after, p) by {
        if p != new {
            assert(adjacency_rules(m, p));
            assert forall|i: int| 0 <= i < after[p].adjacency().len() implies entry_rules(
                after,
                p,
                #[trigger] after[p].adjacency()[i],
            ) by {
                let e = m[p].adjacency()[i];
                assert(entry_rules(m, p, e));
                assert(after.dom().contains(e.0));
            }
        }
    }
    assert forall|p: Seq<usize>| after.dom().contains(p) implies #[trigger] edge_rules(
        after,
        Set::empty(),
        p,
    ) by {
        if p != new {
            assert(edge_rules(m, Set::empty(), p));
        }
    }
}

/// What a list held, it holds after an entry is appended, and it holds the
/// new entry.
pub proof fn lemma_push_contains(adj: Seq<LinkRef>, e: LinkRef)
    ensures
        adj.push(e).contains(e),
        forall|x: LinkRef| adj.contains(x) ==> #[trigger] adj.push(e).contains(x),
{
    assert(adj.push(e)[adj.len() as int] == e);
    assert forall|x: LinkRef| adj.contains(x) implies #[trigger] adj.push(e).contains(x) by {
        let i = choose|i: int| 0 <= i < adj.len() && adj[i] == x;
        assert(adj.push(e)[i] == x);
    }
}

/// Storing a link that passes all checks keeps all structural rules.
pub proof fn lemma_added_link_consistent<N, E, H, L>(
    m: Model<N, E, H, L>,
    location: Seq<usize>,
    source: Seq<usize>,
    target: Seq<usize>,
    value: Option<L>,
)
    requires
        consistent(m),
        refusal(m, ElementType::Link, source, target, location) is None,
        m[location].counter() < usize::MAX,
    ensures
        consistent(added_link(m, location, source, target, value)),
{
    let c = m[location].counter();
    let new = location.push(c);
    let after = added_link(m, location, source, target, value);
    let out = (new, Direction::Outgoing);
    let inc = (new, Direction::Incoming);
    lemma_unused_id(m, location, c);
    lemma_push_contains(m[source].adjacency(), out);
    lemma_push_contains(m[target].adjacency(), inc);
    assert(source != target);
    assert(location != source && location != target);
    assert(is_prefix(location, parent(new))) by {
        assert(location.take(location.len() as int) =~= location);
    }
    assert forall|p: Seq<usize>| #[trigger] after.dom().contains(p) implies after[p] == (if p == new {
        Record::Link { value, source, target }
    } else if p == source {
        m[p].with_adjacency(m[p].adjacency().push(out))
    } else if p == target {
        m[p].with_adjacency(m[p].adjacency().push(inc))
    } else if p == location {
        m[p].advanced(1)
    } else {
        m[p]
    }) && (p != new ==> m.dom().contains(p)) by {}
    assert(tree_shaped(after)) by {
        assert forall|p: Seq<usize>| after.dom().contains(p) && p.len() > 0 implies #[trigger] placed(
            after,
            p,
        ) by {
            if p != new {
                assert(placed(m, p));
                assert(after.dom().contains(parent(p)));
            }
        }
    }
    assert forall|p: Seq<usize>| after.dom().contains(p) implies #[trigger] link_rules(after, p) by {
        if p != new {
            assert(link_rules(m, p));
            if m[p] is Link {
                let s = m[p].source();
                let t = m[p].target();
                assert(after.dom().contains(s));
                assert(after.dom().contains(t));
                assert(after[s].adjacency().contains((p, Direction::Outgoing)));
                assert(after[t].adjacency().contains((p, Direction::Incoming)));
            }
        } else {
            assert(after.dom().contains(source));
            assert(after.dom().contains(target));
        }
    }
    assert forall|p: Seq<usize>| after.dom().contains(p) implies #[trigger] adjacency_rules(after, p) by {
        if p != new {
            assert(adjacency_rules(m, p));
            assert forall|i: int| 0 <= i < after[p].adjacency().len() implies entry_rules(
                after,
                p,
                #[trigger] after[p].adjacency()[i],
            ) by {
                if i < m[p].adjacency().len() {
                    let e = m[p].adjacency()[i];
                    assert(entry_rules(m, p, e));
                    assert(after.dom().contains(e.0));
                    assert(after[p].adjacency()[i] == e);
                } else {
                    assert(after.dom().contains(new));
                }
            }
        }
    }
    assert forall|p: Seq<usize>| after.dom().contains(p) implies #[trigger] edge_rules(
        after,
        Set::empty(),
        p,
    ) by {
        if p != new {
            assert(edge_rules(m, Set::empty(), p));
        }
    }
}

/// Storing a hyperedge that passes all checks, with its two anchor links,
/// keeps all structural rules.
pub proof fn lemma_added_edge_consistent<N, E, H, L>(
    m: Model<N, E, H, L>,
    location: Seq<usize>,
    source: Seq<usize>,
    target: Seq<usize>,
    value: E,
)
    requires
        consistent(m),
        refusal(m, ElementType::Edge, source, target, location) is None,
        m[location].counter() + 3 <= usize::MAX,
    ensures
        consistent(added_edge(m, location, source, target, value)),
{
    let c = m[location].counter();
    let edge = location.push(c);
    let first = location.push((c + 1) as usize);
    let second = location.push((c + 2) as usize);
    let after = added_edge(m, location, source, target, value);
    let out = (first, Direction::Outgoing);
    let inc = (second, Direction::Incoming);
    lemma_unused_id(m, location, c);
    lemma_unused_id(m, location, (c + 1) as usize);
    lemma_unused_id(m, location, (c + 2) as usize);
    assert(edge != first && edge != second && first != second) by {
        assert(edge.last() == c);
        assert(first.last() == c + 1);
        assert(second.last() == c + 2);
    }
    lemma_push_contains(m[source].adjacency(), out);
    lemma_push_contains(m[target].adjacency(), inc);
    lemma_push_contains(m[source].adjacency().push(out), inc);
    assert(location != source && location != target);
    assert(is_prefix(location, location)) by {
        assert(location.take(location.len() as int) =~= location);
    }
    let links = seq![(first, Direction::Incoming), (second, Direction::Outgoing)];
    assert(links[0] == (first, Direction::Incoming));
    assert(links[1] == (second, Direction::Outgoing));
    assert forall|p: Seq<usize>| #[trigger] after.dom().contains(p) implies after[p] == (if p == edge {
        Record::Edge { value, links }
    } else if p == first {
        Record::Link { value: None, source, target: edge }
    } else if p == second {
        Record::Link { value: None, source: edge, target }
    } else if p == location {
        m[p].advanced(3)
    } else if p == source && p == target {
        m[p].with_adjacency(m[p].adjacency().push(out).push(inc))
    } else if p == source {
        m[p].with_adjacency(m[p].adjacency().push(out))
    } else if p == target {
        m[p].with_adjacency(m[p].adjacency().push(inc))
    } else {
        m[p]
    }) && (p != edge && p != first && p != second ==> m.dom().contains(p)) by {}
    assert(tree_shaped(after)) by {
        assert forall|p: Seq<usize>| after.dom().contains(p) && p.len() > 0 implies #[trigger] placed(
            after,
            p,
        ) by {
            if p != edge && p != first && p != second {
                assert(placed(m, p));
                assert(after.dom().contains(parent(p)));
            }
        }
    }
    assert forall|p: Seq<usize>| after.dom().contains(p) implies #[trigger] link_rules(after, p) by {
        if p != edge && p != first && p != second {
            assert(link_rules(m, p));
            if m[p] is Link {
                let s = m[p].source();
                let t = m[p].target();
                assert(after.dom().contains(s));
                assert(after.dom().contains(t));
                assert(after[s].adjacency().contains((p, Direction::Outgoing)));
                assert(after[t].adjacency().contains((p, Direction::Incoming)));
            }
        } else {
            assert(after.dom().contains(source));
            assert(after.dom().contains(target));
            assert(after.dom().contains(edge));
            assert(after[source].adjacency().contains(out));
            assert(after[target].adjacency().contains(inc));
            assert(after[edge].adjacency().contains(links[0]));
            assert(after[edge].adjacency().contains(links[1]));
        }
    }
    assert forall|p: Seq<usize>| after.dom().contains(p) implies #[trigger] adjacency_rules(after, p) by {
        assert(after.dom().contains(first));
        assert(after.dom().contains(second));
        if p != edge && p != first && p != second {
            assert(adjacency_rules(m, p));
            assert forall|i: int| 0 <= i < after[p].adjacency().len() implies entry_rules(
                after,
                p,
                #[trigger] after[p].adjacency()[i],
            ) by {
                if i < m[p].adjacency().len() {
                    let e = m[p].adjacency()[i];
                    assert(entry_rules(m, p, e));
                    assert(after.dom().contains(e.0));
                    assert(after[p].adjacency()[i] == e);
                }
            }
        }
    }
    assert forall|p: Seq<usize>| after.dom().contains(p) implies #[trigger] edge_rules(
        after,
        Set::empty(),
        p,
    ) by {
        if p != edge && p != first && p != second {
            assert(edge_rules(m, Set::empty(), p));
        }
    }
}

} // verus!
