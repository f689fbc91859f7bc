//! The mathematical model of a hypergraph, a map from the path of each
//! element to what is known of it, and the structural rules that every
//! hypergraph obeys.

use vstd::prelude::*;
use crate::direction::Direction;
use crate::elements::Element;
use crate::elements::ElementType;
use crate::elements::ElementValue;
use crate::path::is_prefix;
use crate::path::parent;

verus! {

/// One entry of an adjacency list in the model: the id of a link and the
/// orientation in which the owner of the list takes part in it.
pub type LinkRef = (Seq<usize>, Direction);

/// What the model knows of one element.
#[allow(inconsistent_fields)]
pub enum Record<N, E, H, L> {
    /// A node with its payload and adjacency list.
    Node { value: N, links: Seq<LinkRef> },
    /// A hyperedge with its payload and adjacency list.
    Edge { value: E, links: Seq<LinkRef> },
    /// A link with its payload and the ids of its two endpoints.
    Link { value: Option<L>, source: Seq<usize>, target: Seq<usize> },
    /// A hypergraph with its payload, its adjacency list and the local id
    /// that the next element added to it will get.
    Graph { value: Option<H>, links: Seq<LinkRef>, next_id: usize },
}

impl<N, E, H, L> Record<N, E, H, L> {
    /// The kind of the element.
    pub open spec fn kind(self) -> ElementType {
        match self {
            Record::Node { .. } => ElementType::Node,
            Record::Edge { .. } => ElementType::Edge,
            Record::Link { .. } => ElementType::Link,
            Record::Graph { .. } => ElementType::Hypergraph,
        }
    }

    /// Whether the element can be an endpoint of a link.
    pub open spec fn linkable(self) -> bool {
        !(self is Link)
    }

    /// The adjacency list of the element; empty for a link.
    pub open spec fn adjacency(self) -> Seq<LinkRef> {
        match self {
            Record::Node { links, .. } => links,
            Record::Edge { links, .. } => links,
            Record::Link { .. } => Seq::empty(),
            Record::Graph { links, .. } => links,
        }
    }

    /// The same element with another adjacency list; a link stays as it is.
    pub open spec fn with_adjacency(self, links: Seq<LinkRef>) -> Self {
        match self {
            Record::Node { value, .. } => Record::Node { value, links },
            Record::Edge { value, .. } => Record::Edge { value, links },
            Record::Link { .. } => self,
            Record::Graph { value, next_id, .. } => Record::Graph { value, links, next_id },
        }
    }

    /// The payload of a node.
    pub open spec fn node_value(self) -> N
        recommends
            self is Node,
    {
        match self {
            Record::Node { value, .. } => value,
            _ => arbitrary(),
        }
    }

    /// The payload of a hyperedge.
    pub open spec fn edge_value(self) -> E
        recommends
            self is Edge,
    {
        match self {
            Record::Edge { value, .. } => value,
            _ => arbitrary(),
        }
    }

    /// The payload of a link.
    pub open spec fn link_value(self) -> Option<L>
        recommends
            self is Link,
    {
        match self {
            Record::Link { value, .. } => value,
            _ => None,
        }
    }

    /// The payload of a hypergraph.
    pub open spec fn graph_value(self) -> Option<H>
        recommends
            self is Graph,
    {
        match self {
            Record::Graph { value, .. } => value,
            _ => None,
        }
    }

    /// The path of the element that a link leaves; empty for the other kinds.
    pub open spec fn source(self) -> Seq<usize> {
        match self {
            Record::Link { source, .. } => source,
            _ => Seq::empty(),
        }
    }

    /// The path of the element that a link enters; empty for the other kinds.
    pub open spec fn target(self) -> Seq<usize> {
        match self {
            Record::Link { target, .. } => target,
            _ => Seq::empty(),
        }
    }

    /// The local id that the next element of a hypergraph gets; 0 for the
    /// other kinds.
    pub open spec fn counter(self) -> usize {
        match self {
            Record::Graph { next_id, .. } => next_id,
            _ => 0,
        }
    }

    /// The same hypergraph after it has handed out `n` local ids; the other
    /// kinds stay as they are.
    pub open spec fn advanced(self, n: int) -> Self {
        match self {
            Record::Graph { value, links, next_id } => Record::Graph {
                value,
                links,
                next_id: (next_id + n) as usize,
            },
            _ => self,
        }
    }

    /// The same element with another payload; unchanged where the payload is
    /// not of the kind of the element.
    pub open spec fn with_payload(self, payload: ElementValue<N, E, H, L>) -> Self {
        match (self, payload) {
            (Record::Node { links, .. }, ElementValue::Node { value }) => Record::Node { value, links },
            (Record::Edge { links, .. }, ElementValue::Edge { value }) => Record::Edge { value, links },
            (Record::Link { source, target, .. }, ElementValue::Link { value }) => Record::Link {
                value,
                source,
                target,
            },
            (Record::Graph { links, next_id, .. }, ElementValue::Hypergraph { value }) => Record::Graph {
                value,
                links,
                next_id,
            },
            _ => self,
        }
    }

    /// The payload of the element, tagged with its kind.
    pub open spec fn payload(self) -> ElementValue<N, E, H, L> {
        match self {
            Record::Node { value, .. } => ElementValue::Node { value },
            Record::Edge { value, .. } => ElementValue::Edge { value },
            Record::Link { value, .. } => ElementValue::Link { value },
            Record::Graph { value, .. } => ElementValue::Hypergraph { value },
        }
    }
}

/// The record of an element that has just been stored: no links yet, and a
/// hypergraph that has handed out no local id.
pub open spec fn fresh<N, E, H, L>(element: Element<N, E, H, L, Vec<usize>>) -> Record<N, E, H, L> {
    match element {
        Element::Node { value } => Record::Node { value, links: Seq::empty() },
        Element::Edge { value } => Record::Edge { value, links: Seq::empty() },
        Element::Link { source, target, value } => Record::Link { value, source: source@, target: target@ },
        Element::Hypergraph { value } => Record::Graph { value, links: Seq::empty(), next_id: 0 },
    }
}

/// The model of a hypergraph: every element that it holds, at any depth,
/// under its id. The hypergraph itself stands under the empty id.
pub type Model<N, E, H, L> = Map<Seq<usize>, Record<N, E, H, L>>;

/// The local ids of the elements of kind `kind` that lie directly in the root
/// of the model.
pub open spec fn local_ids<N, E, H, L>(m: Model<N, E, H, L>, kind: ElementType) -> Set<usize> {
    Set::new(|k: usize| m.dom().contains(seq![k]) && m[seq![k]].kind() == kind)
}

/// The element `p` lies in a hypergraph of the model, and its local id is
/// below the counter of that hypergraph.
pub open spec fn placed<N, E, H, L>(m: Model<N, E, H, L>, p: Seq<usize>) -> bool {
    &&& m.dom().contains(parent(p))
    &&& m[parent(p)] matches Record::Graph { next_id, .. } && p.last() < next_id
}

/// The ids form a tree: the root is a hypergraph without adjacency list, every
/// other element lies in a hypergraph of the model, and its local id is below
/// the counter of that hypergraph.
pub open spec fn tree_shaped<N, E, H, L>(m: Model<N, E, H, L>) -> bool {
    &&& m.dom().contains(Seq::empty())
    &&& m[Seq::empty()] is Graph
    &&& m[Seq::empty()].adjacency().len() == 0
    &&& forall|p: Seq<usize>| m.dom().contains(p) && p.len() > 0 ==> #[trigger] placed(m, p)
}

/// The rules for the link stored under `p`: both endpoints exist and are not
/// links, at least one of them is a hyperedge, each lists the link with the
/// matching orientation, and the link lies in a hypergraph that contains both.
pub open spec fn link_rules<N, E, H, L>(m: Model<N, E, H, L>, p: Seq<usize>) -> bool {
    m[p] matches Record::Link { source, target, .. } ==> {
        &&& source.len() > 0
        &&& target.len() > 0
        &&& source != target
        &&& m.dom().contains(source)
        &&& m.dom().contains(target)
        &&& m[source].linkable()
        &&& m[target].linkable()
        &&& (m[source] is Edge || m[target] is Edge)
        &&& m[source].adjacency().contains((p, Direction::Outgoing))
        &&& m[target].adjacency().contains((p, Direction::Incoming))
        &&& is_prefix(parent(p), parent(source))
        &&& is_prefix(parent(p), parent(target))
    }
}

/// The rule for one entry of the adjacency list of the element `q`: it names
/// a link of the model that has `q` at the end that the orientation says.
pub open spec fn entry_rules<N, E, H, L>(m: Model<N, E, H, L>, q: Seq<usize>, entry: LinkRef) -> bool {
    &&& m.dom().contains(entry.0)
    &&& m[entry.0] matches Record::Link { source, target, .. } && match entry.1 {
        Direction::Outgoing => source == q,
        Direction::Incoming => target == q,
    }
}

/// The rules for the adjacency list of the element `q`.
pub open spec fn adjacency_rules<N, E, H, L>(m: Model<N, E, H, L>, q: Seq<usize>) -> bool {
    forall|i: int|
        0 <= i < m[q].adjacency().len() ==> entry_rules(m, q, #[trigger] m[q].adjacency()[i])
}

/// The rule for the hyperedge `p`: at least two links, unless it is spared.
pub open spec fn edge_rules<N, E, H, L>(m: Model<N, E, H, L>, spared: Set<Seq<usize>>, p: Seq<usize>) -> bool {
    m[p] is Edge && !spared.contains(p) ==> m[p].adjacency().len() >= 2
}

/// All structural rules but for the hyperedges in `spared`, which may have
/// fewer than two links. This is the state in the middle of a removal.
pub open spec fn consistent_but<N, E, H, L>(m: Model<N, E, H, L>, spared: Set<Seq<usize>>) -> bool {
    &&& tree_shaped(m)
    &&& forall|p: Seq<usize>| m.dom().contains(p) ==> #[trigger] link_rules(m, p)
    &&& forall|p: Seq<usize>| m.dom().contains(p) ==> #[trigger] adjacency_rules(m, p)
    &&& forall|p: Seq<usize>| m.dom().contains(p) ==> #[trigger] edge_rules(m, spared, p)
}

/// All structural rules: the ids form a tree, every link obeys the rules for
/// links, every adjacency list names links that end at its owner, and
/// every hyperedge has at least two links.
pub open spec fn consistent<N, E, H, L>(m: Model<N, E, H, L>) -> bool {
    consistent_but(m, Set::empty())
}

/// The adjacency list without the entries that name a link in `gone`; the
/// others keep their order.
pub open spec fn strip(adj: Seq<LinkRef>, gone: Set<Seq<usize>>) -> Seq<LinkRef>
    decreases adj.len(),
{
    if adj.len() == 0 {
        Seq::empty()
    } else if gone.contains(adj.last().0) {
        strip(adj.drop_last(), gone)
    } else {
        strip(adj.drop_last(), gone).push(adj.last())
    }
}

/// Stripping an adjacency list with one more entry.
pub proof fn lemma_strip_push(adj: Seq<LinkRef>, e: LinkRef, gone: Set<Seq<usize>>)
    ensures
        strip(adj.push(e), gone) == if gone.contains(e.0) {
            strip(adj, gone)
        } else {
            strip(adj, gone).push(e)
        },
{
    assert(adj.push(e).drop_last() =~= adj);
}

/// Stripping two adjacency lists joined end to end.
pub proof fn lemma_strip_concat(a: Seq<LinkRef>, b: Seq<LinkRef>, gone: Set<Seq<usize>>)
    ensures
        strip(a + b, gone) == strip(a, gone) + strip(b, gone),
    decreases b.len(),
{
    if b.len() == 0 {
        assert(a + b =~= a);
        assert(strip(a, gone) + strip(b, gone) =~= strip(a, gone));
    } else {
        lemma_strip_concat(a, b.drop_last(), gone);
        assert((a + b).drop_last() =~= a + b.drop_last());
        assert((a + b).last() == b.last());
        if gone.contains(b.last().0) {
        } else {
            assert(strip(a, gone) + strip(b.drop_last(), gone).push(b.last()) =~= (strip(a, gone) + strip(
                b.drop_last(),
                gone,
            )).push(b.last()));
        }
    }
}

/// What stays after stripping is what was there and names no link in `gone`;
/// the list does not grow.
pub proof fn lemma_strip_contains(adj: Seq<LinkRef>, gone: Set<Seq<usize>>)
    ensures
        forall|e: LinkRef| #[trigger]
            strip(adj, gone).contains(e) <==> adj.contains(e) && !gone.contains(e.0),
        strip(adj, gone).len() <= adj.len(),
    decreases adj.len(),
{
    if adj.len() == 0 {
    } else {
        let rest = adj.drop_last();
        let last = adj.last();
        lemma_strip_contains(rest, gone);
        assert forall|e: LinkRef| #[trigger]
            strip(adj, gone).contains(e) <==> adj.contains(e) && !gone.contains(e.0) by {
            if adj.contains(e) {
                let i = choose|i: int| 0 <= i < adj.len() && adj[i] == e;
                if i < adj.len() - 1 {
                    assert(rest[i] == e);
                }
            }
            if rest.contains(e) {
                let i = choose|i: int| 0 <= i < rest.len() && rest[i] == e;
                assert(adj[i] == e);
            }
            if gone.contains(last.0) {
            } else {
                let t = strip(rest, gone);
                if t.push(last).contains(e) {
                    let i = choose|i: int| 0 <= i < t.push(last).len() && t.push(last)[i] == e;
                    if i < t.len() {
                        assert(t[i] == e);
                    }
                }
                if t.contains(e) {
                    let i = choose|i: int| 0 <= i < t.len() && t[i] == e;
                    assert(t.push(last)[i] == e);
                }
                assert(t.push(last)[t.len() as int] == last);
                assert(adj[adj.len() - 1] == last);
            }
        }
    }
}

/// Stripping changes nothing where no entry names a link in `gone`.
pub proof fn lemma_strip_nothing(adj: Seq<LinkRef>, gone: Set<Seq<usize>>)
    requires
        forall|i: int| 0 <= i < adj.len() ==> !gone.contains(#[trigger] adj[i].0),
    ensures
        strip(adj, gone) == adj,
    decreases adj.len(),
{
    if adj.len() == 0 {
        assert(adj =~= Seq::<LinkRef>::empty());
    } else {
        assert forall|i: int| 0 <= i < adj.drop_last().len() implies !gone.contains(
            #[trigger] adj.drop_last()[i].0,
        ) by {
            assert(adj.drop_last()[i] == adj[i]);
        }
        lemma_strip_nothing(adj.drop_last(), gone);
        assert(!gone.contains(adj[adj.len() - 1].0));
        assert(adj.drop_last().push(adj.last()) =~= adj);
    }
}

/// Stripping twice is stripping once with both sets.
pub proof fn lemma_strip_twice(adj: Seq<LinkRef>, a: Set<Seq<usize>>, b: Set<Seq<usize>>)
    ensures
        strip(strip(adj, a), b) == strip(adj, a.union(b)),
    decreases adj.len(),
{
    if adj.len() == 0 {
    } else {
        lemma_strip_twice(adj.drop_last(), a, b);
        if !a.contains(adj.last().0) {
            lemma_strip_push(strip(adj.drop_last(), a), adj.last(), b);
        }
    }
}

/// Stripping with a larger set leaves no more than with a smaller one.
pub proof fn lemma_strip_monotone(adj: Seq<LinkRef>, a: Set<Seq<usize>>, b: Set<Seq<usize>>)
    requires
        a.subset_of(b),
    ensures
        strip(adj, b).len() <= strip(adj, a).len(),
    decreases adj.len(),
{
    if adj.len() == 0 {
    } else {
        lemma_strip_monotone(adj.drop_last(), a, b);
    }
}

/// The model without the element `q` and without everything below it.
pub open spec fn prune<N, E, H, L>(m: Model<N, E, H, L>, q: Seq<usize>) -> Model<N, E, H, L> {
    m.remove_keys(Set::new(|p: Seq<usize>| is_prefix(q, p)))
}

/// One optional payload is a clone of the other.
pub open spec fn option_cloned<T: Clone>(a: Option<T>, b: Option<T>) -> bool {
    match (a, b) {
        (Some(x), Some(y)) => cloned(x, y),
        (None, None) => true,
        _ => false,
    }
}

/// The payload of `b` is a clone of the payload of `a`.
pub open spec fn payload_cloned<N: Clone, E: Clone, H: Clone, L: Clone>(
    a: Record<N, E, H, L>,
    b: Record<N, E, H, L>,
) -> bool {
    match (a, b) {
        (Record::Node { value: x, .. }, Record::Node { value: y, .. }) => cloned(x, y),
        (Record::Edge { value: x, .. }, Record::Edge { value: y, .. }) => cloned(x, y),
        (Record::Link { value: x, .. }, Record::Link { value: y, .. }) => option_cloned(x, y),
        (Record::Graph { value: x, .. }, Record::Graph { value: y, .. }) => option_cloned(x, y),
        _ => false,
    }
}

/// The model `b` is a copy of the model `a`: the same elements with the same
/// links, and each payload a clone.
pub open spec fn copy_of<N: Clone, E: Clone, H: Clone, L: Clone>(a: Model<N, E, H, L>, b: Model<N, E, H, L>) -> bool {
    &&& forall|p: Seq<usize>| a.dom().contains(p) == #[trigger] b.dom().contains(p)
    &&& forall|p: Seq<usize>| #[trigger]
        a.dom().contains(p) ==> same_but_payload(a[p], b[p]) && payload_cloned(a[p], b[p])
}

/// Two models of the same shape: the same elements with the same links.
pub open spec fn same_shape<N, E, H, L>(a: Model<N, E, H, L>, b: Model<N, E, H, L>) -> bool {
    &&& forall|p: Seq<usize>| a.dom().contains(p) == #[trigger] b.dom().contains(p)
    &&& forall|p: Seq<usize>| #[trigger] a.dom().contains(p) ==> same_but_payload(a[p], b[p])
}

/// The structural rules do not depend on payloads: of two models of the same
/// shape, both obey them or neither does.
pub proof fn lemma_shape_consistent<N, E, H, L>(a: Model<N, E, H, L>, b: Model<N, E, H, L>, spared: Set<Seq<usize>>)
    requires
        consistent_but(a, spared),
        same_shape(a, b),
    ensures
        consistent_but(b, spared),
{
    assert forall|p: Seq<usize>| #[trigger] b.dom().contains(p) implies a.dom().contains(p) && same_but_payload(
        a[p],
        b[p],
    ) by {}
    assert(tree_shaped(b)) by {
        assert(a.dom().contains(Seq::<usize>::empty()));
        assert forall|p: Seq<usize>| b.dom().contains(p) && p.len() > 0 implies #[trigger] placed(b, p) by {
            assert(placed(a, p));
            assert(b.dom().contains(parent(p)));
        }
    }
    assert forall|p: Seq<usize>| b.dom().contains(p) implies #[trigger] link_rules(b, p) by {
        assert(link_rules(a, p));
        if a[p] is Link {
            assert(b.dom().contains(a[p].source()));
            assert(b.dom().contains(a[p].target()));
        }
    }
    assert forall|p: Seq<usize>| b.dom().contains(p) implies #[trigger] adjacency_rules(b, p) by {
        assert(adjacency_rules(a, p));
        assert forall|i: int| 0 <= i < b[p].adjacency().len() implies entry_rules(
            b,
            p,
            #[trigger] b[p].adjacency()[i],
        ) by {
            let e = a[p].adjacency()[i];
            assert(entry_rules(a, p, e));
            assert(b.dom().contains(e.0));
        }
    }
    assert forall|p: Seq<usize>| b.dom().contains(p) implies #[trigger] edge_rules(b, spared, p) by {
        assert(edge_rules(a, spared, p));
    }
}

/// Two records of the same element that differ at most in the payload.
pub open spec fn same_but_payload<N, E, H, L>(a: Record<N, E, H, L>, b: Record<N, E, H, L>) -> bool {
    &&& a.kind() == b.kind()
    &&& a.adjacency() == b.adjacency()
    &&& a.source() == b.source()
    &&& a.target() == b.target()
    &&& a.counter() == b.counter()
}

/// The structural rules do not depend on payloads: a model that obeys them
/// obeys them with another payload for one of its elements.
pub proof fn lemma_payload_consistent<N, E, H, L>(
    m: Model<N, E, H, L>,
    spared: Set<Seq<usize>>,
    id: Seq<usize>,
    rec: Record<N, E, H, L>,
)
    requires
        consistent_but(m, spared),
        m.dom().contains(id),
        same_but_payload(m[id], rec),
    ensures
        consistent_but(m.insert(id, rec), spared),
{
    let after = m.insert(id, rec);
    assert forall|p: Seq<usize>| #[trigger] after.dom().contains(p) implies m.dom().contains(p)
        && same_but_payload(m[p], after[p]) by {}
    assert(tree_shaped(after)) by {
        assert forall|p: Seq<usize>| after.dom().contains(p) && p.len() > 0 implies #[trigger] placed(
            after,
            p,
        ) by {
            assert(placed(m, p));
            assert(after.dom().contains(parent(p)));
        }
    }
    assert forall|p: Seq<usize>| after.dom().contains(p) implies #[trigger] link_rules(after, p) by {
        assert(link_rules(m, p));
        if m[p] is Link {
            assert(after.dom().contains(m[p].source()));
            assert(after.dom().contains(m[p].target()));
        }
    }
    assert forall|p: Seq<usize>| after.dom().contains(p) implies #[trigger] adjacency_rules(after, p) by {
        assert(adjacency_rules(m, p));
        assert forall|i: int| 0 <= i < after[p].adjacency().len() implies entry_rules(
            after,
            p,
            #[trigger] after[p].adjacency()[i],
        ) by {
            let e = m[p].adjacency()[i];
            assert(entry_rules(m, p, e));
            assert(after.dom().contains(e.0));
        }
    }
    assert forall|p: Seq<usize>| after.dom().contains(p) implies #[trigger] edge_rules(after, spared, p) by {
        assert(edge_rules(m, spared, p));
    }
}

/// The model of the hypergraph with id `q` as that hypergraph sees itself:
/// every id loses the initial part `q`, and the hypergraph, which now stands
/// under the empty id, has no adjacency list, as that list is kept by the
/// hypergraph around it.
pub open spec fn subview<N, E, H, L>(m: Model<N, E, H, L>, q: Seq<usize>) -> Model<N, E, H, L> {
    Map::new(
        |x: Seq<usize>| m.dom().contains(q + x),
        |x: Seq<usize>|
            if x.len() == 0 {
                m[q].with_adjacency(Seq::empty())
            } else {
                m[q + x]
            },
    )
}

/// The model `m` after the hypergraph with id `q` has been replaced by one
/// whose own model is `c`. The adjacency list of `q` stays.
pub open spec fn graft<N, E, H, L>(m: Model<N, E, H, L>, q: Seq<usize>, c: Model<N, E, H, L>) -> Model<N, E, H, L> {
    Map::new(
        |p: Seq<usize>|
            if is_prefix(q, p) {
                c.dom().contains(p.skip(q.len() as int))
            } else {
                m.dom().contains(p)
            },
        |p: Seq<usize>|
            if p == q {
                c[Seq::empty()].with_adjacency(m[q].adjacency())
            } else if is_prefix(q, p) {
                c[p.skip(q.len() as int)]
            } else {
                m[p]
            },
    )
}

/// A path that starts with `q` is `q` followed by the rest.
pub proof fn lemma_prefix_split(q: Seq<usize>, p: Seq<usize>)
    requires
        is_prefix(q, p),
    ensures
        p == q + p.skip(q.len() as int),
{
    assert(p =~= q + p.skip(q.len() as int)) by {
        assert forall|i: int| 0 <= i < q.len() implies p[i] == q[i] by {
            assert(p.take(q.len() as int)[i] == p[i]);
        }
    }
}

/// `q` followed by `x` starts with `q`, and the rest is `x`.
pub proof fn lemma_prefix_concat(q: Seq<usize>, x: Seq<usize>)
    ensures
        is_prefix(q, q + x),
        (q + x).skip(q.len() as int) == x,
        (q + x == q) == (x.len() == 0),
{
    assert((q + x).take(q.len() as int) =~= q);
    assert((q + x).skip(q.len() as int) =~= x);
    if x.len() == 0 {
        assert(q + x =~= q);
    }
}

/// The part below `x` of the part below `q` is the part below `q` followed
/// by `x`.
pub proof fn lemma_subview_twice<N, E, H, L>(m: Model<N, E, H, L>, q: Seq<usize>, x: Seq<usize>)
    requires
        x.len() > 0,
    ensures
        subview(subview(m, q), x) == subview(m, q + x),
{
    let lhs = subview(subview(m, q), x);
    let rhs = subview(m, q + x);
    assert(x + Seq::<usize>::empty() =~= x);
    assert((q + x) + Seq::<usize>::empty() =~= q + x);
    assert forall|y: Seq<usize>|
        #![trigger lhs.dom().contains(y)]
        #![trigger rhs.dom().contains(y)]
        lhs.dom().contains(y) == rhs.dom().contains(y) && (lhs.dom().contains(y) ==> lhs[y] == rhs[y]) by {
        assert(q + (x + y) =~= (q + x) + y);
    }
    assert(lhs =~= rhs);
}

/// What the part below `loc` holds under the local id `last` is what the
/// whole holds under `loc` followed by `last`.
pub proof fn lemma_subview_step<N, E, H, L>(m: Model<N, E, H, L>, loc: Seq<usize>, last: usize)
    ensures
        subview(m, loc).dom().contains(seq![last]) == m.dom().contains(loc.push(last)),
        m.dom().contains(loc.push(last)) ==> subview(m, loc)[seq![last]] == m[loc.push(last)],
        subview(subview(m, loc), seq![last]) == subview(m, loc.push(last)),
{
    assert(loc + seq![last] =~= loc.push(last));
    lemma_subview_twice(m, loc, seq![last]);
}

/// Putting back what was there changes nothing.
pub proof fn lemma_graft_same<N, E, H, L>(m: Model<N, E, H, L>, q: Seq<usize>)
    requires
        m.dom().contains(q),
    ensures
        graft(m, q, subview(m, q)) == m,
{
    let c = subview(m, q);
    let g = graft(m, q, c);
    assert(q + Seq::<usize>::empty() =~= q);
    assert forall|p: Seq<usize>|
        #![trigger g.dom().contains(p)]
        #![trigger m.dom().contains(p)]
        g.dom().contains(p) == m.dom().contains(p) && (g.dom().contains(p) ==> g[p] == m[p]) by {
        if is_prefix(q, p) {
            lemma_prefix_split(q, p);
            if p == q {
                assert(p.skip(q.len() as int) =~= Seq::<usize>::empty());
                assert(m[q].with_adjacency(Seq::empty()).with_adjacency(m[q].adjacency()) == m[q]);
            } else {
                assert(p.skip(q.len() as int).len() > 0);
            }
        }
    }
    assert(g =~= m);
}

/// A record put into the nested hypergraph `q` under the path `x` appears
/// in the whole under `q` followed by `x`.
pub proof fn lemma_graft_insert<N, E, H, L>(
    m: Model<N, E, H, L>,
    q: Seq<usize>,
    c: Model<N, E, H, L>,
    x: Seq<usize>,
    r: Record<N, E, H, L>,
)
    requires
        x.len() > 0,
    ensures
        graft(m, q, c.insert(x, r)) == graft(m, q, c).insert(q + x, r),
{
    let lhs = graft(m, q, c.insert(x, r));
    let rhs = graft(m, q, c).insert(q + x, r);
    lemma_prefix_concat(q, x);
    assert forall|p: Seq<usize>|
        #![trigger lhs.dom().contains(p)]
        #![trigger rhs.dom().contains(p)]
        lhs.dom().contains(p) == rhs.dom().contains(p) && (lhs.dom().contains(p) ==> lhs[p] == rhs[p]) by {
        if is_prefix(q, p) {
            lemma_prefix_split(q, p);
            if p == q {
                assert(p.skip(q.len() as int) =~= Seq::<usize>::empty());
            }
        }
    }
    assert(lhs =~= rhs);
}

/// A new record for the nested hypergraph `q` itself appears in the whole
/// with the adjacency list that `q` has there.
pub proof fn lemma_graft_root<N, E, H, L>(
    m: Model<N, E, H, L>,
    q: Seq<usize>,
    c: Model<N, E, H, L>,
    r: Record<N, E, H, L>,
)
    ensures
        graft(m, q, c.insert(Seq::empty(), r)) == graft(m, q, c).insert(q, r.with_adjacency(m[q].adjacency())),
{
    let lhs = graft(m, q, c.insert(Seq::empty(), r));
    let rhs = graft(m, q, c).insert(q, r.with_adjacency(m[q].adjacency()));
    assert(q.take(q.len() as int) =~= q);
    assert(q.skip(q.len() as int) =~= Seq::<usize>::empty());
    assert forall|p: Seq<usize>|
        #![trigger lhs.dom().contains(p)]
        #![trigger rhs.dom().contains(p)]
        lhs.dom().contains(p) == rhs.dom().contains(p) && (lhs.dom().contains(p) ==> lhs[p] == rhs[p]) by {
        if is_prefix(q, p) && p != q {
            lemma_prefix_split(q, p);
            if p.skip(q.len() as int).len() == 0 {
                assert(q + p.skip(q.len() as int) =~= q);
            }
        }
    }
    assert(lhs =~= rhs);
}

/// A record taken out of the nested hypergraph `q` is taken out of the whole.
pub proof fn lemma_graft_remove<N, E, H, L>(
    m: Model<N, E, H, L>,
    q: Seq<usize>,
    c: Model<N, E, H, L>,
    x: Seq<usize>,
)
    requires
        x.len() > 0,
    ensures
        graft(m, q, c.remove(x)) == graft(m, q, c).remove(q + x),
{
    let lhs = graft(m, q, c.remove(x));
    let rhs = graft(m, q, c).remove(q + x);
    lemma_prefix_concat(q, x);
    assert forall|p: Seq<usize>|
        #![trigger lhs.dom().contains(p)]
        #![trigger rhs.dom().contains(p)]
        lhs.dom().contains(p) == rhs.dom().contains(p) && (lhs.dom().contains(p) ==> lhs[p] == rhs[p]) by {
        if is_prefix(q, p) {
            lemma_prefix_split(q, p);
            if p == q {
                assert(p.skip(q.len() as int) =~= Seq::<usize>::empty());
            }
        }
    }
    assert(lhs =~= rhs);
}

/// `q` followed by `x` starts a path exactly if `q` starts it and `x` starts
/// the rest.
pub proof fn lemma_prefix_of_concat(q: Seq<usize>, x: Seq<usize>, p: Seq<usize>)
    ensures
        is_prefix(q + x, p) == (is_prefix(q, p) && is_prefix(x, p.skip(q.len() as int))),
{
    if is_prefix(q + x, p) {
        assert(p.take(q.len() as int) =~= q) by {
            assert forall|i: int| 0 <= i < q.len() implies p[i] == q[i] by {
                assert(p.take((q + x).len() as int)[i] == (q + x)[i]);
            }
        }
        assert(p.skip(q.len() as int).take(x.len() as int) =~= x) by {
            assert forall|i: int| 0 <= i < x.len() implies p[q.len() + i] == x[i] by {
                assert(p.take((q + x).len() as int)[q.len() + i] == (q + x)[q.len() + i]);
            }
        }
    }
    if is_prefix(q, p) && is_prefix(x, p.skip(q.len() as int)) {
        lemma_prefix_split(q, p);
        lemma_prefix_split(x, p.skip(q.len() as int));
        assert(p.take((q + x).len() as int) =~= q + x);
    }
}

/// What is pruned in the nested hypergraph `q` is pruned in the whole.
pub proof fn lemma_graft_prune<N, E, H, L>(
    m: Model<N, E, H, L>,
    q: Seq<usize>,
    c: Model<N, E, H, L>,
    x: Seq<usize>,
)
    requires
        x.len() > 0,
    ensures
        graft(m, q, prune(c, x)) == prune(graft(m, q, c), q + x),
{
    let lhs = graft(m, q, prune(c, x));
    let rhs = prune(graft(m, q, c), q + x);
    lemma_prefix_concat(q, x);
    assert(q.take(q.len() as int) =~= q);
    assert forall|p: Seq<usize>|
        #![trigger lhs.dom().contains(p)]
        #![trigger rhs.dom().contains(p)]
        lhs.dom().contains(p) == rhs.dom().contains(p) && (lhs.dom().contains(p) ==> lhs[p] == rhs[p]) by {
        lemma_prefix_of_concat(q, x, p);
        let gone = Set::new(|y: Seq<usize>| is_prefix(x, y));
        let gone_whole = Set::new(|y: Seq<usize>| is_prefix(q + x, y));
        assert(gone_whole.contains(p) == is_prefix(q + x, p));
        if is_prefix(q, p) {
            lemma_prefix_split(q, p);
            let xs = p.skip(q.len() as int);
            assert(gone.contains(xs) == is_prefix(x, xs));
            assert(prune(c, x).dom().contains(xs) == (c.dom().contains(xs) && !is_prefix(x, xs)));
            if p == q {
                assert(xs =~= Seq::<usize>::empty());
            }
        }
    }
    assert(lhs =~= rhs);
}

/// Grafting into a hypergraph that is itself nested in the hypergraph `k`
/// is grafting into the whole at the longer path.
pub proof fn lemma_graft_nested<N, E, H, L>(m: Model<N, E, H, L>, k: usize, q1: Seq<usize>, c: Model<N, E, H, L>)
    requires
        q1.len() > 0,
        m.dom().contains(seq![k] + q1),
    ensures
        graft(m, seq![k], graft(subview(m, seq![k]), q1, c)) == graft(m, seq![k] + q1, c),
{
    let q = seq![k];
    let qs = q + q1;
    let inner = graft(subview(m, q), q1, c);
    let lhs = graft(m, q, inner);
    let rhs = graft(m, qs, c);
    assert(qs.skip(1) =~= q1);
    assert(qs.take(1) =~= q);
    assert(q + Seq::<usize>::empty() =~= q);
    assert forall|p: Seq<usize>|
        #![trigger lhs.dom().contains(p)]
        #![trigger rhs.dom().contains(p)]
        lhs.dom().contains(p) == rhs.dom().contains(p) && (lhs.dom().contains(p) ==> lhs[p] == rhs[p]) by {
        if p == q {
            assert(!is_prefix(qs, p));
            assert(p.skip(1) =~= Seq::<usize>::empty());
            assert(!is_prefix(q1, Seq::<usize>::empty()));
            if m.dom().contains(q) {
                assert(inner[Seq::empty()] == m[q].with_adjacency(Seq::empty()));
                assert(m[q].with_adjacency(Seq::empty()).with_adjacency(m[q].adjacency()) == m[q]);
            }
        } else if is_prefix(q, p) {
            let x = p.skip(1);
            assert(p =~= q + x);
            assert(x.len() > 0);
            if is_prefix(q1, x) {
                assert(is_prefix(qs, p)) by {
                    assert(x.take(q1.len() as int) == q1);
                    assert forall|i: int| 0 <= i < qs.len() implies p[i] == qs[i] by {
                        if i >= 1 {
                            assert(x.take(q1.len() as int)[i - 1] == x[i - 1]);
                        } else {
                            assert(p.take(1)[0] == p[0]);
                        }
                    }
                    assert(p.take(qs.len() as int) =~= qs);
                }
                assert(x.skip(q1.len() as int) =~= p.skip(qs.len() as int));
                if x == q1 {
                    assert(p =~= qs);
                } else {
                    if p == qs {
                        assert(x =~= q1);
                    }
                }
            } else {
                if is_prefix(qs, p) {
                    assert(x.take(q1.len() as int) =~= q1) by {
                        assert forall|i: int| 0 <= i < q1.len() implies x[i] == q1[i] by {
                            assert(p.take(qs.len() as int)[i + 1] == qs[i + 1]);
                        }
                    }
                }
                assert(!is_prefix(qs, p));
                assert(q1.take(q1.len() as int) =~= q1);
                assert(p != qs);
            }
        } else {
            if is_prefix(qs, p) {
                assert(p.take(1) =~= q) by {
                    assert(p.take(qs.len() as int)[0] == qs[0]);
                }
            }
            assert(p != qs);
        }
    }
    assert(lhs =~= rhs);
}

} // verus!
