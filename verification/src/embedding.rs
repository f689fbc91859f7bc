//! The model of storing a whole hypergraph in another: the paths that the
//! stored hypergraph holds are shifted to where it now lies.

use vstd::prelude::*;
use crate::direction::Direction;
use crate::growth::lemma_unused_id;
use crate::model::LinkRef;
use crate::model::Model;
use crate::model::Record;
use crate::model::adjacency_rules;
use crate::model::consistent;
use crate::model::edge_rules;
use crate::model::entry_rules;
use crate::model::link_rules;
use crate::model::placed;
use crate::model::tree_shaped;
use crate::path::is_prefix;
use crate::path::parent;

verus! {

/// An adjacency list in which every link has the path `q` put in front of
/// its own.
pub open spec fn shifted_links(adj: Seq<LinkRef>, q: Seq<usize>) -> Seq<LinkRef> {
    adj.map_values(|e: LinkRef| (q + e.0, e.1))
}

/// The record of an element whose every path has `q` put in front: the links
/// of its adjacency list, or its source and its target.
pub open spec fn shifted_record<N, E, H, L>(r: Record<N, E, H, L>, q: Seq<usize>) -> Record<N, E, H, L> {
    match r {
        Record::Node { value, links } => Record::Node { value, links: shifted_links(links, q) },
        Record::Edge { value, links } => Record::Edge { value, links: shifted_links(links, q) },
        Record::Link { value, source, target } => Record::Link { value, source: q + source, target: q + target },
        Record::Graph { value, links, next_id } => Record::Graph { value, links: shifted_links(links, q), next_id },
    }
}

/// The model in which every path that an element holds has `q` put in front.
/// The elements stay where they are: this is the model of a hypergraph that
/// is about to be stored under the path `q`.
pub open spec fn shifted<N, E, H, L>(m: Model<N, E, H, L>, q: Seq<usize>) -> Model<N, E, H, L> {
    Map::new(|p: Seq<usize>| m.dom().contains(p), |p: Seq<usize>| shifted_record(m[p], q))
}

/// The model `m` after a hypergraph with the model `g` has been stored, as it
/// is, in the hypergraph `location` under the next local id.
pub open spec fn planted<N, E, H, L>(m: Model<N, E, H, L>, location: Seq<usize>, g: Model<N, E, H, L>) -> Model<
    N,
    E,
    H,
    L,
> {
    let id = location.push(m[location].counter());
    Map::new(
        |p: Seq<usize>| m.dom().contains(p) || (is_prefix(id, p) && g.dom().contains(p.skip(id.len() as int))),
        |p: Seq<usize>|
            if p == location {
                m[p].advanced(1)
            } else if is_prefix(id, p) {
                g[p.skip(id.len() as int)]
            } else {
                m[p]
            },
    )
}

/// The model `m` after a hypergraph with the model `c` has been stored in the
/// hypergraph `location` under the next local id: what `c` holds lies under
/// the path of the new hypergraph, and every path that it holds starts with
/// that path.
pub open spec fn embedded<N, E, H, L>(m: Model<N, E, H, L>, location: Seq<usize>, c: Model<N, E, H, L>) -> Model<
    N,
    E,
    H,
    L,
> {
    planted(m, location, shifted(c, location.push(m[location].counter())))
}

/// Putting a path in front and taking it off again gives the path back.
pub proof fn lemma_concat_skip(q: Seq<usize>, x: Seq<usize>)
    ensures
        is_prefix(q, q + x),
        (q + x).skip(q.len() as int) == x,
        x.len() > 0 ==> parent(q + x) == q + parent(x),
        x.len() > 0 ==> (q + x).last() == x.last(),
        x.len() > 0 ==> q + x != q,
{
    assert((q + x).take(q.len() as int) =~= q);
    assert((q + x).skip(q.len() as int) =~= x);
    if x.len() > 0 {
        assert(parent(q + x) =~= q + parent(x));
    }
}

/// A copy of a hypergraph that obeys the rules, stored in a hypergraph that
/// obeys the rules, leaves a hypergraph that obeys the rules.
pub proof fn lemma_embedded_consistent<N, E, H, L>(m: Model<N, E, H, L>, location: Seq<usize>, c: Model<N, E, H, L>)
    requires
        consistent(m),
        consistent(c),
        m.dom().contains(location),
        m[location] is Graph,
        m[location].counter() < usize::MAX,
    ensures
        consistent(embedded(m, location, c)),
{
    let k = m[location].counter();
    let id = location.push(k);
    let after = embedded(m, location, c);
    lemma_unused_id(m, location, k);
    assert(id.take(id.len() as int) =~= id);
    // nothing of the old model lies under the new path
    assert forall|p: Seq<usize>| m.dom().contains(p) implies !is_prefix(id, p) by {
        if is_prefix(id, p) {
            if p.len() > id.len() {
                crate::order::lemma_prefixes(m, p, id.len() as int);
            } else {
                assert(p.take(id.len() as int) =~= p);
            }
        }
    }
    // what lies under the new path
    assert forall|x: Seq<usize>| #[trigger] c.dom().contains(x) implies after.dom().contains(id + x) && after[id
        + x] == shifted_record(c[x], id) by {
        lemma_concat_skip(id, x);
        assert(id + x != location) by {
            if id + x == location {
                assert(m.dom().contains(id + x));
            }
        }
    }
    assert forall|p: Seq<usize>| #[trigger] after.dom().contains(p) implies if is_prefix(id, p) {
        c.dom().contains(p.skip(id.len() as int)) && p == id + p.skip(id.len() as int) && after[p]
            == shifted_record(c[p.skip(id.len() as int)], id)
    } else {
        m.dom().contains(p) && after[p] == (if p == location {
            m[p].advanced(1)
        } else {
            m[p]
        })
    } by {
        if is_prefix(id, p) {
            crate::model::lemma_prefix_split(id, p);
        }
    }
    assert(tree_shaped(after)) by {
        assert(!is_prefix(id, Seq::<usize>::empty()));
        assert forall|p: Seq<usize>| after.dom().contains(p) && p.len() > 0 implies #[trigger] placed(
            after,
            p,
        ) by {
            if is_prefix(id, p) {
                let x = p.skip(id.len() as int);
                if x.len() == 0 {
                    assert(p =~= id);
                    assert(parent(p) =~= location);
                } else {
                    lemma_concat_skip(id, x);
                    assert(placed(c, x));
                    assert(c.dom().contains(parent(x)));
                }
            } else {
                assert(placed(m, p));
                assert(after.dom().contains(parent(p)));
            }
        }
    }
    assert forall|p: Seq<usize>| after.dom().contains(p) implies #[trigger] link_rules(after, p) by {
        if is_prefix(id, p) {
            let x = p.skip(id.len() as int);
            assert(link_rules(c, x));
            if c[x] is Link {
                let s = c[x].source();
                let t = c[x].target();
                lemma_concat_skip(id, x);
                lemma_concat_skip(id, s);
                lemma_concat_skip(id, t);
                assert(c.dom().contains(s));
                assert(c.dom().contains(t));
                assert(id + s != id + t) by {
                    if id + s == id + t {
                        assert((id + s).skip(id.len() as int) == (id + t).skip(id.len() as int));
                    }
                }
                assert(after[id + s].adjacency().contains((p, Direction::Outgoing))) by {
                    let i = choose|i: int|
                        0 <= i < c[s].adjacency().len() && c[s].adjacency()[i] == (x, Direction::Outgoing);
                    assert(shifted_links(c[s].adjacency(), id)[i] == (id + x, Direction::Outgoing));
                }
                assert(after[id + t].adjacency().contains((p, Direction::Incoming))) by {
                    let i = choose|i: int|
                        0 <= i < c[t].adjacency().len() && c[t].adjacency()[i] == (x, Direction::Incoming);
                    assert(shifted_links(c[t].adjacency(), id)[i] == (id + x, Direction::Incoming));
                }
                assert(is_prefix(parent(p), parent(id + s))) by {
                    assert(parent(p) == id + parent(x));
                    assert(parent(id + s) == id + parent(s));
                    assert((id + parent(s)).take((id + parent(x)).len() as int) =~= id + parent(s).take(
                        parent(x).len() as int,
                    ));
                }
                assert(is_prefix(parent(p), parent(id + t))) by {
                    assert(parent(p) == id + parent(x));
                    assert(parent(id + t) == id + parent(t));
                    assert((id + parent(t)).take((id + parent(x)).len() as int) =~= id + parent(t).take(
                        parent(x).len() as int,
                    ));
                }
            }
        } else {
            assert(link_rules(m, p));
            if m[p] is Link {
                assert(after.dom().contains(m[p].source()));
                assert(after.dom().contains(m[p].target()));
            }
        }
    }
    assert forall|p: Seq<usize>| after.dom().contains(p) implies #[trigger] adjacency_rules(after, p) by {
        if is_prefix(id, p) {
            let x = p.skip(id.len() as int);
            assert(adjacency_rules(c, x));
            assert forall|i: int| 0 <= i < after[p].adjacency().len() implies entry_rules(
                after,
                p,
                #[trigger] after[p].adjacency()[i],
            ) by {
                let e = c[x].adjacency()[i];
                assert(entry_rules(c, x, e));
                assert(c.dom().contains(e.0));
                assert(after[p].adjacency()[i] == (id + e.0, e.1));
            }
        } else {
            assert(adjacency_rules(m, p));
            assert forall|i: int| 0 <= i < after[p].adjacency().len() implies entry_rules(
                after,
                p,
                #[trigger] after[p].adjacency()[i],
            ) by {
                let e = m[p].adjacency()[i];
                assert(entry_rules(m, p, e));
                assert(after.dom().contains(e.0));
            }
        }
    }
    assert forall|p: Seq<usize>| after.dom().contains(p) implies #[trigger] edge_rules(
        after,
        Set::empty(),
        p,
    ) by {
        if is_prefix(id, p) {
            let x = p.skip(id.len() as int);
            assert(edge_rules(c, Set::empty(), x));
        } else {
            assert(edge_rules(m, Set::empty(), p));
        }
    }
}

/// What is planted in a nested hypergraph is planted in the whole.
pub proof fn lemma_graft_planted<N, E, H, L>(m: Model<N, E, H, L>, location: Seq<usize>, g: Model<N, E, H, L>)
    requires
        m.dom().contains(location),
        m[location] is Graph,
    ensures
        crate::model::graft(m, location, planted(crate::model::subview(m, location), Seq::empty(), g)) == planted(
            m,
            location,
            g,
        ),
{
    let sub = crate::model::subview(m, location);
    let k = m[location].counter();
    let inner = planted(sub, Seq::empty(), g);
    let lhs = crate::model::graft(m, location, inner);
    let rhs = planted(m, location, g);
    let id = location.push(k);
    let id0 = Seq::<usize>::empty().push(k);
    assert(location + Seq::<usize>::empty() =~= location);
    assert(sub[Seq::empty()].counter() == k);
    assert(location.take(location.len() as int) =~= location);
    assert(id =~= location + id0);
    assert forall|p: Seq<usize>|
        #![trigger lhs.dom().contains(p)]
        #![trigger rhs.dom().contains(p)]
        lhs.dom().contains(p) == rhs.dom().contains(p) && (lhs.dom().contains(p) ==> lhs[p] == rhs[p]) by {
        crate::model::lemma_prefix_of_concat(location, id0, p);
        if is_prefix(location, p) {
            crate::model::lemma_prefix_split(location, p);
            let x = p.skip(location.len() as int);
            if p == location {
                assert(x =~= Seq::<usize>::empty());
                assert(!is_prefix(id0, x));
                assert(m[location].with_adjacency(Seq::empty()).advanced(1).with_adjacency(
                    m[location].adjacency(),
                ) == m[location].advanced(1));
            } else {
                if is_prefix(id0, x) {
                    assert(x.skip(id0.len() as int) =~= p.skip(id.len() as int));
                }
            }
        }
    }
    assert(lhs =~= rhs);
}

} // verus!
