//! The model of removals. With an element goes what cannot stay without it:
//! its links, what lies in it, and every hyperedge that is left with fewer
//! than two links. The set of all that goes is the smallest set that is
//! closed under these rules.

use vstd::prelude::*;
use crate::direction::Direction;
use crate::model::LinkRef;
use crate::model::Model;
use crate::model::adjacency_rules;
use crate::model::consistent_but;
use crate::model::edge_rules;
use crate::model::entry_rules;
use crate::model::lemma_strip_contains;
use crate::model::lemma_strip_nothing;
use crate::model::lemma_strip_twice;
use crate::model::link_rules;
use crate::model::placed;
use crate::model::strip;
use crate::model::tree_shaped;
use crate::order::lemma_prefixes;
use crate::path::is_prefix;
use crate::path::parent;

verus! {

/// The model without the elements in `gone`: they are no longer there, and
/// no adjacency list names a link among them. All else is as it was.
pub open spec fn without<N, E, H, L>(m: Model<N, E, H, L>, gone: Set<Seq<usize>>) -> Model<N, E, H, L> {
    Map::new(
        |p: Seq<usize>| m.dom().contains(p) && !gone.contains(p),
        |p: Seq<usize>| m[p].with_adjacency(strip(m[p].adjacency(), gone)),
    )
}

/// Every link in the adjacency list of `p` is in `gone`.
pub open spec fn links_in<N, E, H, L>(m: Model<N, E, H, L>, gone: Set<Seq<usize>>, p: Seq<usize>) -> bool {
    forall|i: int| 0 <= i < m[p].adjacency().len() ==> gone.contains(#[trigger] m[p].adjacency()[i].0)
}

/// Every element that lies in `p` is in `gone`.
pub open spec fn below_in<N, E, H, L>(m: Model<N, E, H, L>, gone: Set<Seq<usize>>, p: Seq<usize>) -> bool {
    forall|q: Seq<usize>| m.dom().contains(q) && #[trigger] is_prefix(p, q) ==> gone.contains(q)
}

/// A set of elements that can be taken out without leaving a link that ends
/// nowhere or an element that lies nowhere: with each element, the set holds
/// the links of its adjacency list and all that lies in it. The root is not
/// in the set.
pub open spec fn detachable<N, E, H, L>(m: Model<N, E, H, L>, gone: Set<Seq<usize>>) -> bool {
    &&& gone.subset_of(m.dom())
    &&& !gone.contains(Seq::empty())
    &&& forall|p: Seq<usize>| gone.contains(p) ==> #[trigger] links_in(m, gone, p)
    &&& forall|p: Seq<usize>| gone.contains(p) ==> #[trigger] below_in(m, gone, p)
}

/// The elements at which a link of `gone` ends.
pub open spec fn ends_of<N, E, H, L>(m: Model<N, E, H, L>, gone: Set<Seq<usize>>) -> Set<Seq<usize>> {
    Set::new(
        |q: Seq<usize>|
            exists|l: Seq<usize>|
                #![trigger gone.contains(l)]
                gone.contains(l) && m.dom().contains(l) && m[l] is Link && (m[l].source() == q
                    || m[l].target() == q),
    )
}

/// Taking out a set of elements and then another is taking out both.
pub proof fn lemma_without_twice<N, E, H, L>(m: Model<N, E, H, L>, a: Set<Seq<usize>>, b: Set<Seq<usize>>)
    ensures
        without(without(m, a), b) == without(m, a.union(b)),
{
    let lhs = without(without(m, a), b);
    let rhs = without(m, a.union(b));
    assert forall|p: Seq<usize>|
        #![trigger lhs.dom().contains(p)]
        #![trigger rhs.dom().contains(p)]
        lhs.dom().contains(p) == rhs.dom().contains(p) && (lhs.dom().contains(p) ==> lhs[p] == rhs[p]) by {
        if lhs.dom().contains(p) {
            lemma_strip_twice(m[p].adjacency(), a, b);
        }
    }
    assert(lhs =~= rhs);
}

/// Taking out nothing changes nothing.
pub proof fn lemma_without_nothing<N, E, H, L>(m: Model<N, E, H, L>)
    ensures
        without(m, Set::empty()) == m,
{
    let lhs = without(m, Set::<Seq<usize>>::empty());
    assert forall|p: Seq<usize>|
        #![trigger lhs.dom().contains(p)]
        #![trigger m.dom().contains(p)]
        lhs.dom().contains(p) == m.dom().contains(p) && (lhs.dom().contains(p) ==> lhs[p] == m[p]) by {
        if m.dom().contains(p) {
            lemma_strip_nothing(m[p].adjacency(), Set::empty());
        }
    }
    assert(lhs =~= m);
}

/// An entry of a stripped adjacency list is an entry of the list as it was,
/// and names a link that is not in `gone`.
pub proof fn lemma_strip_entry(adj: Seq<LinkRef>, gone: Set<Seq<usize>>, i: int) -> (k: int)
    requires
        0 <= i < strip(adj, gone).len(),
    ensures
        0 <= k < adj.len(),
        adj[k] == strip(adj, gone)[i],
        !gone.contains(adj[k].0),
{
    lemma_strip_contains(adj, gone);
    let e = strip(adj, gone)[i];
    assert(strip(adj, gone).contains(e));
    assert(adj.contains(e));
    choose|k: int| 0 <= k < adj.len() && adj[k] == e
}

/// Taking out a detachable set keeps all structural rules, but for the
/// hyperedges that lose a link: those may now have fewer than two.
pub proof fn lemma_without_consistent<N, E, H, L>(
    m: Model<N, E, H, L>,
    spared: Set<Seq<usize>>,
    gone: Set<Seq<usize>>,
)
    requires
        consistent_but(m, spared),
        detachable(m, gone),
    ensures
        consistent_but(without(m, gone), spared.union(ends_of(m, gone))),
{
    let after = without(m, gone);
    let spared2 = spared.union(ends_of(m, gone));
    assert(tree_shaped(after)) by {
        lemma_strip_nothing(m[Seq::empty()].adjacency(), gone);
        assert forall|p: Seq<usize>| after.dom().contains(p) && p.len() > 0 implies #[trigger] placed(
            after,
            p,
        ) by {
            assert(placed(m, p));
            let q = parent(p);
            if gone.contains(q) {
                assert(below_in(m, gone, q));
                assert(is_prefix(q, p)) by {
                    assert(p.take(q.len() as int) =~= q);
                }
            }
        }
    }
    assert forall|p: Seq<usize>| after.dom().contains(p) implies #[trigger] link_rules(after, p) by {
        assert(link_rules(m, p));
        if m[p] is Link {
            let s = m[p].source();
            let t = m[p].target();
            lemma_strip_contains(m[s].adjacency(), gone);
            lemma_strip_contains(m[t].adjacency(), gone);
            if gone.contains(s) {
                assert(links_in(m, gone, s));
                let i = choose|i: int|
                    0 <= i < m[s].adjacency().len() && m[s].adjacency()[i] == (p, Direction::Outgoing);
                assert(gone.contains(m[s].adjacency()[i].0));
            }
            if gone.contains(t) {
                assert(links_in(m, gone, t));
                let i = choose|i: int|
                    0 <= i < m[t].adjacency().len() && m[t].adjacency()[i] == (p, Direction::Incoming);
                assert(gone.contains(m[t].adjacency()[i].0));
            }
            assert(after.dom().contains(s));
            assert(after.dom().contains(t));
        }
    }
    assert forall|p: Seq<usize>| after.dom().contains(p) implies #[trigger] adjacency_rules(after, p) by {
        assert(adjacency_rules(m, p));
        assert forall|i: int| 0 <= i < after[p].adjacency().len() implies entry_rules(
            after,
            p,
            #[trigger] after[p].adjacency()[i],
        ) by {
            if m[p] is Link {
            } else {
                let k = lemma_strip_entry(m[p].adjacency(), gone, i);
                assert(entry_rules(m, p, m[p].adjacency()[k]));
                assert(after.dom().contains(m[p].adjacency()[k].0));
            }
        }
    }
    assert forall|p: Seq<usize>| after.dom().contains(p) implies #[trigger] edge_rules(after, spared2, p) by {
        assert(edge_rules(m, spared, p));
        assert(adjacency_rules(m, p));
        if m[p] is Edge && !spared2.contains(p) {
            assert forall|i: int| 0 <= i < m[p].adjacency().len() implies !gone.contains(
                #[trigger] m[p].adjacency()[i].0,
            ) by {
                let e = m[p].adjacency()[i];
                assert(entry_rules(m, p, e));
                if gone.contains(e.0) {
                    assert(ends_of(m, gone).contains(p));
                }
            }
            lemma_strip_nothing(m[p].adjacency(), gone);
        }
    }
}

/// More hyperedges may be spared.
pub proof fn lemma_spare_more<N, E, H, L>(m: Model<N, E, H, L>, a: Set<Seq<usize>>, b: Set<Seq<usize>>)
    requires
        consistent_but(m, a),
        a.subset_of(b),
    ensures
        consistent_but(m, b),
{
    assert forall|p: Seq<usize>| m.dom().contains(p) implies #[trigger] edge_rules(m, b, p) by {
        assert(edge_rules(m, a, p));
    }
}

/// What is no hyperedge with fewer than two links need not be spared.
pub proof fn lemma_spare_less<N, E, H, L>(m: Model<N, E, H, L>, a: Set<Seq<usize>>, y: Seq<usize>)
    requires
        consistent_but(m, a),
        !(m.dom().contains(y) && m[y] is Edge && m[y].adjacency().len() < 2),
    ensures
        consistent_but(m, a.remove(y)),
{
    assert forall|p: Seq<usize>| m.dom().contains(p) implies #[trigger] edge_rules(m, a.remove(y), p) by {
        assert(edge_rules(m, a, p));
    }
}

/// No element lies in a link.
pub proof fn lemma_link_is_leaf<N, E, H, L>(m: Model<N, E, H, L>, l: Seq<usize>, q: Seq<usize>)
    requires
        tree_shaped(m),
        m.dom().contains(l),
        !(m[l] is Graph),
        m.dom().contains(q),
        is_prefix(l, q),
    ensures
        q == l,
{
    if q.len() > l.len() {
        lemma_prefixes(m, q, l.len() as int);
    } else {
        assert(q.take(l.len() as int) =~= q);
    }
}

/// The model after a link has been taken out and struck from the adjacency
/// lists of its two ends.
pub open spec fn unlinked<N, E, H, L>(m: Model<N, E, H, L>, l: Seq<usize>) -> Model<N, E, H, L> {
    let s = m[l].source();
    let t = m[l].target();
    let m1 = m.remove(l);
    let m2 = m1.insert(s, m1[s].with_adjacency(strip(m1[s].adjacency(), set![l])));
    m2.insert(t, m2[t].with_adjacency(strip(m2[t].adjacency(), set![l])))
}

/// Taking out a link and striking it from the adjacency lists of its ends
/// leaves the model without the link. The rules hold as before, but that the
/// two ends, if they are hyperedges, may now have fewer than two links.
pub proof fn lemma_unlinked<N, E, H, L>(m: Model<N, E, H, L>, spared: Set<Seq<usize>>, l: Seq<usize>)
    requires
        consistent_but(m, spared),
        m.dom().contains(l),
        m[l] is Link,
    ensures
        unlinked(m, l) == without(m, set![l]),
        detachable(m, set![l]),
        consistent_but(without(m, set![l]), spared.insert(m[l].source()).insert(m[l].target())),
{
    let gone = set![l];
    let s = m[l].source();
    let t = m[l].target();
    let u = unlinked(m, l);
    let w = without(m, gone);
    assert(link_rules(m, l));
    assert(l.len() > 0) by {
        if l.len() == 0 {
            assert(l =~= Seq::<usize>::empty());
        }
    }
    assert(detachable(m, gone)) by {
        assert forall|p: Seq<usize>| gone.contains(p) implies #[trigger] below_in(m, gone, p) by {
            assert forall|q: Seq<usize>| m.dom().contains(q) && #[trigger] is_prefix(p, q) implies gone.contains(
                q,
            ) by {
                lemma_link_is_leaf(m, l, q);
            }
        }
        assert forall|p: Seq<usize>| gone.contains(p) implies #[trigger] links_in(m, gone, p) by {}
    }
    assert forall|p: Seq<usize>|
        #![trigger u.dom().contains(p)]
        #![trigger w.dom().contains(p)]
        u.dom().contains(p) == w.dom().contains(p) && (u.dom().contains(p) ==> u[p] == w[p]) by {
        if w.dom().contains(p) && p != s && p != t {
            assert(adjacency_rules(m, p));
            assert forall|i: int| 0 <= i < m[p].adjacency().len() implies !gone.contains(
                #[trigger] m[p].adjacency()[i].0,
            ) by {
                assert(entry_rules(m, p, m[p].adjacency()[i]));
            }
            lemma_strip_nothing(m[p].adjacency(), gone);
        }
    }
    assert(u =~= w);
    lemma_without_consistent(m, spared, gone);
    assert(ends_of(m, gone).subset_of(set![s, t])) by {
        assert forall|q: Seq<usize>| ends_of(m, gone).contains(q) implies set![s, t].contains(q) by {}
    }
    lemma_spare_more(w, spared.union(ends_of(m, gone)), spared.insert(s).insert(t));
}

/// Taking out an element that has no links and holds nothing leaves the
/// model without it, and keeps the rules.
pub proof fn lemma_leaf_removed<N, E, H, L>(m: Model<N, E, H, L>, spared: Set<Seq<usize>>, x: Seq<usize>)
    requires
        consistent_but(m, spared),
        m.dom().contains(x),
        x.len() > 0,
        m[x].linkable(),
        m[x].adjacency().len() == 0,
        forall|j: usize| !m.dom().contains(#[trigger] x.push(j)),
    ensures
        m.remove(x) == without(m, set![x]),
        crate::model::prune(m, x) == m.remove(x),
        detachable(m, set![x]),
        consistent_but(without(m, set![x]), spared),
{
    let gone = set![x];
    let w = without(m, gone);
    let r = m.remove(x);
    assert forall|q: Seq<usize>| m.dom().contains(q) && is_prefix(x, q) implies q == x by {
        if q.len() > x.len() {
            lemma_prefixes(m, q, x.len() as int);
            assert(q.take(x.len() as int + 1) =~= x.push(q[x.len() as int]));
            assert(q.take(x.len() as int) == x);
        } else {
            assert(q.take(x.len() as int) =~= q);
        }
    }
    assert(detachable(m, gone)) by {
        assert forall|p: Seq<usize>| gone.contains(p) implies #[trigger] below_in(m, gone, p) by {}
        assert forall|p: Seq<usize>| gone.contains(p) implies #[trigger] links_in(m, gone, p) by {}
    }
    assert forall|p: Seq<usize>|
        #![trigger r.dom().contains(p)]
        #![trigger w.dom().contains(p)]
        r.dom().contains(p) == w.dom().contains(p) && (r.dom().contains(p) ==> r[p] == w[p]) by {
        if w.dom().contains(p) {
            assert(adjacency_rules(m, p));
            assert forall|i: int| 0 <= i < m[p].adjacency().len() implies !gone.contains(
                #[trigger] m[p].adjacency()[i].0,
            ) by {
                assert(entry_rules(m, p, m[p].adjacency()[i]));
            }
            lemma_strip_nothing(m[p].adjacency(), gone);
        }
    }
    assert(r =~= w);
    let pr = crate::model::prune(m, x);
    assert(x.take(x.len() as int) =~= x);
    assert forall|p: Seq<usize>|
        #![trigger r.dom().contains(p)]
        #![trigger pr.dom().contains(p)]
        r.dom().contains(p) == pr.dom().contains(p) && (r.dom().contains(p) ==> r[p] == pr[p]) by {
        let cut = Set::new(|q: Seq<usize>| is_prefix(x, q));
        assert(cut.contains(p) == is_prefix(x, p));
    }
    assert(pr =~= r);
    lemma_without_consistent(m, spared, gone);
    assert(ends_of(m, gone) =~= Set::<Seq<usize>>::empty()) by {
        assert forall|q: Seq<usize>| !ends_of(m, gone).contains(q) by {}
    }
    lemma_spare_more(w, spared.union(ends_of(m, gone)), spared);
}

/// The hyperedge `e` keeps at least two links when the elements in `gone`
/// are taken out.
pub open spec fn kept_edge<N, E, H, L>(m: Model<N, E, H, L>, gone: Set<Seq<usize>>, e: Seq<usize>) -> bool {
    m[e] is Edge ==> strip(m[e].adjacency(), gone).len() >= 2
}

/// A set of elements whose removal leaves a model that obeys all rules: it is
/// detachable, and every hyperedge outside it keeps at least two links.
pub open spec fn closed<N, E, H, L>(m: Model<N, E, H, L>, gone: Set<Seq<usize>>) -> bool {
    &&& detachable(m, gone)
    &&& forall|e: Seq<usize>| m.dom().contains(e) && !gone.contains(e) ==> #[trigger] kept_edge(m, gone, e)
}

/// What goes when the elements of `targets` are removed: the elements that
/// are in every closed set that holds the targets. These are the targets
/// themselves, the links of every element that goes, all that lies in a
/// hypergraph that goes, and every hyperedge that is left with fewer than
/// two links.
pub open spec fn cascade_all<N, E, H, L>(m: Model<N, E, H, L>, targets: Set<Seq<usize>>) -> Set<Seq<usize>> {
    Set::new(
        |p: Seq<usize>|
            forall|g: Set<Seq<usize>>| closed(m, g) && targets.subset_of(g) ==> #[trigger] g.contains(p),
    )
}

/// What goes when the element `x` is removed: `x` itself, the links of every
/// element that goes, all that lies in a hypergraph that goes, and every
/// hyperedge that is left with fewer than two links.
pub open spec fn cascade<N, E, H, L>(m: Model<N, E, H, L>, x: Seq<usize>) -> Set<Seq<usize>> {
    cascade_all(m, set![x])
}

/// Every closed set that holds the elements of `targets` holds those of
/// `gone`: once the targets go, `gone` has to go.
pub open spec fn forced<N, E, H, L>(m: Model<N, E, H, L>, targets: Set<Seq<usize>>, gone: Set<Seq<usize>>) -> bool {
    forall|g: Set<Seq<usize>>| closed(m, g) && targets.subset_of(g) ==> #[trigger] gone.subset_of(g)
}

/// What is left of a closed set after a part of it was taken out is closed in
/// the model that is left.
pub proof fn lemma_closed_transfer<N, E, H, L>(m: Model<N, E, H, L>, a: Set<Seq<usize>>, g: Set<Seq<usize>>)
    requires
        closed(m, g),
        a.subset_of(g),
    ensures
        closed(without(m, a), g.difference(a)),
{
    let m1 = without(m, a);
    let g1 = g.difference(a);
    assert(a.union(g1) =~= g);
    assert forall|p: Seq<usize>| g1.contains(p) implies #[trigger] links_in(m1, g1, p) by {
        assert(links_in(m, g, p));
        assert forall|i: int| 0 <= i < m1[p].adjacency().len() implies g1.contains(
            #[trigger] m1[p].adjacency()[i].0,
        ) by {
            if m[p] is Link {
            } else {
                let k = lemma_strip_entry(m[p].adjacency(), a, i);
                assert(g.contains(m[p].adjacency()[k].0));
            }
        }
    }
    assert forall|p: Seq<usize>| g1.contains(p) implies #[trigger] below_in(m1, g1, p) by {
        assert(below_in(m, g, p));
    }
    assert forall|e: Seq<usize>| m1.dom().contains(e) && !g1.contains(e) implies #[trigger] kept_edge(
        m1,
        g1,
        e,
    ) by {
        assert(kept_edge(m, g, e));
        lemma_strip_twice(m[e].adjacency(), a, g1);
    }
}

/// What is forced in two steps is forced: where `a` has to go with the
/// targets, and so have the elements of `next`, and where `b` has to go with
/// `next` once `a` is gone, `b` has to go with the targets.
pub proof fn lemma_forced_chain<N, E, H, L>(
    m: Model<N, E, H, L>,
    targets: Set<Seq<usize>>,
    a: Set<Seq<usize>>,
    next: Set<Seq<usize>>,
    b: Set<Seq<usize>>,
)
    requires
        forced(m, targets, a),
        forced(m, targets, next),
        next.disjoint(a),
        forced(without(m, a), next, b),
    ensures
        forced(m, targets, a.union(b)),
{
    assert forall|g: Set<Seq<usize>>| closed(m, g) && targets.subset_of(g) implies #[trigger] a.union(
        b,
    ).subset_of(g) by {
        assert(a.subset_of(g));
        assert(next.subset_of(g));
        lemma_closed_transfer(m, a, g);
        let g1 = g.difference(a);
        assert(next.subset_of(g1));
        assert(b.subset_of(g1));
    }
}

/// Two sets that have to go with the targets have to go together, the
/// targets themselves have to go, and so has nothing.
pub proof fn lemma_forced_union<N, E, H, L>(
    m: Model<N, E, H, L>,
    targets: Set<Seq<usize>>,
    a: Set<Seq<usize>>,
    b: Set<Seq<usize>>,
)
    requires
        forced(m, targets, a),
        forced(m, targets, b),
    ensures
        forced(m, targets, a.union(b)),
        forced(m, targets, targets),
        forced(m, targets, Set::empty()),
{
    assert forall|g: Set<Seq<usize>>| closed(m, g) && targets.subset_of(g) implies #[trigger] a.union(
        b,
    ).subset_of(g) by {
        assert(a.subset_of(g));
        assert(b.subset_of(g));
    }
}

/// The links of an element that has to go have to go.
pub proof fn lemma_forced_link<N, E, H, L>(m: Model<N, E, H, L>, targets: Set<Seq<usize>>, p: Seq<usize>, i: int)
    requires
        forced(m, targets, set![p]),
        0 <= i < m[p].adjacency().len(),
    ensures
        forced(m, targets, set![m[p].adjacency()[i].0]),
{
    let l = m[p].adjacency()[i].0;
    assert forall|g: Set<Seq<usize>>| closed(m, g) && targets.subset_of(g) implies #[trigger] set![l].subset_of(
        g,
    ) by {
        assert(set![p].subset_of(g));
        assert(g.contains(p));
        assert(links_in(m, g, p));
    }
}

/// What lies in an element that has to go has to go.
pub proof fn lemma_forced_inside<N, E, H, L>(
    m: Model<N, E, H, L>,
    targets: Set<Seq<usize>>,
    p: Seq<usize>,
    q: Seq<usize>,
)
    requires
        forced(m, targets, set![p]),
        m.dom().contains(q),
        is_prefix(p, q),
    ensures
        forced(m, targets, set![q]),
{
    assert forall|g: Set<Seq<usize>>| closed(m, g) && targets.subset_of(g) implies #[trigger] set![q].subset_of(
        g,
    ) by {
        assert(set![p].subset_of(g));
        assert(g.contains(p));
        assert(below_in(m, g, p));
    }
}

/// A hyperedge that is left with fewer than two links once `a` is gone has to
/// go where `a` has to go.
pub proof fn lemma_forced_deficient<N, E, H, L>(
    m: Model<N, E, H, L>,
    targets: Set<Seq<usize>>,
    a: Set<Seq<usize>>,
    e: Seq<usize>,
)
    requires
        forced(m, targets, a),
        without(m, a).dom().contains(e),
        without(m, a)[e] is Edge,
        without(m, a)[e].adjacency().len() < 2,
    ensures
        forced(m, targets, set![e]),
        forced(without(m, a), Set::empty(), set![e]),
{
    let m1 = without(m, a);
    assert forall|g: Set<Seq<usize>>| closed(m, g) && targets.subset_of(g) implies #[trigger] set![e].subset_of(
        g,
    ) by {
        assert(a.subset_of(g));
        lemma_closed_transfer(m, a, g);
        let g1 = g.difference(a);
        if !g1.contains(e) {
            assert(kept_edge(m1, g1, e));
            lemma_strip_contains(m1[e].adjacency(), g1);
        }
    }
    assert forall|g: Set<Seq<usize>>|
        closed(m1, g) && Set::<Seq<usize>>::empty().subset_of(g) implies #[trigger] set![e].subset_of(g) by {
        if !g.contains(e) {
            assert(kept_edge(m1, g, e));
            lemma_strip_contains(m1[e].adjacency(), g);
        }
    }
}

/// A closed set that holds the targets and has to go with them is what goes
/// with them.
pub proof fn lemma_cascade_all_is<N, E, H, L>(m: Model<N, E, H, L>, targets: Set<Seq<usize>>, gone: Set<Seq<usize>>)
    requires
        closed(m, gone),
        targets.subset_of(gone),
        forced(m, targets, gone),
    ensures
        cascade_all(m, targets) == gone,
{
    let c = cascade_all(m, targets);
    assert forall|p: Seq<usize>| c.contains(p) == gone.contains(p) by {
        if c.contains(p) {
            assert(gone.contains(p));
        }
        if gone.contains(p) {
            assert forall|g: Set<Seq<usize>>| closed(m, g) && targets.subset_of(g) implies #[trigger] g.contains(
                p,
            ) by {
                assert(gone.subset_of(g));
            }
        }
    }
    assert(c =~= gone);
}

/// A closed set that holds `x` and has to go with `x` is what goes with `x`.
pub proof fn lemma_cascade_is<N, E, H, L>(m: Model<N, E, H, L>, x: Seq<usize>, gone: Set<Seq<usize>>)
    requires
        closed(m, gone),
        gone.contains(x),
        forced(m, set![x], gone),
    ensures
        cascade(m, x) == gone,
{
    lemma_cascade_all_is(m, set![x], gone);
}

/// What goes with the targets has to go with them.
pub proof fn lemma_cascade_forced<N, E, H, L>(m: Model<N, E, H, L>, targets: Set<Seq<usize>>)
    ensures
        forced(m, targets, cascade_all(m, targets)),
{
    let c = cascade_all(m, targets);
    assert forall|g: Set<Seq<usize>>| closed(m, g) && targets.subset_of(g) implies #[trigger] c.subset_of(g) by {
        assert forall|p: Seq<usize>| c.contains(p) implies g.contains(p) by {}
    }
}

/// Where a model that obeys all rules is left with all rules obeyed after a
/// set of elements was taken out, the set is closed.
pub proof fn lemma_closed_from_result<N, E, H, L>(m: Model<N, E, H, L>, gone: Set<Seq<usize>>)
    requires
        consistent_but(m, Set::empty()),
        gone.subset_of(m.dom()),
        consistent_but(without(m, gone), Set::empty()),
    ensures
        closed(m, gone),
{
    let after = without(m, gone);
    assert(after.dom().contains(Seq::<usize>::empty()));
    assert forall|p: Seq<usize>| gone.contains(p) implies #[trigger] links_in(m, gone, p) by {
        assert(adjacency_rules(m, p));
        assert forall|i: int| 0 <= i < m[p].adjacency().len() implies gone.contains(
            #[trigger] m[p].adjacency()[i].0,
        ) by {
            let e = m[p].adjacency()[i];
            assert(entry_rules(m, p, e));
            if !gone.contains(e.0) {
                assert(after.dom().contains(e.0));
                assert(link_rules(after, e.0));
            }
        }
    }
    assert forall|p: Seq<usize>| gone.contains(p) implies #[trigger] below_in(m, gone, p) by {
        assert forall|q: Seq<usize>| m.dom().contains(q) && #[trigger] is_prefix(p, q) implies gone.contains(
            q,
        ) by {
            if !gone.contains(q) {
                assert(after.dom().contains(q));
                if q.len() > p.len() {
                    lemma_prefixes(after, q, p.len() as int);
                } else {
                    assert(q.take(p.len() as int) =~= q);
                }
            }
        }
    }
    assert forall|e: Seq<usize>| m.dom().contains(e) && !gone.contains(e) implies #[trigger] kept_edge(
        m,
        gone,
        e,
    ) by {
        assert(after.dom().contains(e));
        assert(edge_rules(after, Set::empty(), e));
    }
}

/// Where `c` has to go, the hypergraphs around it need not: nothing that `c`
/// lies in has to go with it.
pub proof fn lemma_forced_spares_above<N, E, H, L>(
    m: Model<N, E, H, L>,
    spared: Set<Seq<usize>>,
    c: Seq<usize>,
    gone: Set<Seq<usize>>,
    p: Seq<usize>,
)
    requires
        consistent_but(m, spared),
        m.dom().contains(c),
        forced(m, set![c], gone),
        is_prefix(p, c),
        p != c,
    ensures
        !gone.contains(p),
{
    let g = Set::new(|q: Seq<usize>| m.dom().contains(q) && !(is_prefix(q, c) && q != c));
    assert(c.take(c.len() as int) =~= c);
    assert(closed(m, g)) by {
        assert(!g.contains(Seq::<usize>::empty())) by {
            assert(c.take(0) =~= Seq::<usize>::empty());
            assert(p.len() < c.len()) by {
                if p.len() == c.len() {
                    assert(c.take(p.len() as int) =~= c);
                }
            }
        }
        assert forall|q: Seq<usize>| g.contains(q) implies #[trigger] links_in(m, g, q) by {
            assert(adjacency_rules(m, q));
            assert forall|i: int| 0 <= i < m[q].adjacency().len() implies g.contains(
                #[trigger] m[q].adjacency()[i].0,
            ) by {
                let l = m[q].adjacency()[i].0;
                assert(entry_rules(m, q, m[q].adjacency()[i]));
                if is_prefix(l, c) && l != c {
                    lemma_link_is_leaf(m, l, c);
                }
            }
        }
        assert forall|q: Seq<usize>| g.contains(q) implies #[trigger] below_in(m, g, q) by {
            assert forall|r: Seq<usize>| m.dom().contains(r) && #[trigger] is_prefix(q, r) implies g.contains(
                r,
            ) by {
                if is_prefix(r, c) && r != c {
                    assert(q.take(q.len() as int) =~= q);
                    assert(is_prefix(q, c)) by {
                        assert(c.take(q.len() as int) =~= c.take(r.len() as int).take(q.len() as int));
                    }
                    if q == c {
                        assert(r.len() >= c.len());
                        assert(c.take(r.len() as int) =~= c);
                    }
                }
            }
        }
        assert forall|e: Seq<usize>| m.dom().contains(e) && !g.contains(e) implies #[trigger] kept_edge(
            m,
            g,
            e,
        ) by {
            lemma_prefixes(m, c, e.len() as int);
        }
    }
    assert(set![c].subset_of(g));
    assert(gone.subset_of(g));
}

/// No link of the model starts or ends at `x`.
pub open spec fn unreferenced<N, E, H, L>(m: Model<N, E, H, L>, x: Seq<usize>) -> bool {
    forall|l: Seq<usize>| #[trigger]
        m.dom().contains(l) && m[l] is Link ==> m[l].source() != x && m[l].target() != x
}

/// In a model that obeys the rules no link starts or ends at something that
/// is not there.
pub proof fn lemma_no_dangling<N, E, H, L>(m: Model<N, E, H, L>, spared: Set<Seq<usize>>, x: Seq<usize>)
    requires
        consistent_but(m, spared),
        !m.dom().contains(x),
    ensures
        unreferenced(m, x),
{
    assert forall|l: Seq<usize>| #[trigger] m.dom().contains(l) && m[l] is Link implies m[l].source() != x
        && m[l].target() != x by {
        assert(link_rules(m, l));
    }
}

/// What goes with `x` when `x` is removed from a model that obeys the rules:
/// `x` goes, the root stays, and what is left obeys the rules again.
pub proof fn lemma_cascade_sound<N, E, H, L>(m: Model<N, E, H, L>, x: Seq<usize>, gone: Set<Seq<usize>>)
    requires
        consistent_but(m, Set::empty()),
        gone.subset_of(m.dom()),
        gone.contains(x),
        forced(m, set![x], gone),
        consistent_but(without(m, gone), Set::empty()),
    ensures
        cascade(m, x) == gone,
        !without(m, gone).dom().contains(x),
        unreferenced(without(m, gone), x),
{
    lemma_closed_from_result(m, gone);
    lemma_cascade_is(m, x, gone);
    lemma_no_dangling(without(m, gone), Set::empty(), x);
}

/// What goes with an element of a model that obeys the rules is a part of
/// the model, and the root is not among it.
pub proof fn lemma_cascade_within<N, E, H, L>(m: Model<N, E, H, L>, x: Seq<usize>)
    requires
        consistent_but(m, Set::empty()),
        m.dom().contains(x),
        x.len() > 0,
    ensures
        cascade(m, x).subset_of(m.dom()),
        !cascade(m, x).contains(Seq::empty()),
{
    {
        // all but the root is a closed set
        let g = Set::new(|p: Seq<usize>| m.dom().contains(p) && p.len() > 0);
        assert(closed(m, g)) by {
            assert forall|p: Seq<usize>| g.contains(p) implies #[trigger] links_in(m, g, p) by {
                assert(adjacency_rules(m, p));
                assert forall|i: int| 0 <= i < m[p].adjacency().len() implies g.contains(
                    #[trigger] m[p].adjacency()[i].0,
                ) by {
                    let l = m[p].adjacency()[i].0;
                    assert(entry_rules(m, p, m[p].adjacency()[i]));
                    if l.len() == 0 {
                        assert(l =~= Seq::<usize>::empty());
                    }
                }
            }
            assert forall|p: Seq<usize>| g.contains(p) implies #[trigger] below_in(m, g, p) by {}
            assert forall|e: Seq<usize>| m.dom().contains(e) && !g.contains(e) implies #[trigger] kept_edge(
                m,
                g,
                e,
            ) by {
                assert(e =~= Seq::<usize>::empty());
            }
        }
        assert(set![x].subset_of(g));
        assert forall|p: Seq<usize>| cascade(m, x).contains(p) implies m.dom().contains(p) by {
            assert(g.contains(p));
        }
        if cascade(m, x).contains(Seq::empty()) {
            assert(g.contains(Seq::<usize>::empty()));
        }
    }
}

/// A link goes alone where each of its ends that is a hyperedge keeps two
/// links without it.
pub proof fn lemma_cascade_of_link<N, E, H, L>(m: Model<N, E, H, L>, l: Seq<usize>)
    requires
        consistent_but(m, Set::empty()),
        m.dom().contains(l),
        m[l] is Link,
        m[m[l].source()] is Edge ==> strip(m[m[l].source()].adjacency(), set![l]).len() >= 2,
        m[m[l].target()] is Edge ==> strip(m[m[l].target()].adjacency(), set![l]).len() >= 2,
    ensures
        cascade(m, l) == set![l],
{
    let gone = set![l];
    lemma_unlinked(m, Set::empty(), l);
    assert(closed(m, gone)) by {
        assert forall|e: Seq<usize>| m.dom().contains(e) && !gone.contains(e) implies #[trigger] kept_edge(
            m,
            gone,
            e,
        ) by {
            if m[e] is Edge && e != m[l].source() && e != m[l].target() {
                assert(edge_rules(m, Set::empty(), e));
                assert(adjacency_rules(m, e));
                assert forall|i: int| 0 <= i < m[e].adjacency().len() implies !gone.contains(
                    #[trigger] m[e].adjacency()[i].0,
                ) by {
                    assert(entry_rules(m, e, m[e].adjacency()[i]));
                }
                lemma_strip_nothing(m[e].adjacency(), gone);
            }
        }
    }
    lemma_forced_union(m, gone, gone, gone);
    lemma_cascade_is(m, l, gone);
}

/// A node, hyperedge or hypergraph goes alone where it has no links and
/// nothing lies in it.
pub proof fn lemma_cascade_of_leaf<N, E, H, L>(m: Model<N, E, H, L>, x: Seq<usize>)
    requires
        consistent_but(m, Set::empty()),
        m.dom().contains(x),
        x.len() > 0,
        m[x].linkable(),
        m[x].adjacency().len() == 0,
        forall|j: usize| !m.dom().contains(#[trigger] x.push(j)),
    ensures
        cascade(m, x) == set![x],
{
    let gone = set![x];
    lemma_leaf_removed(m, Set::empty(), x);
    lemma_closed_from_result(m, gone);
    lemma_forced_union(m, gone, gone, gone);
    lemma_cascade_is(m, x, gone);
}

} // verus!
