//! Removing elements with all that goes with them.

use vstd::prelude::*;
use vstd::std_specs::cmp::PartialEqSpec;
use crate::elements::ElementType;
use crate::elements::ElementValue;
use crate::errors::FindError;
use crate::errors::NoEdge;
use crate::errors::NoElement;
use crate::errors::NoHypergraph;
use crate::errors::NoLink;
use crate::errors::NoNode;
use crate::errors::RemoveError;
use crate::hypergraph::Hypergraph;
use crate::hypergraph::find::owned;
use crate::hypergraph::find::value_matches;
use crate::model::Model;
use crate::model::adjacency_rules;
use crate::model::consistent_but;
use crate::model::entry_rules;
use crate::model::link_rules;
use crate::model::placed;
use crate::order::lists;
use crate::path::child_path;
use crate::path::is_prefix;
use crate::path::parent;
use crate::path::same_path;
use crate::path::to_path;
use crate::removal::cascade;
use crate::removal::forced;
use crate::removal::lemma_cascade_sound;
use crate::removal::lemma_forced_chain;
use crate::removal::lemma_forced_deficient;
use crate::removal::lemma_forced_inside;
use crate::removal::lemma_forced_link;
use crate::removal::lemma_forced_union;
use crate::removal::lemma_leaf_removed;
use crate::removal::lemma_spare_less;
use crate::removal::lemma_spare_more;
use crate::removal::lemma_strip_entry;
use crate::removal::lemma_unlinked;
use crate::removal::lemma_without_nothing;
use crate::removal::lemma_without_twice;
use crate::removal::unlinked;
use crate::removal::unreferenced;
use crate::removal::without;
use crate::slots::LinkSlot;
use crate::traits::Main;
use crate::traits::Sub;

verus! {

/// The set of the paths in a list.
pub open spec fn path_set(v: Seq<Vec<usize>>) -> Set<Seq<usize>> {
    Set::new(|p: Seq<usize>| lists(v, p))
}

/// A list with one more path holds one more path.
proof fn lemma_path_set_push(v: Seq<Vec<usize>>, x: Vec<usize>)
    ensures
        path_set(v.push(x)) == path_set(v).insert(x@),
{
    assert forall|p: Seq<usize>| path_set(v.push(x)).contains(p) == path_set(v).insert(x@).contains(p) by {
        if lists(v, p) {
            let i = choose|i: int| 0 <= i < v.len() && (#[trigger] v[i])@ == p;
            assert(v.push(x)[i]@ == p);
        }
        if p == x@ {
            assert(v.push(x)[v.len() as int]@ == p);
        }
        if lists(v.push(x), p) {
            let i = choose|i: int| 0 <= i < v.push(x).len() && (#[trigger] v.push(x)[i])@ == p;
            if i < v.len() {
                assert(v[i]@ == p);
            }
        }
    }
    assert(path_set(v.push(x)) =~= path_set(v).insert(x@));
}

/// The paths of a list from position `i` on are the path at `i` and those
/// behind it.
proof fn lemma_path_set_skip(v: Seq<Vec<usize>>, i: int)
    requires
        0 <= i < v.len(),
    ensures
        path_set(v.skip(i)) == path_set(v.skip(i + 1)).insert(v[i]@),
{
    let a = v.skip(i);
    let b = v.skip(i + 1);
    assert forall|p: Seq<usize>| path_set(a).contains(p) == path_set(b).insert(v[i]@).contains(p) by {
        if lists(a, p) {
            let k = choose|k: int| 0 <= k < a.len() && (#[trigger] a[k])@ == p;
            if k > 0 {
                assert(b[k - 1]@ == p);
            }
        }
        if lists(b, p) {
            let k = choose|k: int| 0 <= k < b.len() && (#[trigger] b[k])@ == p;
            assert(a[k + 1]@ == p);
        }
        if p == v[i]@ {
            assert(a[0]@ == p);
        }
    }
    assert(path_set(a) =~= path_set(b).insert(v[i]@));
}

impl<N, E, H, L> Hypergraph<N, E, H, L, Sub> {
    /// Gives up the hypergraph and returns its payload.
    pub fn into_value(self) -> (r: Option<H>)
        ensures
            r == self@[Seq::empty()].graph_value(),
    {
        let Hypergraph { value, .. } = self;
        value
    }
}

impl<N, E, H, L, Ty> Hypergraph<N, E, H, L, Ty> {
    /// Returns the number of links of the node, hyperedge or nested
    /// hypergraph with path `id`.
    pub(crate) fn link_count_of(&self, id: &[usize]) -> (r: usize)
        requires
            self.wf(),
            id@.len() > 0,
            self@.dom().contains(id@),
            self@[id@].linkable(),
        ensures
            r == self@[id@].adjacency().len(),
    {
        let found = self.links_of(id);
        let links = found.unwrap();
        assert(crate::slots::links_view(links@).len() == links@.len());
        links.len()
    }

    /// Returns `true` if `id` names a hyperedge that has fewer than two
    /// links.
    pub(crate) fn is_deficient(&self, id: &[usize]) -> (r: bool)
        requires
            self.wf(),
        ensures
            r == (self@.dom().contains(id@) && self@[id@] is Edge && self@[id@].adjacency().len() < 2),
    {
        match self.find_edge(id) {
            Some(s) => {
                assert(crate::slots::links_view(s.links@).len() == s.links@.len());
                s.links.len() < 2
            },
            None => false,
        }
    }

    /// Takes the link `l` out and strikes it from the adjacency lists of its
    /// two ends. The ends stay, whatever their number of links is now.
    pub(crate) fn unlink(&mut self, l: &[usize], Ghost(spared): Ghost<Set<Seq<usize>>>) -> (r: LinkSlot<L>)
        requires
            old(self).wf(),
            consistent_but(old(self)@, spared),
            old(self)@.dom().contains(l@),
            old(self)@[l@] is Link,
        ensures
            final(self).wf(),
            final(self)@ == without(old(self)@, set![l@]),
            consistent_but(final(self)@, spared.insert(r.source@).insert(r.target@)),
            final(self).size() + 1 == old(self).size(),
            r.source@ == old(self)@[l@].source(),
            r.target@ == old(self)@[l@].target(),
            r.value == old(self)@[l@].link_value(),
    {
        let ghost m = self@;
        proof {
            self.lemma_root();
            assert(link_rules(m, l@));
            lemma_unlinked(m, spared, l@);
            if l@.len() == 0 {
                assert(l@ =~= Seq::<usize>::empty());
            }
        }
        let r = self.take_link_at(l);
        self.drop_neighbor_at(r.source.as_slice(), l);
        self.drop_neighbor_at(r.target.as_slice(), l);
        proof {
            assert(self@ == unlinked(m, l@));
        }
        r
    }
}

impl<N, E, H, L, Ty> Hypergraph<N, E, H, L, Ty> {
    /// Takes out every link of the element `x`. The far end of each link is
    /// noted in `touched`: it may be a hyperedge that is left with fewer than
    /// two links.
    fn detach_all(
        &mut self,
        x: &[usize],
        touched: &mut Vec<Vec<usize>>,
        Ghost(spared): Ghost<Set<Seq<usize>>>,
    ) -> (gone: Ghost<Set<Seq<usize>>>)
        requires
            old(self).wf(),
            consistent_but(old(self)@, spared.union(path_set(old(touched)@))),
            spared.contains(x@),
            x@.len() > 0,
            old(self)@.dom().contains(x@),
            old(self)@[x@].linkable(),
        ensures
            final(self).wf(),
            gone@.subset_of(old(self)@.dom()),
            !gone@.contains(x@),
            final(self)@ == without(old(self)@, gone@),
            forced(old(self)@, set![x@], gone@),
            consistent_but(final(self)@, spared.union(path_set(final(touched)@))),
            path_set(old(touched)@).subset_of(path_set(final(touched)@)),
            final(self)@[x@].adjacency().len() == 0,
            final(self).size() <= old(self).size(),
    {
        let ghost m = self@;
        let ghost mut gone: Set<Seq<usize>> = Set::empty();
        proof {
            lemma_without_nothing(m);
            lemma_forced_union(m, set![x@], Set::empty(), Set::empty());
        }
        while self.link_count_of(x) > 0
            invariant
                self.wf(),
                x@.len() > 0,
                spared.contains(x@),
                m.dom().contains(x@),
                m[x@].linkable(),
                self@ == without(m, gone),
                gone.subset_of(m.dom()),
                !gone.contains(x@),
                forced(m, set![x@], gone),
                consistent_but(self@, spared.union(path_set(touched@))),
                path_set(old(touched)@).subset_of(path_set(touched@)),
                self.size() <= old(self).size(),
            decreases self.size(),
        {
            let ghost cur = self@;
            let ghost adj = cur[x@].adjacency();
            let ghost s1 = spared.union(path_set(touched@));
            let found = self.links_of(x);
            let links = found.unwrap();
            let l = to_path(links[links.len() - 1].0.as_slice());
            proof {
                let i = adj.len() - 1;
                assert(adj[i] == (links@[i].0@, links@[i].1));
                assert(adjacency_rules(cur, x@));
                assert(entry_rules(cur, x@, adj[i]));
                let k = lemma_strip_entry(m[x@].adjacency(), gone, i);
                lemma_forced_union(m, set![x@], gone, gone);
                lemma_forced_link(m, set![x@], x@, k);
                lemma_forced_union(m, set![x@], gone, set![l@]);
                lemma_without_twice(m, gone, set![l@]);
                assert(link_rules(cur, l@));
            }
            let slot = self.unlink(l.as_slice(), Ghost(s1));
            let other = if same_path(slot.source.as_slice(), x) {
                slot.target
            } else {
                slot.source
            };
            proof {
                lemma_path_set_push(touched@, other);
                gone = gone.union(set![l@]);
                lemma_spare_more(
                    self@,
                    s1.insert(slot.source@).insert(slot.target@),
                    spared.union(path_set(touched@.push(other))),
                );
            }
            touched.push(other);
        }
        Ghost(gone)
    }

    /// Removes every hyperedge of the list `touched` that has fewer than two
    /// links, with all that has to go with it.
    #[verifier::loop_isolation(false)]
    fn settle_all(
        &mut self,
        touched: &Vec<Vec<usize>>,
        Ghost(spared): Ghost<Set<Seq<usize>>>,
        Ghost(fuel): Ghost<nat>,
    ) -> (gone: Ghost<Set<Seq<usize>>>)
        requires
            old(self).wf(),
            consistent_but(old(self)@, spared.union(path_set(touched@))),
            old(self).size() <= fuel,
        ensures
            final(self).wf(),
            gone@.subset_of(old(self)@.dom()),
            final(self)@ == without(old(self)@, gone@),
            forced(old(self)@, Set::empty(), gone@),
            consistent_but(final(self)@, spared),
            final(self).size() <= old(self).size(),
        decreases fuel, 2 * usize::MAX + 3,
    {
        let ghost m = self@;
        let ghost mut gone: Set<Seq<usize>> = Set::empty();
        let ghost none = Set::<Seq<usize>>::empty();
        proof {
            lemma_without_nothing(m);
            lemma_forced_union(m, none, none, none);
            assert(touched@.skip(0) =~= touched@);
        }
        let mut i: usize = 0;
        while i < touched.len()
            invariant
                self.wf(),
                i <= touched@.len(),
                none == Set::<Seq<usize>>::empty(),
                self@ == without(m, gone),
                gone.subset_of(m.dom()),
                forced(m, none, gone),
                consistent_but(self@, spared.union(path_set(touched@.skip(i as int)))),
                self.size() <= old(self).size(),
                old(self).size() <= fuel,
            decreases touched@.len() - i,
        {
            let ghost cur = self@;
            let ghost rest = spared.union(path_set(touched@.skip(i + 1)));
            let y = &touched[i];
            proof {
                lemma_path_set_skip(touched@, i as int);
                assert(spared.union(path_set(touched@.skip(i as int))) =~= rest.insert(y@));
            }
            if self.is_deficient(y.as_slice()) {
                proof {
                    lemma_forced_deficient(m, none, gone, y@);
                    if y@.len() == 0 {
                        assert(y@ =~= Seq::<usize>::empty());
                    }
                }
                let len_y = y.len();
                let r = self.purge(y.as_slice(), Ghost(rest), Ghost(self.size()));
                proof {
                    let more = r.1@;
                    assert(set![y@].disjoint(gone));
                    lemma_forced_chain(m, none, gone, set![y@], more);
                    lemma_without_twice(m, gone, more);
                    gone = gone.union(more);
                }
            } else {
                proof {
                    lemma_spare_less(cur, rest.insert(y@), y@);
                    lemma_spare_more(cur, rest.insert(y@).remove(y@), rest);
                }
            }
            i += 1;
        }
        proof {
            assert(path_set(touched@.skip(touched@.len() as int)) =~= Set::<Seq<usize>>::empty()) by {
                assert forall|p: Seq<usize>| !path_set(touched@.skip(touched@.len() as int)).contains(p) by {}
            }
            assert(spared.union(Set::<Seq<usize>>::empty()) =~= spared);
        }
        Ghost(gone)
    }

    /// Removes all that lies in the hypergraph `x`, with all that has to go
    /// with it. Ends of links that were taken out are noted in `touched`.
    #[verifier::loop_isolation(false)]
    fn empty_out(
        &mut self,
        x: &[usize],
        touched: &mut Vec<Vec<usize>>,
        Ghost(spared): Ghost<Set<Seq<usize>>>,
        Ghost(fuel): Ghost<nat>,
    ) -> (gone: Ghost<Set<Seq<usize>>>)
        requires
            old(self).wf(),
            consistent_but(old(self)@, spared.union(path_set(old(touched)@))),
            x@.len() > 0,
            old(self)@.dom().contains(x@),
            old(self)@[x@] is Graph,
            old(self).size() <= fuel,
        ensures
            final(self).wf(),
            gone@.subset_of(old(self)@.dom()),
            !gone@.contains(x@),
            final(self)@ == without(old(self)@, gone@),
            forced(old(self)@, set![x@], gone@),
            consistent_but(final(self)@, spared.union(path_set(final(touched)@))),
            path_set(old(touched)@).subset_of(path_set(final(touched)@)),
            forall|j: usize| !final(self)@.dom().contains(#[trigger] x@.push(j)),
            final(self).size() <= old(self).size(),
        decreases fuel, 2 * (usize::MAX - x@.len()),
    {
        let ghost m = self@;
        let ghost mut gone: Set<Seq<usize>> = Set::empty();
        let n = x.len();
        proof {
            lemma_without_nothing(m);
            lemma_forced_union(m, set![x@], Set::empty(), Set::empty());
        }
        let mut more: bool = true;
        while more
            invariant
                self.wf(),
                n == x@.len(),
                x@.len() > 0,
                m.dom().contains(x@),
                m[x@] is Graph,
                self@ == without(m, gone),
                gone.subset_of(m.dom()),
                !gone.contains(x@),
                forced(m, set![x@], gone),
                consistent_but(self@, spared.union(path_set(touched@))),
                path_set(old(touched)@).subset_of(path_set(touched@)),
                self.size() <= old(self).size(),
                old(self).size() <= fuel,
                !more ==> forall|j: usize| !self@.dom().contains(#[trigger] x@.push(j)),
            decreases
                    (if more {
                        self.size() + 1
                    } else {
                        0
                    }),
        {
            let ghost cur = self@;
            let ghost s1 = spared.union(path_set(touched@));
            match self.next_in(x, 0) {
                None => {
                    more = false;
                },
                Some(k) => {
                    let c = child_path(x, k);
                    proof {
                        assert(is_prefix(x@, c@)) by {
                            assert(c@.take(x@.len() as int) =~= x@);
                        }
                        lemma_forced_union(m, set![x@], gone, gone);
                        lemma_forced_inside(m, set![x@], x@, c@);
                    }
                    if self.contains_link(c.as_slice()) {
                        let slot = self.unlink(c.as_slice(), Ghost(s1));
                        proof {
                            lemma_forced_union(m, set![x@], gone, set![c@]);
                            lemma_without_twice(m, gone, set![c@]);
                            gone = gone.union(set![c@]);
                            lemma_path_set_push(touched@, slot.source);
                            lemma_path_set_push(touched@.push(slot.source), slot.target);
                            lemma_spare_more(
                                self@,
                                s1.insert(slot.source@).insert(slot.target@),
                                spared.union(path_set(touched@.push(slot.source).push(slot.target))),
                            );
                        }
                        touched.push(slot.source);
                        touched.push(slot.target);
                    } else {
                        proof {
                            lemma_spare_more(cur, s1, s1.insert(c@));
                        }
                        let len_c = c.len();
                        let r = self.purge(c.as_slice(), Ghost(s1), Ghost(self.size()));
                        proof {
                            let inner = r.1@;
                            assert(set![c@].disjoint(gone));
                            lemma_forced_chain(m, set![x@], gone, set![c@], inner);
                            lemma_without_twice(m, gone, inner);
                            crate::removal::lemma_forced_spares_above(cur, s1.insert(c@), c@, inner, x@);
                            gone = gone.union(inner);
                        }
                    }
                },
            }
        }
        Ghost(gone)
    }

    /// Removes the node, hyperedge or nested hypergraph `x`, with all that
    /// has to go with it, and returns its payload.
    ///
    /// First the links of `x` are taken out, then all that lies in `x`, then
    /// `x` itself. Last, every hyperedge that lost a link on the way is
    /// looked at again: one that is left with fewer than two links is
    /// removed in the same way. No element is looked at before the one that
    /// led to it is gone, and each step takes something out, so this ends.
    pub(crate) fn purge(&mut self, x: &[usize], Ghost(spared): Ghost<Set<Seq<usize>>>, Ghost(fuel): Ghost<nat>) -> (r:
        (ElementValue<N, E, H, L>, Ghost<Set<Seq<usize>>>))
        requires
            old(self).wf(),
            consistent_but(old(self)@, spared.insert(x@)),
            x@.len() > 0,
            old(self)@.dom().contains(x@),
            old(self)@[x@].linkable(),
            old(self).size() <= fuel,
        ensures
            final(self).wf(),
            r.1@.subset_of(old(self)@.dom()),
            r.1@.contains(x@),
            final(self)@ == without(old(self)@, r.1@),
            forced(old(self)@, set![x@], r.1@),
            consistent_but(final(self)@, spared),
            final(self).size() < old(self).size(),
            r.0 == old(self)@[x@].payload(),
        decreases fuel, 2 * (usize::MAX - x@.len()) + 1,
    {
        let ghost m = self@;
        let n = x.len();
        let mut touched: Vec<Vec<usize>> = Vec::new();
        let ghost with_x = spared.insert(x@);
        proof {
            assert(path_set(touched@) =~= Set::<Seq<usize>>::empty()) by {
                assert forall|p: Seq<usize>| !path_set(touched@).contains(p) by {}
            }
            assert(with_x.union(path_set(touched@)) =~= with_x);
            self.lemma_tree_shaped();
        }
        let links_gone = self.detach_all(x, &mut touched, Ghost(with_x));
        let ghost m1 = self@;
        let ghost g1 = links_gone@;
        let found_kind = self.kind_of(x);
        let kind = found_kind.unwrap();
        let ghost mut g2: Set<Seq<usize>> = Set::empty();
        if kind == ElementType::Hypergraph {
            let inside_gone = self.empty_out(x, &mut touched, Ghost(with_x), Ghost(self.size()));
            proof {
                g2 = inside_gone@;
            }
        } else {
            proof {
                lemma_without_nothing(m1);
                lemma_forced_union(m1, set![x@], Set::empty(), Set::empty());
                assert forall|j: usize| !m1.dom().contains(#[trigger] x@.push(j)) by {
                    if m1.dom().contains(x@.push(j)) {
                        assert(placed(m1, x@.push(j)));
                        assert(parent(x@.push(j)) =~= x@);
                    }
                }
            }
        }
        let ghost m2 = self@;
        let ghost s2 = with_x.union(path_set(touched@));
        proof {
            lemma_forced_union(m, set![x@], g1, g1);
            assert(set![x@].disjoint(g1));
            lemma_forced_chain(m, set![x@], g1, set![x@], g2);
            lemma_without_twice(m, g1, g2);
            crate::model::lemma_strip_contains(m1[x@].adjacency(), g2);
            lemma_leaf_removed(m2, s2, x@);
        }
        let value = if kind == ElementType::Node {
            let slot = self.take_node_at(x);
            ElementValue::Node { value: slot.value }
        } else if kind == ElementType::Edge {
            let slot = self.take_edge_at(x);
            ElementValue::Edge { value: slot.value }
        } else {
            let slot = self.take_graph_at(x);
            proof {
                assert(x@ + Seq::<usize>::empty() =~= x@);
            }
            ElementValue::Hypergraph { value: slot.graph.into_value() }
        };
        let ghost m3 = self@;
        let ghost g3 = g1.union(g2).union(set![x@]);
        proof {
            lemma_without_twice(m, g1.union(g2), set![x@]);
            lemma_forced_union(m, set![x@], g1.union(g2), set![x@]);
            lemma_spare_less(m3, s2, x@);
            lemma_spare_more(m3, s2.remove(x@), spared.union(path_set(touched@)));
        }
        let late_gone = self.settle_all(&touched, Ghost(spared), Ghost(self.size()));
        proof {
            let g4 = late_gone@;
            lemma_forced_union(m, set![x@], g3, g3);
            lemma_forced_chain(m, set![x@], g3, Set::empty(), g4);
            lemma_without_twice(m, g3, g4);
        }
        (value, Ghost(g3.union(late_gone@)))
    }
}

impl<N, E, H, L> Hypergraph<N, E, H, L, Main> {
    /// Removes the node, hyperedge or nested hypergraph `id` with all that
    /// goes with it.
    fn remove_linkable(&mut self, id: &[usize]) -> (r: ElementValue<N, E, H, L>)
        requires
            old(self).inv(),
            id@.len() > 0,
            old(self)@.dom().contains(id@),
            old(self)@[id@].linkable(),
        ensures
            final(self).inv(),
            final(self)@ == without(old(self)@, cascade(old(self)@, id@)),
            !final(self)@.dom().contains(id@),
            unreferenced(final(self)@, id@),
            r == old(self)@[id@].payload(),
    {
        let ghost m = self@;
        proof {
            lemma_spare_more(m, Set::empty(), Set::<Seq<usize>>::empty().insert(id@));
        }
        let r = self.purge(id, Ghost(Set::empty()), Ghost(self.size()));
        proof {
            lemma_cascade_sound(m, id@, r.1@);
        }
        r.0
    }

    /// Removes the link `id`, and with it every hyperedge that is left with
    /// fewer than two links.
    fn remove_plain_link(&mut self, id: &[usize]) -> (r: Option<L>)
        requires
            old(self).inv(),
            old(self)@.dom().contains(id@),
            old(self)@[id@] is Link,
        ensures
            final(self).inv(),
            final(self)@ == without(old(self)@, cascade(old(self)@, id@)),
            !final(self)@.dom().contains(id@),
            unreferenced(final(self)@, id@),
            r == old(self)@[id@].link_value(),
    {
        let ghost m = self@;
        let ghost none = Set::<Seq<usize>>::empty();
        let slot = self.unlink(id, Ghost(none));
        let ghost m1 = self@;
        let mut touched: Vec<Vec<usize>> = Vec::new();
        proof {
            lemma_path_set_push(touched@, slot.source);
            lemma_path_set_push(touched@.push(slot.source), slot.target);
            assert(path_set(touched@) =~= none) by {
                assert forall|p: Seq<usize>| !path_set(touched@).contains(p) by {}
            }
        }
        touched.push(slot.source);
        touched.push(slot.target);
        proof {
            lemma_spare_more(m1, none.insert(slot.source@).insert(slot.target@), none.union(path_set(touched@)));
        }
        let late = self.settle_all(&touched, Ghost(none), Ghost(self.size()));
        proof {
            let g1 = set![id@];
            lemma_forced_union(m, g1, g1, g1);
            lemma_forced_chain(m, g1, g1, none, late@);
            lemma_without_twice(m, g1, late@);
            lemma_cascade_sound(m, id@, g1.union(late@));
        }
        slot.value
    }

    /// Removes the element `id` and returns its payload. With it goes what
    /// cannot stay: the links of every element that goes, all that lies in a
    /// hypergraph that goes, and every hyperedge that is left with fewer than
    /// two links.
    ///
    /// # Errors
    ///
    /// `NoElement` where there is no such element, `NoHypergraph` for the
    /// empty path, the root, which cannot be removed. The structure is then
    /// left as it was.
    pub fn remove(&mut self, id: &[usize]) -> (r: Result<ElementValue<N, E, H, L>, RemoveError>)
        requires
            old(self).inv(),
        ensures
            final(self).inv(),
            match r {
                Ok(v) => {
                    &&& id@.len() > 0
                    &&& old(self)@.dom().contains(id@)
                    &&& v == old(self)@[id@].payload()
                    &&& final(self)@ == without(old(self)@, cascade(old(self)@, id@))
                    &&& !final(self)@.dom().contains(id@)
                    &&& unreferenced(final(self)@, id@)
                },
                Err(e) => {
                    &&& *final(self) == *old(self)
                    &&& e.path() == id@
                    &&& if old(self)@.dom().contains(id@) {
                        id@.len() == 0 && e is NoHypergraph
                    } else {
                        e is NoElement
                    }
                },
            },
    {
        proof {
            self.lemma_root();
            if id@.len() == 0 {
                assert(id@ =~= Seq::<usize>::empty());
            }
        }
        match self.kind_of(id) {
            None => Err(RemoveError::NoElement(NoElement(to_path(id)))),
            Some(ElementType::Link) => Ok(ElementValue::Link { value: self.remove_plain_link(id) }),
            Some(_) => {
                if id.len() == 0 {
                    Err(RemoveError::NoHypergraph(NoHypergraph(to_path(id))))
                } else {
                    Ok(self.remove_linkable(id))
                }
            },
        }
    }

    /// Removes the node `id`, with its links and all that goes with them, and
    /// returns its payload.
    ///
    /// # Errors
    ///
    /// `NoNode` where `id` names no node; the structure is then left as it
    /// was.
    pub fn remove_node(&mut self, id: &[usize]) -> (r: Result<N, RemoveError>)
        requires
            old(self).inv(),
        ensures
            final(self).inv(),
            match r {
                Ok(v) => {
                    &&& old(self)@.dom().contains(id@) && old(self)@[id@] is Node
                    &&& v == old(self)@[id@].node_value()
                    &&& final(self)@ == without(old(self)@, cascade(old(self)@, id@))
                    &&& !final(self)@.dom().contains(id@)
                    &&& unreferenced(final(self)@, id@)
                },
                Err(e) => {
                    &&& *final(self) == *old(self)
                    &&& !(old(self)@.dom().contains(id@) && old(self)@[id@] is Node)
                    &&& e is NoNode && e.path() == id@
                },
            },
    {
        if !self.contains_node(id) {
            return Err(RemoveError::NoNode(NoNode(to_path(id))));
        }
        proof {
            self.lemma_root();
            if id@.len() == 0 {
                assert(id@ =~= Seq::<usize>::empty());
            }
        }
        match self.remove_linkable(id) {
            ElementValue::Node { value } => Ok(value),
            _ => Err(RemoveError::NoNode(NoNode(to_path(id)))),
        }
    }

    /// Removes the hyperedge `id`, with its links and all that goes with
    /// them, and returns its payload.
    ///
    /// # Errors
    ///
    /// `NoEdge` where `id` names no hyperedge; the structure is then left as
    /// it was.
    pub fn remove_edge(&mut self, id: &[usize]) -> (r: Result<E, RemoveError>)
        requires
            old(self).inv(),
        ensures
            final(self).inv(),
            match r {
                Ok(v) => {
                    &&& old(self)@.dom().contains(id@) && old(self)@[id@] is Edge
                    &&& v == old(self)@[id@].edge_value()
                    &&& final(self)@ == without(old(self)@, cascade(old(self)@, id@))
                    &&& !final(self)@.dom().contains(id@)
                    &&& unreferenced(final(self)@, id@)
                },
                Err(e) => {
                    &&& *final(self) == *old(self)
                    &&& !(old(self)@.dom().contains(id@) && old(self)@[id@] is Edge)
                    &&& e is NoEdge && e.path() == id@
                },
            },
    {
        if !self.contains_edge(id) {
            return Err(RemoveError::NoEdge(NoEdge(to_path(id))));
        }
        proof {
            self.lemma_root();
            if id@.len() == 0 {
                assert(id@ =~= Seq::<usize>::empty());
            }
        }
        match self.remove_linkable(id) {
            ElementValue::Edge { value } => Ok(value),
            _ => Err(RemoveError::NoEdge(NoEdge(to_path(id)))),
        }
    }

    /// Removes the nested hypergraph `id`, with its links, all that lies in
    /// it and all that goes with them, and returns its payload.
    ///
    /// # Errors
    ///
    /// `NoHypergraph` where `id` names no nested hypergraph; the structure
    /// is then left as it was.
    pub fn remove_subhypergraph(&mut self, id: &[usize]) -> (r: Result<Option<H>, RemoveError>)
        requires
            old(self).inv(),
        ensures
            final(self).inv(),
            match r {
                Ok(v) => {
                    &&& id@.len() > 0
                    &&& old(self)@.dom().contains(id@) && old(self)@[id@] is Graph
                    &&& v == old(self)@[id@].graph_value()
                    &&& final(self)@ == without(old(self)@, cascade(old(self)@, id@))
                    &&& !final(self)@.dom().contains(id@)
                    &&& unreferenced(final(self)@, id@)
                    &&& forall|q: Seq<usize>| is_prefix(id@, q) ==> !final(self)@.dom().contains(q)
                },
                Err(e) => {
                    &&& *final(self) == *old(self)
                    &&& !(id@.len() > 0 && old(self)@.dom().contains(id@) && old(self)@[id@] is Graph)
                    &&& e is NoHypergraph && e.path() == id@
                },
            },
    {
        if !self.contains_subhypergraph(id) {
            return Err(RemoveError::NoHypergraph(NoHypergraph(to_path(id))));
        }
        let r = self.remove_linkable(id);
        proof {
            self.lemma_tree_shaped();
            assert forall|q: Seq<usize>| is_prefix(id@, q) implies !self@.dom().contains(q) by {
                if self@.dom().contains(q) {
                    if q.len() > id@.len() {
                        crate::order::lemma_prefixes(self@, q, id@.len() as int);
                    } else {
                        assert(q.take(id@.len() as int) =~= q);
                    }
                }
            }
        }
        match r {
            ElementValue::Hypergraph { value } => Ok(value),
            _ => Err(RemoveError::NoHypergraph(NoHypergraph(to_path(id)))),
        }
    }

    /// Removes the link `id`, and with it every hyperedge that is left with
    /// fewer than two links and all that goes with such a hyperedge. Returns
    /// the payload of the link.
    ///
    /// # Errors
    ///
    /// `NoLink` where `id` names no link; the structure is then left as it
    /// was.
    pub fn remove_link(&mut self, id: &[usize]) -> (r: Result<Option<L>, RemoveError>)
        requires
            old(self).inv(),
        ensures
            final(self).inv(),
            match r {
                Ok(v) => {
                    &&& old(self)@.dom().contains(id@) && old(self)@[id@] is Link
                    &&& v == old(self)@[id@].link_value()
                    &&& final(self)@ == without(old(self)@, cascade(old(self)@, id@))
                    &&& !final(self)@.dom().contains(id@)
                    &&& unreferenced(final(self)@, id@)
                },
                Err(e) => {
                    &&& *final(self) == *old(self)
                    &&& !(old(self)@.dom().contains(id@) && old(self)@[id@] is Link)
                    &&& e is NoLink && e.path() == id@
                },
            },
    {
        if !self.contains_link(id) {
            return Err(RemoveError::NoLink(NoLink(to_path(id))));
        }
        Ok(self.remove_plain_link(id))
    }

    /// Removes the first element in the enumeration order that has the kind
    /// and the payload of `value`, with all that goes with it. The root
    /// cannot be removed: where it is the first hypergraph with the payload
    /// of `value`, nothing is removed.
    ///
    /// # Errors
    ///
    /// `NoNode`, `NoEdge`, `NoLink` or `NoHypergraph`, by the kind of `value`,
    /// where no payload was found equal or the root was found; the structure
    /// is then left as it was.
    pub fn remove_element_by_value(&mut self, value: ElementValue<&N, &E, &H, &L>) -> (r: Result<(), FindError>)
        where N: PartialEq, E: PartialEq, H: PartialEq, L: PartialEq
        requires
            old(self).inv(),
        ensures
            final(self).inv(),
            match r {
                Ok(_) => exists|p: Seq<usize>|
                    {
                        &&& p.len() > 0
                        &&& #[trigger] old(self)@.dom().contains(p)
                        &&& old(self)@[p].kind() == value.kind()
                        &&& final(self)@ == without(old(self)@, cascade(old(self)@, p))
                        &&& N::obeys_eq_spec() && E::obeys_eq_spec() && H::obeys_eq_spec() && L::obeys_eq_spec()
                            ==> is_first_match(old(self)@, p, owned(value))
                    },
                Err(e) => {
                    &&& *final(self) == *old(self)
                    &&& match value {
                        ElementValue::Node { .. } => e is NoNode,
                        ElementValue::Edge { .. } => e is NoEdge,
                        ElementValue::Link { .. } => e is NoLink,
                        ElementValue::Hypergraph { .. } => e is NoHypergraph,
                    }
                    &&& N::obeys_eq_spec() && E::obeys_eq_spec() && H::obeys_eq_spec() && L::obeys_eq_spec()
                        ==> is_first_match(old(self)@, Seq::empty(), owned(value)) || forall|q: Seq<usize>|
                        !#[trigger] value_matches(old(self)@, q, owned(value))
                },
            },
    {
        let ghost m = self@;
        match self.find_element_by_value(value) {
            Err(e) => Err(e),
            Ok(id) => {
                if id.len() == 0 {
                    proof {
                        assert(id@ =~= Seq::<usize>::empty());
                        self.lemma_root();
                    }
                    Err(FindError::NoHypergraph)
                } else {
                    let removed = self.remove(id.as_slice());
                    proof {
                        assert(removed is Ok);
                        assert(m.dom().contains(id@));
                    }
                    Ok(())
                }
            },
        }
    }
}

/// Whether `p` is the first element in the enumeration order that has the
/// kind and the payload of `wanted`.
pub open spec fn is_first_match<N: PartialEq, E: PartialEq, H: PartialEq, L: PartialEq>(
    m: Model<N, E, H, L>,
    p: Seq<usize>,
    wanted: ElementValue<N, E, H, L>,
) -> bool {
    &&& value_matches(m, p, wanted)
    &&& forall|q: Seq<usize>| #[trigger] value_matches(m, q, wanted) ==> crate::path::lex_le(p, q)
}

} // verus!
