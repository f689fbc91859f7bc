//! Removing all elements, or all of one kind.

use vstd::prelude::*;
use crate::elements::ElementType;
use crate::hypergraph::Hypergraph;
use crate::model::Model;
use crate::model::Record;
use crate::model::consistent;
use crate::path::child_path;
use crate::removal::cascade;
use crate::removal::cascade_all;
use crate::removal::forced;
use crate::removal::lemma_cascade_all_is;
use crate::removal::lemma_cascade_forced;
use crate::removal::lemma_closed_from_result;
use crate::removal::lemma_forced_chain;
use crate::removal::lemma_forced_union;
use crate::removal::lemma_without_nothing;
use crate::removal::lemma_without_twice;
use crate::removal::without;
use crate::traits::Main;

verus! {

/// The elements of kind `kind` that lie directly in the root.
pub open spec fn top_level<N, E, H, L>(m: Model<N, E, H, L>, kind: ElementType) -> Set<Seq<usize>> {
    Set::new(|p: Seq<usize>| p.len() == 1 && m.dom().contains(p) && m[p].kind() == kind)
}

impl<N, E, H, L> Hypergraph<N, E, H, L, Main> {
    /// Removes everything: what is left is the root alone, with its payload
    /// and its counter.
    pub fn clear(&mut self)
        requires
            old(self).inv(),
        ensures
            final(self).inv(),
            final(self)@ == Map::<Seq<usize>, Record<N, E, H, L>>::empty().insert(
                Seq::empty(),
                old(self)@[Seq::empty()],
            ),
    {
        proof {
            self.lemma_root();
        }
        self.wipe();
        proof {
            let m = self@;
            assert forall|p: Seq<usize>| m.dom().contains(p) implies #[trigger] crate::model::link_rules(m, p)
                && #[trigger] crate::model::adjacency_rules(m, p) && #[trigger] crate::model::edge_rules(
                m,
                Set::empty(),
                p,
            ) by {}
        }
    }

    /// Removes every element of kind `kind` that lies directly in the root,
    /// with all that goes with it.
    fn clear_kind(&mut self, kind: ElementType)
        requires
            old(self).inv(),
        ensures
            final(self).inv(),
            final(self)@ == without(old(self)@, cascade_all(old(self)@, top_level(old(self)@, kind))),
    {
        let ghost m = self@;
        let ghost targets = top_level(m, kind);
        let ghost mut gone: Set<Seq<usize>> = Set::empty();
        let root: Vec<usize> = Vec::new();
        let mut from: usize = 0;
        let mut more: bool = true;
        proof {
            lemma_without_nothing(m);
            lemma_forced_union(m, targets, Set::empty(), Set::empty());
        }
        while more
            invariant
                self.inv(),
                root@ == Seq::<usize>::empty(),
                consistent(m),
                targets == top_level(m, kind),
                self@ == without(m, gone),
                gone.subset_of(m.dom()),
                forced(m, targets, gone),
                forall|t: Seq<usize>|
                    targets.contains(t) && (more ==> t[0] < from) ==> !#[trigger] self@.dom().contains(t),
            decreases
                    (if more {
                        usize::MAX + 1 - from
                    } else {
                        0
                    }),
        {
            let ghost cur = self@;
            match self.local_next(from) {
                None => {
                    proof {
                        assert forall|t: Seq<usize>| targets.contains(t) implies !#[trigger] cur.dom().contains(
                            t,
                        ) by {
                            assert(t =~= seq![t[0]]);
                        }
                    }
                    more = false;
                },
                Some(k) => {
                    let id = child_path(root.as_slice(), k);
                    proof {
                        assert(id@ =~= seq![k]);
                    }
                    let found = self.kind_of(id.as_slice());
                    let same = match found {
                        Some(ElementType::Node) => kind == ElementType::Node,
                        Some(ElementType::Edge) => kind == ElementType::Edge,
                        Some(ElementType::Link) => kind == ElementType::Link,
                        Some(ElementType::Hypergraph) => kind == ElementType::Hypergraph,
                        None => false,
                    };
                    if same {
                        let removed = self.remove(id.as_slice());
                        proof {
                            assert(removed is Ok);
                            let more_gone = cascade(cur, id@);
                            lemma_cascade_forced(cur, set![id@]);
                            assert(targets.contains(id@));
                            assert(forced(m, targets, set![id@])) by {
                                assert forall|g: Set<Seq<usize>>|
                                    crate::removal::closed(m, g) && targets.subset_of(g) implies #[trigger] set![
                                    id@,
                                ].subset_of(g) by {}
                            }
                            assert(set![id@].disjoint(gone));
                            lemma_forced_chain(m, targets, gone, set![id@], more_gone);
                            lemma_without_twice(m, gone, more_gone);
                            crate::removal::lemma_cascade_within(cur, id@);
                            gone = gone.union(more_gone);
                        }
                    }
                    proof {
                        assert forall|t: Seq<usize>|
                            targets.contains(t) && t[0] < k + 1 implies !#[trigger] self@.dom().contains(t) by {
                            assert(t =~= seq![t[0]]);
                            if t[0] < from {
                                assert(!cur.dom().contains(t));
                            } else if t[0] < k {
                                assert(!cur.dom().contains(seq![t[0]]));
                            }
                        }
                    }
                    if k == usize::MAX {
                        more = false;
                    } else {
                        from = k + 1;
                    }
                },
            }
        }
        proof {
            assert(targets.subset_of(gone)) by {
                assert forall|t: Seq<usize>| targets.contains(t) implies gone.contains(t) by {
                    assert(!self@.dom().contains(t));
                }
            }
            lemma_closed_from_result(m, gone);
            lemma_cascade_all_is(m, targets, gone);
        }
    }

    /// Removes every node that lies directly in the root, with its links and
    /// all that goes with them. Nodes in nested hypergraphs stay.
    pub fn clear_nodes(&mut self)
        requires
            old(self).inv(),
        ensures
            final(self).inv(),
            final(self)@ == without(
                old(self)@,
                cascade_all(old(self)@, top_level(old(self)@, ElementType::Node)),
            ),
    {
        self.clear_kind(ElementType::Node)
    }

    /// Removes every hyperedge that lies directly in the root, with its links
    /// and all that goes with them. Hyperedges in nested hypergraphs stay
    /// unless they are left with fewer than two links.
    pub fn clear_edges(&mut self)
        requires
            old(self).inv(),
        ensures
            final(self).inv(),
            final(self)@ == without(
                old(self)@,
                cascade_all(old(self)@, top_level(old(self)@, ElementType::Edge)),
            ),
    {
        self.clear_kind(ElementType::Edge)
    }

    /// Removes every link that lies directly in the root, and with it every
    /// hyperedge that is left with fewer than two links.
    pub fn clear_links(&mut self)
        requires
            old(self).inv(),
        ensures
            final(self).inv(),
            final(self)@ == without(
                old(self)@,
                cascade_all(old(self)@, top_level(old(self)@, ElementType::Link)),
            ),
    {
        self.clear_kind(ElementType::Link)
    }

    /// Removes every hypergraph that lies directly in the root, with all that
    /// it holds, its links and all that goes with them.
    pub fn clear_hypergraphs(&mut self)
        requires
            old(self).inv(),
        ensures
            final(self).inv(),
            final(self)@ == without(
                old(self)@,
                cascade_all(old(self)@, top_level(old(self)@, ElementType::Hypergraph)),
            ),
    {
        self.clear_kind(ElementType::Hypergraph)
    }
}

} // verus!
