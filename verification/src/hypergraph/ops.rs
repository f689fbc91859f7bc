//! The steps of which every change is made, each on the element or the
//! hypergraph that a path names.

use vstd::prelude::*;
use vstd::slice::slice_subrange;
use crate::direction::Direction;
use crate::elements::Element;
use crate::hypergraph::GraphSlot;
use crate::hypergraph::Hypergraph;
use crate::model::Record;
use crate::model::fresh;
use crate::model::lemma_graft_insert;
use crate::model::lemma_graft_prune;
use crate::model::lemma_graft_remove;
use crate::model::lemma_graft_root;
use crate::model::lemma_graft_same;
use crate::model::lemma_subview_step;
use crate::model::lemma_subview_twice;
use crate::model::prune;
use crate::model::strip;
use crate::model::subview;
use crate::path::parent;
use crate::slots::EdgeSlot;
use crate::slots::LinkSlot;
use crate::slots::NodeSlot;
use crate::slots::links_view;

verus! {

impl<N, E, H, L, Ty> Hypergraph<N, E, H, L, Ty> {
    /// Stores a new element in the hypergraph with path `location` and returns
    /// the local id that it got there.
    pub(crate) fn insert_at(&mut self, location: &[usize], element: Element<N, E, H, L, Vec<usize>>) -> (id:
        usize)
        requires
            old(self).wf(),
            old(self)@.dom().contains(location@),
            old(self)@[location@] is Graph,
            old(self)@[location@].counter() < usize::MAX,
        ensures
            final(self).wf(),
            id == old(self)@[location@].counter(),
            final(self)@ == old(self)@.insert(location@.push(id), fresh(element)).insert(
                location@,
                old(self)@[location@].advanced(1),
            ),
            final(self).size() == old(self).size() + 1,
    {
        let ghost m = self@;
        if location.len() == 0 {
            proof {
                assert(location@ =~= Seq::<usize>::empty());
                assert forall|id: usize| location@.push(id) == seq![id] by {
                    assert(location@.push(id) =~= seq![id]);
                }
            }
            self.add_local_element(element)
        } else {
            proof {
                assert(location@.skip(0) =~= location@);
                assert(location@ + Seq::<usize>::empty() =~= location@);
            }
            let level = self.sub_mut(location, 0);
            let ghost c = level@;
            let id = level.add_local_element(element);
            proof {
                let c1 = c.insert(seq![id], fresh(element));
                let root = c[Seq::empty()].advanced(1);
                lemma_graft_root(m, location@, c1, root);
                lemma_graft_insert(m, location@, c, seq![id], fresh(element));
                lemma_graft_same(m, location@);
                assert(location@ + seq![id] =~= location@.push(id));
                assert(root.with_adjacency(m[location@].adjacency()) == m[location@].advanced(1));
            }
            id
        }
    }

    /// Appends an entry to the adjacency list of the element with path `id`.
    pub(crate) fn push_neighbor_at(&mut self, id: &[usize], entry: (Vec<usize>, Direction))
        requires
            old(self).wf(),
            id@.len() > 0,
            old(self)@.dom().contains(id@),
            old(self)@[id@].linkable(),
        ensures
            final(self).wf(),
            final(self)@ == old(self)@.insert(
                id@,
                old(self)@[id@].with_adjacency(old(self)@[id@].adjacency().push((entry.0@, entry.1))),
            ),
            final(self).size() == old(self).size(),
    {
        let ghost m = self@;
        let n = id.len() - 1;
        let last = id[n];
        proof {
            self.lemma_tree_shaped();
            assert(id@ =~= parent(id@).push(last));
            assert(crate::model::placed(m, id@));
            lemma_subview_step(m, parent(id@), last);
        }
        if n == 0 {
            proof {
                assert(id@ =~= seq![last]);
            }
            self.add_local_neighbor(last, entry)
        } else {
            let loc = slice_subrange(id, 0, n);
            proof {
                assert(loc@ =~= parent(id@));
                assert(loc@.skip(0) =~= loc@);
                assert(loc@ + seq![last] =~= id@);
            }
            let level = self.sub_mut(loc, 0);
            let ghost c = level@;
            let r = level.add_local_neighbor(last, entry);
            proof {
                lemma_graft_insert(m, loc@, c, seq![last], level@[seq![last]]);
                lemma_graft_same(m, loc@);
            }
            r
        }
    }

    /// Takes every entry that names the link `link` out of the adjacency list
    /// of the element with path `id`.
    pub(crate) fn drop_neighbor_at(&mut self, id: &[usize], link: &[usize])
        requires
            old(self).wf(),
            id@.len() > 0,
            old(self)@.dom().contains(id@),
            old(self)@[id@].linkable(),
        ensures
            final(self).wf(),
            final(self)@ == old(self)@.insert(
                id@,
                old(self)@[id@].with_adjacency(strip(old(self)@[id@].adjacency(), set![link@])),
            ),
            final(self).size() == old(self).size(),
    {
        let ghost m = self@;
        let n = id.len() - 1;
        let last = id[n];
        proof {
            self.lemma_tree_shaped();
            assert(id@ =~= parent(id@).push(last));
            assert(crate::model::placed(m, id@));
            lemma_subview_step(m, parent(id@), last);
        }
        if n == 0 {
            proof {
                assert(id@ =~= seq![last]);
            }
            self.remove_local_neighbor(last, link)
        } else {
            let loc = slice_subrange(id, 0, n);
            proof {
                assert(loc@ =~= parent(id@));
                assert(loc@.skip(0) =~= loc@);
                assert(loc@ + seq![last] =~= id@);
            }
            let level = self.sub_mut(loc, 0);
            let ghost c = level@;
            let r = level.remove_local_neighbor(last, link);
            proof {
                lemma_graft_insert(m, loc@, c, seq![last], level@[seq![last]]);
                lemma_graft_same(m, loc@);
            }
            r
        }
    }

    /// Takes the node with path `id` out of the structure.
    pub(crate) fn take_node_at(&mut self, id: &[usize]) -> (r: NodeSlot<N>)
        requires
            old(self).wf(),
            id@.len() > 0,
            old(self)@.dom().contains(id@),
            old(self)@[id@] is Node,
        ensures
            final(self).wf(),
            final(self)@ == old(self)@.remove(id@),
            old(self)@[id@] == (Record::<N, E, H, L>::Node { value: r.value, links: links_view(r.links@) }),
            final(self).size() + 1 == old(self).size(),
    {
        let ghost m = self@;
        let n = id.len() - 1;
        let last = id[n];
        proof {
            self.lemma_tree_shaped();
            assert(id@ =~= parent(id@).push(last));
            assert(crate::model::placed(m, id@));
            lemma_subview_step(m, parent(id@), last);
        }
        if n == 0 {
            proof {
                assert(id@ =~= seq![last]);
            }
            self.take_local_node(last)
        } else {
            let loc = slice_subrange(id, 0, n);
            proof {
                assert(loc@ =~= parent(id@));
                assert(loc@.skip(0) =~= loc@);
                assert(loc@ + seq![last] =~= id@);
            }
            let level = self.sub_mut(loc, 0);
            let ghost c = level@;
            let r = level.take_local_node(last);
            proof {
                lemma_graft_remove(m, loc@, c, seq![last]);
                lemma_graft_same(m, loc@);
            }
            r
        }
    }

    /// Takes the hyperedge with path `id` out of the structure.
    pub(crate) fn take_edge_at(&mut self, id: &[usize]) -> (r: EdgeSlot<E>)
        requires
            old(self).wf(),
            id@.len() > 0,
            old(self)@.dom().contains(id@),
            old(self)@[id@] is Edge,
        ensures
            final(self).wf(),
            final(self)@ == old(self)@.remove(id@),
            old(self)@[id@] == (Record::<N, E, H, L>::Edge { value: r.value, links: links_view(r.links@) }),
            final(self).size() + 1 == old(self).size(),
    {
        let ghost m = self@;
        let n = id.len() - 1;
        let last = id[n];
        proof {
            self.lemma_tree_shaped();
            assert(id@ =~= parent(id@).push(last));
            assert(crate::model::placed(m, id@));
            lemma_subview_step(m, parent(id@), last);
        }
        if n == 0 {
            proof {
                assert(id@ =~= seq![last]);
            }
            self.take_local_edge(last)
        } else {
            let loc = slice_subrange(id, 0, n);
            proof {
                assert(loc@ =~= parent(id@));
                assert(loc@.skip(0) =~= loc@);
                assert(loc@ + seq![last] =~= id@);
            }
            let level = self.sub_mut(loc, 0);
            let ghost c = level@;
            let r = level.take_local_edge(last);
            proof {
                lemma_graft_remove(m, loc@, c, seq![last]);
                lemma_graft_same(m, loc@);
            }
            r
        }
    }

    /// Takes the link with path `id` out of the structure.
    pub(crate) fn take_link_at(&mut self, id: &[usize]) -> (r: LinkSlot<L>)
        requires
            old(self).wf(),
            id@.len() > 0,
            old(self)@.dom().contains(id@),
            old(self)@[id@] is Link,
        ensures
            final(self).wf(),
            final(self)@ == old(self)@.remove(id@),
            old(self)@[id@] == (Record::<N, E, H, L>::Link {
                value: r.value,
                source: r.source@,
                target: r.target@,
            }),
            final(self).size() + 1 == old(self).size(),
    {
        let ghost m = self@;
        let n = id.len() - 1;
        let last = id[n];
        proof {
            self.lemma_tree_shaped();
            assert(id@ =~= parent(id@).push(last));
            assert(crate::model::placed(m, id@));
            lemma_subview_step(m, parent(id@), last);
        }
        if n == 0 {
            proof {
                assert(id@ =~= seq![last]);
            }
            self.take_local_link(last)
        } else {
            let loc = slice_subrange(id, 0, n);
            proof {
                assert(loc@ =~= parent(id@));
                assert(loc@.skip(0) =~= loc@);
                assert(loc@ + seq![last] =~= id@);
            }
            let level = self.sub_mut(loc, 0);
            let ghost c = level@;
            let r = level.take_local_link(last);
            proof {
                lemma_graft_remove(m, loc@, c, seq![last]);
                lemma_graft_same(m, loc@);
            }
            r
        }
    }

    /// Takes the nested hypergraph with path `id`, and with it all that it
    /// holds, out of the structure.
    pub(crate) fn take_graph_at(&mut self, id: &[usize]) -> (r: GraphSlot<N, E, H, L>)
        requires
            old(self).wf(),
            id@.len() > 0,
            old(self)@.dom().contains(id@),
            old(self)@[id@] is Graph,
        ensures
            final(self).wf(),
            final(self)@ == prune(old(self)@, id@),
            r.graph.wf(),
            r.graph@ == subview(old(self)@, id@),
            old(self)@[id@].adjacency() == links_view(r.links@),
            final(self).size() + 1 + r.graph.size() == old(self).size(),
    {
        let ghost m = self@;
        let n = id.len() - 1;
        let last = id[n];
        proof {
            self.lemma_tree_shaped();
            assert(id@ =~= parent(id@).push(last));
            assert(crate::model::placed(m, id@));
            lemma_subview_step(m, parent(id@), last);
        }
        if n == 0 {
            proof {
                assert(id@ =~= seq![last]);
            }
            self.take_local_graph(last)
        } else {
            let loc = slice_subrange(id, 0, n);
            proof {
                assert(loc@ =~= parent(id@));
                assert(loc@.skip(0) =~= loc@);
                assert(loc@ + seq![last] =~= id@);
            }
            let level = self.sub_mut(loc, 0);
            let ghost c = level@;
            let r = level.take_local_graph(last);
            proof {
                lemma_graft_prune(m, loc@, c, seq![last]);
                lemma_subview_twice(m, loc@, seq![last]);
                lemma_graft_same(m, loc@);
            }
            r
        }
    }

}

} // verus!
