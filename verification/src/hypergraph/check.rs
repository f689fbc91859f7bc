//! Deciding whether a hypergraph obeys the structural rules.

use vstd::prelude::*;
use crate::direction::Direction;
use crate::elements::ElementType;
use crate::hypergraph::Hypergraph;
use crate::model::adjacency_rules;
use crate::model::consistent;
use crate::model::edge_rules;
use crate::model::entry_rules;
use crate::model::link_rules;
use crate::order::enumerates;
use crate::order::lists;
use crate::path::is_prefix;
use crate::path::parent;
use crate::path::same_path;
use crate::path::starts_with;
use crate::slots::links_view;

verus! {

/// Decides whether an adjacency list names the link `link` with the
/// orientation `direction`.
fn names_link(links: &Vec<(Vec<usize>, Direction)>, link: &[usize], direction: Direction) -> (r: bool)
    ensures
        r == links_view(links@).contains((link@, direction)),
{
    let mut i: usize = 0;
    while i < links.len()
        invariant
            i <= links@.len(),
            forall|j: int| 0 <= j < i ==> links_view(links@)[j] != (link@, direction),
        decreases links@.len() - i,
    {
        proof {
            assert(links_view(links@)[i as int] == (links@[i as int].0@, links@[i as int].1));
        }
        if links[i].1 == direction && same_path(links[i].0.as_slice(), link) {
            return true;
        }
        i += 1;
    }
    false
}

/// Decides whether `inner`, without its last entry, starts `outer` without
/// its last entry.
fn lies_above(inner: &[usize], outer: &[usize]) -> (r: bool)
    requires
        inner@.len() > 0,
        outer@.len() > 0,
    ensures
        r == is_prefix(parent(inner@), parent(outer@)),
{
    let n = inner.len() - 1;
    proof {
        assert(inner@.take(n as int) =~= parent(inner@));
        if is_prefix(parent(inner@), outer@) && outer@.len() > n {
            assert(parent(outer@).take(n as int) =~= outer@.take(n as int));
        }
        if is_prefix(parent(inner@), parent(outer@)) {
            assert(parent(outer@).take(n as int) =~= outer@.take(n as int));
        }
    }
    starts_with(outer, inner, n) && outer.len() > n
}

impl<N, E, H, L, Ty> Hypergraph<N, E, H, L, Ty> {
    /// Decides whether the link `p` obeys the rules for links.
    fn link_obeys(&self, p: &[usize]) -> (r: bool)
        requires
            self.wf(),
            self@.dom().contains(p@),
            self@[p@] is Link,
        ensures
            r == link_rules(self@, p@),
    {
        proof {
            self.lemma_root();
            if p@.len() == 0 {
                assert(p@ =~= Seq::<usize>::empty());
            }
        }
        let ends = self.link_endpoints(p);
        let (source, target) = ends.unwrap();
        if source.len() == 0 || target.len() == 0 || same_path(source.as_slice(), target.as_slice()) {
            return false;
        }
        let source_kind = match self.kind_of(source.as_slice()) {
            Some(k) => k,
            None => {
                return false;
            },
        };
        let target_kind = match self.kind_of(target.as_slice()) {
            Some(k) => k,
            None => {
                return false;
            },
        };
        if source_kind == ElementType::Link || target_kind == ElementType::Link {
            return false;
        }
        if !(source_kind == ElementType::Edge || target_kind == ElementType::Edge) {
            return false;
        }
        let source_links = self.links_of(source.as_slice());
        if !names_link(source_links.unwrap(), p, Direction::Outgoing) {
            return false;
        }
        let target_links = self.links_of(target.as_slice());
        if !names_link(target_links.unwrap(), p, Direction::Incoming) {
            return false;
        }
        lies_above(p, source.as_slice()) && lies_above(p, target.as_slice())
    }

    /// Decides whether the adjacency list of the element `p` obeys the
    /// rules: every entry names a link that starts or ends at `p`, as the
    /// orientation says, and a hyperedge has at least two links.
    fn adjacency_obeys(&self, p: &[usize]) -> (r: bool)
        requires
            self.wf(),
            self@.dom().contains(p@),
        ensures
            r == (adjacency_rules(self@, p@) && edge_rules(self@, Set::empty(), p@)),
    {
        let links = match self.links_of(p) {
            Ok(links) => links,
            Err(_) => {
                proof {
                    self.lemma_root();
                    if p@.len() == 0 {
                        assert(p@ =~= Seq::<usize>::empty());
                    }
                }
                return true;
            },
        };
        let ghost adj = self@[p@].adjacency();
        if self.contains_edge(p) && links.len() < 2 {
            return false;
        }
        let mut i: usize = 0;
        while i < links.len()
            invariant
                self.wf(),
                self@.dom().contains(p@),
                adj == self@[p@].adjacency(),
                adj == links_view(links@),
                i <= links@.len(),
                forall|j: int| 0 <= j < i ==> entry_rules(self@, p@, #[trigger] adj[j]),
            decreases links@.len() - i,
        {
            proof {
                assert(adj[i as int] == (links@[i as int].0@, links@[i as int].1));
            }
            let fine = match self.link_endpoints(links[i].0.as_slice()) {
                Err(_) => false,
                Ok((source, target)) => match links[i].1 {
                    Direction::Outgoing => same_path(source.as_slice(), p),
                    Direction::Incoming => same_path(target.as_slice(), p),
                },
            };
            if !fine {
                proof {
                    assert(!entry_rules(self@, p@, adj[i as int]));
                }
                return false;
            }
            i += 1;
        }
        true
    }

    /// Decides whether the hypergraph obeys all structural rules. A
    /// hypergraph made by `new` and changed through the operations of the
    /// root obeys them; one made of parts need not.
    pub fn is_consistent(&self) -> (r: bool)
        requires
            self.wf(),
        ensures
            r == consistent(self@),
            r == self.inv(),
    {
        let ids = self.ids();
        let mut i: usize = 0;
        proof {
            self.lemma_tree_shaped();
        }
        while i < ids.len()
            invariant
                self.wf(),
                crate::model::tree_shaped(self@),
                enumerates(ids@, self@),
                i <= ids@.len(),
                forall|j: int|
                    0 <= j < i ==> link_rules(self@, (#[trigger] ids@[j])@) && adjacency_rules(self@, ids@[j]@)
                        && edge_rules(self@, Set::empty(), ids@[j]@),
            decreases ids@.len() - i,
        {
            let p = &ids[i];
            if self.contains_link(p.as_slice()) {
                if !self.link_obeys(p.as_slice()) {
                    proof {
                        assert(self@.dom().contains(p@));
                        assert(!link_rules(self@, p@));
                    }
                    return false;
                }
            }
            if !self.adjacency_obeys(p.as_slice()) {
                proof {
                    assert(self@.dom().contains(p@));
                }
                return false;
            }
            i += 1;
        }
        proof {
            assert forall|p: Seq<usize>| self@.dom().contains(p) implies #[trigger] link_rules(self@, p) by {
                assert(lists(ids@, p));
                let j = choose|j: int| 0 <= j < ids@.len() && (#[trigger] ids@[j])@ == p;
                assert(link_rules(self@, ids@[j]@));
            }
            assert forall|p: Seq<usize>| self@.dom().contains(p) implies #[trigger] adjacency_rules(self@, p) by {
                assert(lists(ids@, p));
                let j = choose|j: int| 0 <= j < ids@.len() && (#[trigger] ids@[j])@ == p;
                assert(adjacency_rules(self@, ids@[j]@));
            }
            assert forall|p: Seq<usize>| self@.dom().contains(p) implies #[trigger] edge_rules(
                self@,
                Set::empty(),
                p,
            ) by {
                assert(lists(ids@, p));
                let j = choose|j: int| 0 <= j < ids@.len() && (#[trigger] ids@[j])@ == p;
                assert(edge_rules(self@, Set::empty(), ids@[j]@));
            }
        }
        true
    }
}

} // verus!
