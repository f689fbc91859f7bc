//! Enumerating the elements, and the neighbors of an element.

use vstd::prelude::*;
use vstd::slice::slice_subrange;
use crate::direction::Direction;
use crate::hypergraph::Hypergraph;
use crate::model::LinkRef;
use crate::model::Model;
use crate::model::lemma_subview_step;
use crate::order::ascending_paths;
use crate::order::enumerates;
use crate::order::is_least_after;
use crate::order::lemma_candidate;
use crate::order::lemma_lex_sibling;
use crate::order::lemma_no_candidate;
use crate::order::lemma_prefixes;
use crate::order::lemma_successor_is;
use crate::order::lemma_successor_none;
use crate::order::lists;
use crate::order::successor;
use crate::path::child_path;
use crate::path::is_prefix;
use crate::path::lemma_lex_prefix;
use crate::path::lex_lt;
use crate::path::lex_lt_at;
use crate::path::to_path;
use crate::slots::links_view;
use crate::walkers::far_end;
use crate::walkers::walkable;

verus! {

impl<N, E, H, L, Ty> Hypergraph<N, E, H, L, Ty> {
    /// Returns the smallest local id in use in the hypergraph `location` that
    /// is at least `from`.
    pub(crate) fn next_in(&self, location: &[usize], from: usize) -> (r: Option<usize>)
        requires
            self.wf(),
            self@.dom().contains(location@),
            self@[location@] is Graph,
        ensures
            match r {
                Some(k) => k >= from && self@.dom().contains(location@.push(k)) && forall|j: usize|
                    from <= j < k ==> !self@.dom().contains(#[trigger] location@.push(j)),
                None => forall|j: usize| from <= j ==> !self@.dom().contains(#[trigger] location@.push(j)),
            },
    {
        if location.len() == 0 {
            proof {
                assert forall|j: usize| #[trigger] location@.push(j) == seq![j] by {
                    assert(location@.push(j) =~= seq![j]);
                }
            }
            let r = self.local_next(from);
            proof {
                if let Some(k) = r {
                    assert(location@.push(k) == seq![k]);
                    assert forall|j: usize| from <= j < k implies !self@.dom().contains(
                        #[trigger] location@.push(j),
                    ) by {
                        assert(!self@.dom().contains(seq![j]));
                    }
                } else {
                    assert forall|j: usize| from <= j implies !self@.dom().contains(
                        #[trigger] location@.push(j),
                    ) by {
                        assert(!self@.dom().contains(seq![j]));
                    }
                }
            }
            r
        } else {
            proof {
                assert(location@.skip(0) =~= location@);
            }
            let found = self.sub(location, 0);
            let level = found.unwrap();
            let r = level.local_next(from);
            proof {
                if let Some(k) = r {
                    lemma_subview_step(self@, location@, k);
                    assert forall|j: usize| from <= j < k implies !self@.dom().contains(
                        #[trigger] location@.push(j),
                    ) by {
                        lemma_subview_step(self@, location@, j);
                        assert(!level@.dom().contains(seq![j]));
                    }
                } else {
                    assert forall|j: usize| from <= j implies !self@.dom().contains(
                        #[trigger] location@.push(j),
                    ) by {
                        lemma_subview_step(self@, location@, j);
                        assert(!level@.dom().contains(seq![j]));
                    }
                }
            }
            r
        }
    }

    /// Returns the path of the first element after `id` in the enumeration
    /// order: an element comes before all that lies in it, and elements of
    /// one hypergraph come in the order of their local ids. `id` itself need
    /// not name an element.
    pub fn next_id(&self, id: &[usize]) -> (r: Option<Vec<usize>>)
        requires
            self.wf(),
        ensures
            match r {
                Some(n) => successor(self@, id@) == Some(n@) && is_least_after(self@, id@, n@),
                None => successor(self@, id@) is None && forall|p: Seq<usize>|
                    self@.dom().contains(p) ==> !crate::path::lex_lt(id@, p),
            },
    {
        let n = id.len();
        let mut k = n;
        proof {
            self.lemma_tree_shaped();
        }
        loop
            invariant
                self.wf(),
                crate::model::tree_shaped(self@),
                n == id@.len(),
                k <= n,
                forall|p: Seq<usize>, j: int|
                    self@.dom().contains(p) && k < j ==> !#[trigger] lex_lt_at(id@, p, j),
            decreases k,
        {
            let prefix = slice_subrange(id, 0, k);
            proof {
                assert(prefix@ =~= id@.take(k as int));
            }
            if self.contains_hypergraph(prefix) {
                let from: Option<usize> = if k == n {
                    Some(0)
                } else if id[k] < usize::MAX {
                    Some(id[k] + 1)
                } else {
                    None
                };
                if let Some(f) = from {
                    if let Some(x) = self.next_in(prefix, f) {
                        let found = child_path(prefix, x);
                        proof {
                            lemma_candidate(self@, id@, k as int, x);
                            lemma_successor_is(self@, id@, found@);
                        }
                        return Some(found);
                    }
                }
            }
            proof {
                lemma_no_candidate(self@, id@, k as int);
                assert forall|p: Seq<usize>, j: int|
                    self@.dom().contains(p) && k <= j implies !#[trigger] lex_lt_at(id@, p, j) by {}
            }
            if k == 0 {
                proof {
                    lemma_successor_none(self@, id@);
                }
                return None;
            }
            k -= 1;
        }
    }
}

/// What `collect_ids` has appended to the list: the paths of the elements of
/// a hypergraph with path `prefix` whose local id, which stands right after
/// `prefix`, is below `bound`.
pub open spec fn collected<N, E, H, L>(
    added: Seq<Vec<usize>>,
    prefix: Seq<usize>,
    m: Model<N, E, H, L>,
    bound: int,
) -> bool {
    &&& ascending_paths(added)
    &&& forall|i: int|
        0 <= i < added.len() ==> {
            let a = (#[trigger] added[i])@;
            &&& is_prefix(prefix, a)
            &&& a.len() > prefix.len()
            &&& a[prefix.len() as int] < bound
            &&& m.dom().contains(a.skip(prefix.len() as int))
        }
    &&& forall|x: Seq<usize>|
        x.len() > 0 && x[0] < bound && m.dom().contains(x) ==> #[trigger] lists(added, prefix + x)
}

impl<N, E, H, L, Ty> Hypergraph<N, E, H, L, Ty> {
    /// Appends to `out` the paths of all elements of this hypergraph, which
    /// has the path `prefix` in the structure that is enumerated: each
    /// element before what lies in it, and the elements of one hypergraph in
    /// the order of their local ids.
    #[verifier::loop_isolation(false)]
    pub(crate) fn collect_ids(&self, prefix: &Vec<usize>, out: &mut Vec<Vec<usize>>, Ghost(fuel): Ghost<nat>)
        requires
            self.wf(),
            fuel == self.size(),
        ensures
            final(out)@.len() >= old(out)@.len(),
            final(out)@.take(old(out)@.len() as int) == old(out)@,
            collected(final(out)@.skip(old(out)@.len() as int), prefix@, self@, usize::MAX + 1),
        decreases fuel,
    {
        let ghost n0 = out@.len() as int;
        let ghost m = self@;
        let ghost pre = prefix@;
        let mut from: usize = 0;
        let mut more: bool = true;
        proof {
            self.lemma_tree_shaped();
            assert(out@.take(n0) =~= out@);
            assert(out@.skip(n0) =~= Seq::<Vec<usize>>::empty());
        }
        while more
            invariant
                self.wf(),
                crate::model::tree_shaped(m),
                m == self@,
                pre == prefix@,
                n0 == old(out)@.len(),
                out@.len() >= n0,
                out@.take(n0) == old(out)@,
                collected(out@.skip(n0), pre, m, if more {
                    from as int
                } else {
                    usize::MAX + 1
                }),
            decreases
                    (if more {
                        usize::MAX + 1 - from
                    } else {
                        0
                    }),
        {
            let ghost before = out@;
            let ghost added = out@.skip(n0);
            match self.local_next(from) {
                None => {
                    proof {
                        assert forall|x: Seq<usize>|
                            x.len() > 0 && x[0] < usize::MAX + 1 && m.dom().contains(x) implies #[trigger] lists(
                            added,
                            pre + x,
                        ) by {
                            lemma_prefixes(m, x, 0);
                            assert(x.take(1) =~= seq![x[0]]);
                        }
                    }
                    more = false;
                },
                Some(k) => {
                    let here = child_path(prefix.as_slice(), k);
                    let again = child_path(prefix.as_slice(), k);
                    out.push(here);
                    let ghost mid = out@;
                    proof {
                        assert(is_prefix(pre, here@)) by {
                            assert(here@.take(pre.len() as int) =~= pre);
                        }
                        assert(here@.skip(pre.len() as int) =~= seq![k]);
                        assert(mid.take(n0) =~= before.take(n0));
                        assert(mid.skip(n0) =~= added.push(here));
                    }
                    match self.local_graph(k) {
                        None => {},
                        Some(slot) => {
                            slot.graph.collect_ids(&again, out, Ghost(slot.graph.size()));
                        },
                    }
                    proof {
                        let n1 = mid.len() as int;
                        let inner = out@.skip(n1);
                        let now = out@.skip(n0);
                        assert(out@.take(n0) =~= mid.take(n1).take(n0));
                        assert(now =~= added.push(here) + inner) by {
                            assert(out@.take(n1) == mid);
                            assert forall|i: int| 0 <= i < now.len() implies now[i] == (added.push(here)
                                + inner)[i] by {
                                if i < n1 - n0 {
                                    assert(out@.take(n1)[n0 + i] == mid[n0 + i]);
                                }
                            }
                        }
                        let graph_here = m.dom().contains(seq![k]) && m[seq![k]] is Graph;
                        if !graph_here {
                            assert(inner =~= Seq::<Vec<usize>>::empty());
                        }
                        // each path appended by the step
                        assert forall|i: int| 0 <= i < now.len() implies {
                            let a = (#[trigger] now[i])@;
                            &&& is_prefix(pre, a)
                            &&& a.len() > pre.len()
                            &&& a[pre.len() as int] < k + 1
                            &&& m.dom().contains(a.skip(pre.len() as int))
                        } by {
                            let a = now[i]@;
                            if i < added.len() {
                                assert(now[i] == added[i]);
                            } else if i == added.len() {
                                assert(a == here@);
                            } else {
                                let b = inner[i - added.len() - 1];
                                assert(now[i] == b);
                                assert(is_prefix(here@, a));
                                assert(a.take(pre.len() as int) =~= a.take(here@.len() as int).take(
                                    pre.len() as int,
                                ));
                                assert(a.take(here@.len() as int)[pre.len() as int] == here@[pre.len() as int]);
                                let y = a.skip(here@.len() as int);
                                assert(a.skip(pre.len() as int) =~= seq![k] + y);
                                assert(y.len() > 0);
                            }
                        }
                        // the order
                        assert forall|i: int, j: int| 0 <= i < j < now.len() implies lex_lt(
                            (#[trigger] now[i])@,
                            (#[trigger] now[j])@,
                        ) by {
                            if j < added.len() {
                                assert(lex_lt(added[i]@, added[j]@));
                            } else if i < added.len() {
                                assert(now[i] == added[i]);
                                lemma_lex_sibling(pre, now[i]@, now[j]@);
                            } else if i == added.len() {
                                let b = inner[j - added.len() - 1];
                                assert(now[j] == b);
                                lemma_lex_prefix(here@, b@);
                            } else {
                                let a = inner[i - added.len() - 1];
                                let b = inner[j - added.len() - 1];
                                assert(now[i] == a && now[j] == b);
                                assert(lex_lt(a@, b@));
                            }
                        }
                        // nothing is left out
                        assert forall|x: Seq<usize>|
                            x.len() > 0 && x[0] < k + 1 && m.dom().contains(x) implies #[trigger] lists(
                            now,
                            pre + x,
                        ) by {
                            lemma_prefixes(m, x, 0);
                            assert(x.take(1) =~= seq![x[0]]);
                            if x[0] < from {
                                assert(lists(added, pre + x));
                                let i = choose|i: int| 0 <= i < added.len() && (#[trigger] added[i])@ == pre + x;
                                assert(now[i] == added[i]);
                            } else {
                                assert(x[0] == k);
                                if x.len() == 1 {
                                    assert(x =~= seq![k]);
                                    assert(pre + x =~= here@);
                                    assert(now[added.len() as int] == here);
                                } else {
                                    let y = x.skip(1);
                                    assert(x =~= seq![k] + y);
                                    assert(pre + x =~= here@ + y);
                                    assert(lists(inner, here@ + y));
                                    let i = choose|i: int|
                                        0 <= i < inner.len() && (#[trigger] inner[i])@ == here@ + y;
                                    assert(now[added.len() + 1 + i] == inner[i]);
                                }
                            }
                        }
                    }
                    if k == usize::MAX {
                        more = false;
                    } else {
                        from = k + 1;
                    }
                },
            }
        }
    }

    /// Returns the paths of all elements, the hypergraph itself included, in
    /// the enumeration order: the empty path first, each element before what
    /// lies in it, and the elements of one hypergraph in the order of their
    /// local ids.
    pub fn ids(&self) -> (r: Vec<Vec<usize>>)
        requires
            self.wf(),
        ensures
            enumerates(r@, self@),
            r@.len() > 0,
            r@[0]@ == Seq::<usize>::empty(),
    {
        let mut out: Vec<Vec<usize>> = Vec::new();
        let root: Vec<usize> = Vec::new();
        out.push(Vec::new());
        let ghost first = out@;
        self.collect_ids(&root, &mut out, Ghost(self.size()));
        proof {
            self.lemma_root();
            let added = out@.skip(1);
            assert(out@.take(1) == first);
            assert(out@[0] == out@.take(1)[0]);
            assert forall|i: int| 1 <= i < out@.len() implies #[trigger] out@[i] == added[i - 1] by {}
            assert forall|x: Seq<usize>| #[trigger] (root@ + x) == x by {
                assert(root@ + x =~= x);
            }
            assert forall|i: int| 0 <= i < out@.len() implies self@.dom().contains((#[trigger] out@[i])@) by {
                if i > 0 {
                    let a = added[i - 1]@;
                    assert(a.skip(0) =~= a);
                } else {
                    assert(out@[0]@ =~= Seq::<usize>::empty());
                }
            }
            assert forall|i: int, j: int| 0 <= i < j < out@.len() implies lex_lt(
                (#[trigger] out@[i])@,
                (#[trigger] out@[j])@,
            ) by {
                if i == 0 {
                    let a = added[j - 1]@;
                    assert(a.len() > 0);
                    assert(out@[0]@ =~= Seq::<usize>::empty());
                    assert(a.take(0) =~= Seq::<usize>::empty());
                    lemma_lex_prefix(out@[0]@, a);
                } else {
                    assert(lex_lt(added[i - 1]@, added[j - 1]@));
                }
            }
            assert forall|p: Seq<usize>| self@.dom().contains(p) implies #[trigger] lists(out@, p) by {
                if p.len() == 0 {
                    assert(p =~= Seq::<usize>::empty());
                    assert(out@[0]@ == p);
                } else {
                    assert(root@ + p == p);
                    assert(lists(added, root@ + p));
                    let i = choose|i: int| 0 <= i < added.len() && (#[trigger] added[i])@ == p;
                    assert(out@[i + 1] == added[i]);
                }
            }
        }
        out
    }
}

/// The entries of an adjacency list that have the orientation `direction`, in
/// their order.
pub open spec fn oriented(adj: Seq<LinkRef>, direction: Direction) -> Seq<LinkRef>
    decreases adj.len(),
{
    if adj.len() == 0 {
        Seq::empty()
    } else if adj.last().1 == direction {
        oriented(adj.drop_last(), direction).push(adj.last())
    } else {
        oriented(adj.drop_last(), direction)
    }
}

/// The neighbors of the element `id` along links of the orientation
/// `direction`: for each such entry of its adjacency list, in order, the
/// element at the other end of the link. An element that is joined by
/// several links comes as often. Nothing where `id` has no adjacency list.
pub open spec fn neighbors_of<N, E, H, L>(m: Model<N, E, H, L>, id: Seq<usize>, direction: Direction) -> Seq<
    Seq<usize>,
> {
    if walkable(m, id) {
        oriented(m[id].adjacency(), direction).map_values(|e: LinkRef| far_end(m, e.0, direction))
    } else {
        Seq::empty()
    }
}

/// The paths that a list of stored paths stands for.
pub open spec fn paths_view(v: Seq<Vec<usize>>) -> Seq<Seq<usize>> {
    v.map_values(|p: Vec<usize>| p@)
}

impl<N, E, H, L, Ty> Hypergraph<N, E, H, L, Ty> {
    /// Returns the neighbors of `id` along its outgoing links.
    pub fn neighbors(&self, id: &[usize]) -> (r: Vec<Vec<usize>>)
        requires
            self.inv(),
        ensures
            paths_view(r@) == neighbors_of(self@, id@, Direction::Outgoing),
    {
        self.neighbors_directed(id, Direction::Outgoing)
    }

    /// Returns the neighbors of `id` along its links of the orientation
    /// `direction`.
    pub fn neighbors_directed(&self, id: &[usize], direction: Direction) -> (r: Vec<Vec<usize>>)
        requires
            self.inv(),
        ensures
            paths_view(r@) == neighbors_of(self@, id@, direction),
    {
        let mut out: Vec<Vec<usize>> = Vec::new();
        let links = match self.links_of(id) {
            Ok(links) => links,
            Err(_) => {
                proof {
                    assert(paths_view(out@) =~= Seq::<Seq<usize>>::empty());
                }
                return out;
            },
        };
        let ghost adj = self@[id@].adjacency();
        let ghost far = |e: LinkRef| far_end(self@, e.0, direction);
        let mut i: usize = 0;
        proof {
            assert(adj.take(0) =~= Seq::<LinkRef>::empty());
            assert(paths_view(out@) =~= oriented(adj.take(0), direction).map_values(far));
        }
        while i < links.len()
            invariant
                self.inv(),
                walkable(self@, id@),
                adj == self@[id@].adjacency(),
                adj == links_view(links@),
                far == |e: LinkRef| far_end(self@, e.0, direction),
                i <= links@.len(),
                paths_view(out@) == oriented(adj.take(i as int), direction).map_values(far),
            decreases links@.len() - i,
        {
            proof {
                assert(adj.take(i + 1).drop_last() =~= adj.take(i as int));
                assert(adj.take(i + 1).last() == adj[i as int]);
                assert(adj[i as int] == (links@[i as int].0@, links@[i as int].1));
            }
            if links[i].1 == direction {
                proof {
                    assert(crate::model::adjacency_rules(self@, id@));
                    assert(crate::model::entry_rules(self@, id@, adj[i as int]));
                }
                let ends = self.link_endpoints(links[i].0.as_slice());
                let (from, to) = ends.unwrap();
                let ghost before = out@;
                let other = match direction {
                    Direction::Outgoing => to_path(to.as_slice()),
                    Direction::Incoming => to_path(from.as_slice()),
                };
                out.push(other);
                proof {
                    assert(paths_view(out@) =~= paths_view(before).push(other@));
                    assert(oriented(adj.take(i + 1), direction).map_values(far) =~= oriented(
                        adj.take(i as int),
                        direction,
                    ).map_values(far).push(far(adj[i as int])));
                }
            }
            i += 1;
        }
        proof {
            assert(adj.take(i as int) =~= adj);
        }
        out
    }
}

} // verus!
