//! The stores of a hypergraph. Each kind of element is kept in a vector of
//! its own, in the order of the local ids, which is the order of insertion:
//! local ids are handed out in growing order and never used again.

use vstd::prelude::*;
use crate::direction::Direction;
use crate::embedding::shifted_links;
use crate::model::LinkRef;
use crate::model::lemma_strip_concat;
use crate::model::lemma_strip_nothing;
use crate::model::lemma_strip_push;
use crate::model::strip;
use crate::path::same_path;

verus! {

/// A stored item that is found by its local id.
pub trait Keyed {
    /// The local id of the item.
    spec fn key(&self) -> usize;

    /// Returns the local id of the item.
    fn local_id(&self) -> (r: usize)
        ensures
            r == self.key(),
    ;
}

/// A node as it is stored in its hypergraph.
#[derive(Debug, Clone)]
pub struct NodeSlot<N> {
    /// The local id of the node.
    pub id: usize,
    /// The payload of the node.
    pub value: N,
    /// The links of the node: the id of each link and its orientation.
    pub links: Vec<(Vec<usize>, Direction)>,
}

/// A hyperedge as it is stored in its hypergraph.
#[derive(Debug, Clone)]
pub struct EdgeSlot<E> {
    /// The local id of the hyperedge.
    pub id: usize,
    /// The payload of the hyperedge.
    pub value: E,
    /// The links of the hyperedge: the id of each link and its orientation.
    pub links: Vec<(Vec<usize>, Direction)>,
}

/// A link as it is stored in its hypergraph.
#[derive(Debug, Clone)]
pub struct LinkSlot<L> {
    /// The local id of the link.
    pub id: usize,
    /// The payload of the link.
    pub value: Option<L>,
    /// The id of the element that the link leaves.
    pub source: Vec<usize>,
    /// The id of the element that the link enters.
    pub target: Vec<usize>,
}

impl<N> Keyed for NodeSlot<N> {
    open spec fn key(&self) -> usize {
        self.id
    }

    fn local_id(&self) -> (r: usize) {
        self.id
    }
}

impl<E> Keyed for EdgeSlot<E> {
    open spec fn key(&self) -> usize {
        self.id
    }

    fn local_id(&self) -> (r: usize) {
        self.id
    }
}

impl<L> Keyed for LinkSlot<L> {
    open spec fn key(&self) -> usize {
        self.id
    }

    fn local_id(&self) -> (r: usize) {
        self.id
    }
}

/// The model of a stored adjacency list.
pub open spec fn links_view(links: Seq<(Vec<usize>, Direction)>) -> Seq<LinkRef> {
    links.map_values(|e: (Vec<usize>, Direction)| (e.0@, e.1))
}

/// The model of a list with one more entry.
pub proof fn lemma_links_view_push(links: Seq<(Vec<usize>, Direction)>, e: (Vec<usize>, Direction))
    ensures
        links_view(links.push(e)) == links_view(links).push((e.0@, e.1)),
{
    assert(links_view(links.push(e)) =~= links_view(links).push((e.0@, e.1)));
}

/// Copies an adjacency list.
pub fn copy_links(links: &Vec<(Vec<usize>, Direction)>) -> (r: Vec<(Vec<usize>, Direction)>)
    ensures
        links_view(r@) == links_view(links@),
{
    let mut r: Vec<(Vec<usize>, Direction)> = Vec::new();
    let mut i: usize = 0;
    while i < links.len()
        invariant
            i <= links@.len(),
            links_view(r@) == links_view(links@.take(i as int)),
        decreases links@.len() - i,
    {
        let ghost before = r@;
        let entry = (crate::path::to_path(links[i].0.as_slice()), links[i].1);
        r.push(entry);
        proof {
            lemma_links_view_push(before, entry);
            lemma_links_view_push(links@.take(i as int), links@[i as int]);
            assert(links@.take(i + 1) =~= links@.take(i as int).push(links@[i as int]));
        }
        i += 1;
    }
    proof {
        assert(links@.take(links@.len() as int) =~= links@);
    }
    r
}

/// Copies an adjacency list and puts `front` in front of the path of every
/// link.
pub fn shift_links(links: &Vec<(Vec<usize>, Direction)>, front: &[usize]) -> (r: Vec<(Vec<usize>, Direction)>)
    ensures
        links_view(r@) == shifted_links(links_view(links@), front@),
{
    let mut r: Vec<(Vec<usize>, Direction)> = Vec::new();
    let mut i: usize = 0;
    while i < links.len()
        invariant
            i <= links@.len(),
            links_view(r@) == shifted_links(links_view(links@.take(i as int)), front@),
        decreases links@.len() - i,
    {
        let ghost before = r@;
        let entry = (crate::path::join_paths(front, links[i].0.as_slice()), links[i].1);
        r.push(entry);
        proof {
            lemma_links_view_push(before, entry);
            lemma_links_view_push(links@.take(i as int), links@[i as int]);
            assert(links@.take(i + 1) =~= links@.take(i as int).push(links@[i as int]));
            let done = links_view(links@.take(i as int));
            assert(shifted_links(done.push((links@[i as int].0@, links@[i as int].1)), front@)
                =~= shifted_links(done, front@).push(
                (front@ + links@[i as int].0@, links@[i as int].1),
            ));
        }
        i += 1;
    }
    proof {
        assert(links@.take(links@.len() as int) =~= links@);
    }
    r
}

/// Takes out of an adjacency list every entry that names the link `link`.
pub fn drop_link(links: &mut Vec<(Vec<usize>, Direction)>, link: &[usize])
    ensures
        links_view(final(links)@) == strip(links_view(old(links)@), set![link@]),
{
    let ghost gone = set![link@];
    let ghost start = links_view(links@);
    let mut i: usize = 0;
    while i < links.len()
        invariant
            i <= links@.len(),
            gone == set![link@],
            strip(links_view(links@), gone) == strip(start, gone),
            forall|j: int| 0 <= j < i ==> !gone.contains(#[trigger] links_view(links@)[j].0),
        decreases links@.len() - i,
    {
        let ghost cur = links_view(links@);
        if same_path(links[i].0.as_slice(), link) {
            links.remove(i);
            proof {
                let now = links_view(links@);
                let a = cur.take(i as int);
                let b = cur.skip(i + 1);
                assert(cur =~= a + seq![cur[i as int]] + b);
                assert(now =~= a + b);
                lemma_strip_concat(a + seq![cur[i as int]], b, gone);
                lemma_strip_concat(a, seq![cur[i as int]], gone);
                lemma_strip_concat(a, b, gone);
                assert(cur[i as int].0 == link@);
                assert(seq![cur[i as int]] =~= Seq::<LinkRef>::empty().push(cur[i as int]));
                lemma_strip_push(Seq::<LinkRef>::empty(), cur[i as int], gone);
                assert(strip(seq![cur[i as int]], gone) =~= Seq::<LinkRef>::empty());
                assert(strip(a, gone) + Seq::<LinkRef>::empty() =~= strip(a, gone));
                assert forall|j: int| 0 <= j < i implies !gone.contains(#[trigger] now[j].0) by {
                    assert(now[j] == cur[j]);
                }
            }
        } else {
            i += 1;
        }
    }
    proof {
        lemma_strip_nothing(links_view(links@), gone);
    }
}

/// The local ids grow strictly from one item to the next. Items are stored in
/// the order in which they were added, and ids are handed out in growing
/// order, so this is the order of insertion.
pub open spec fn ascending<S: Keyed>(slots: Seq<S>) -> bool {
    forall|i: int, j: int| 0 <= i < j < slots.len() ==> (#[trigger] slots[i]).key() < (#[trigger] slots[j]).key()
}

/// Every local id is below `bound`.
pub open spec fn all_below<S: Keyed>(slots: Seq<S>, bound: usize) -> bool {
    forall|i: int| 0 <= i < slots.len() ==> (#[trigger] slots[i]).key() < bound
}

/// Whether an item with local id `id` is stored.
pub open spec fn has_key<S: Keyed>(slots: Seq<S>, id: usize) -> bool {
    exists|i: int| 0 <= i < slots.len() && (#[trigger] slots[i]).key() == id
}

/// The position of the item with local id `id`.
pub open spec fn key_pos<S: Keyed>(slots: Seq<S>, id: usize) -> int {
    choose|i: int| 0 <= i < slots.len() && (#[trigger] slots[i]).key() == id
}

/// The item with local id `id`, if one is stored.
pub open spec fn slot_of<S: Keyed>(slots: Seq<S>, id: usize) -> Option<S> {
    if has_key(slots, id) {
        Some(slots[key_pos(slots, id)])
    } else {
        None
    }
}

/// In an ascending store an id names one position.
pub proof fn lemma_key_pos<S: Keyed>(slots: Seq<S>, i: int)
    requires
        ascending(slots),
        0 <= i < slots.len(),
    ensures
        has_key(slots, slots[i].key()),
        key_pos(slots, slots[i].key()) == i,
{
    let id = slots[i].key();
    let j = key_pos(slots, id);
    assert(0 <= j < slots.len() && slots[j].key() == id);
    if j < i {
        assert(slots[j].key() < slots[i].key());
    } else if i < j {
        assert(slots[i].key() < slots[j].key());
    }
}

/// An item appended with a local id above all others is found under that
/// id, and the others are found as before.
pub proof fn lemma_slot_push<S: Keyed>(slots: Seq<S>, x: S)
    requires
        ascending(slots),
        all_below(slots, x.key()),
    ensures
        ascending(slots.push(x)),
        forall|id: usize| #[trigger]
            slot_of(slots.push(x), id) == if id == x.key() {
                Some(x)
            } else {
                slot_of(slots, id)
            },
{
    let t = slots.push(x);
    assert(ascending(t)) by {
        assert forall|i: int, j: int| 0 <= i < j < t.len() implies (#[trigger] t[i]).key() < (
        #[trigger] t[j]).key() by {
            if j < slots.len() {
                assert(slots[i].key() < slots[j].key());
            } else {
                assert(slots[i].key() < x.key());
            }
        }
    }
    assert forall|id: usize| #[trigger]
        slot_of(t, id) == if id == x.key() {
            Some(x)
        } else {
            slot_of(slots, id)
        } by {
        if id == x.key() {
            lemma_key_pos(t, slots.len() as int);
            if has_key(slots, id) {
                assert(slots[key_pos(slots, id)].key() < x.key());
            }
        } else if has_key(slots, id) {
            let i = key_pos(slots, id);
            assert(t[i].key() == id);
            lemma_key_pos(t, i);
        } else if has_key(t, id) {
            let i = key_pos(t, id);
            assert(slots[i].key() == id);
        }
    }
}

/// After the item at position `i` is taken out, its local id names nothing,
/// and the others are found as before.
pub proof fn lemma_slot_remove<S: Keyed>(slots: Seq<S>, i: int)
    requires
        ascending(slots),
        0 <= i < slots.len(),
    ensures
        ascending(slots.remove(i)),
        forall|id: usize| #[trigger]
            slot_of(slots.remove(i), id) == if id == slots[i].key() {
                None
            } else {
                slot_of(slots, id)
            },
        forall|b: usize| all_below(slots, b) ==> all_below(slots.remove(i), b),
{
    let t = slots.remove(i);
    assert forall|a: int| 0 <= a < t.len() implies #[trigger] t[a] == slots[if a < i {
        a
    } else {
        a + 1
    }] by {}
    assert(ascending(t)) by {
        assert forall|a: int, b: int| 0 <= a < b < t.len() implies (#[trigger] t[a]).key() < (
        #[trigger] t[b]).key() by {
            let a0 = if a < i { a } else { a + 1 };
            let b0 = if b < i { b } else { b + 1 };
            assert(slots[a0].key() < slots[b0].key());
        }
    }
    assert forall|b: usize| all_below(slots, b) implies all_below(t, b) by {
        assert forall|a: int| 0 <= a < t.len() implies (#[trigger] t[a]).key() < b by {
            let a0 = if a < i { a } else { a + 1 };
            assert(slots[a0].key() < b);
        }
    }
    assert forall|id: usize| #[trigger]
        slot_of(t, id) == if id == slots[i].key() {
            None
        } else {
            slot_of(slots, id)
        } by {
        if has_key(t, id) {
            let a = key_pos(t, id);
            let a0 = if a < i { a } else { a + 1 };
            assert(slots[a0].key() == id);
            lemma_key_pos(slots, a0);
            lemma_key_pos(slots, i);
            lemma_key_pos(t, a);
        } else if has_key(slots, id) {
            let a0 = key_pos(slots, id);
            lemma_key_pos(slots, i);
            if a0 != i {
                let a = if a0 < i { a0 } else { a0 - 1 };
                assert(t[a].key() == id);
            }
        }
    }
}

/// After the item at position `i` is replaced by one with the same local id,
/// that id names the new item, and the others are found as before.
pub proof fn lemma_slot_update<S: Keyed>(slots: Seq<S>, i: int, y: S)
    requires
        ascending(slots),
        0 <= i < slots.len(),
        y.key() == slots[i].key(),
    ensures
        ascending(slots.update(i, y)),
        forall|id: usize| #[trigger]
            slot_of(slots.update(i, y), id) == if id == y.key() {
                Some(y)
            } else {
                slot_of(slots, id)
            },
        forall|b: usize| all_below(slots, b) ==> all_below(slots.update(i, y), b),
{
    let t = slots.update(i, y);
    assert forall|a: int| 0 <= a < t.len() implies (#[trigger] t[a]).key() == slots[a].key() by {}
    assert(ascending(t)) by {
        assert forall|a: int, b: int| 0 <= a < b < t.len() implies (#[trigger] t[a]).key() < (
        #[trigger] t[b]).key() by {
            assert(slots[a].key() < slots[b].key());
        }
    }
    assert forall|b: usize| all_below(slots, b) implies all_below(t, b) by {
        assert forall|a: int| 0 <= a < t.len() implies (#[trigger] t[a]).key() < b by {
            assert(slots[a].key() < b);
        }
    }
    assert forall|id: usize| #[trigger]
        slot_of(t, id) == if id == y.key() {
            Some(y)
        } else {
            slot_of(slots, id)
        } by {
        if has_key(t, id) {
            let a = key_pos(t, id);
            assert(slots[a].key() == id);
            lemma_key_pos(slots, a);
            lemma_key_pos(t, a);
        } else if has_key(slots, id) {
            let a = key_pos(slots, id);
            assert(t[a].key() == id);
        }
    }
}

/// Decides whether the local ids of a store ascend and stay below `bound`.
pub fn check_ascending<S: Keyed>(slots: &Vec<S>, bound: usize) -> (r: bool)
    ensures
        r == (ascending(slots@) && all_below(slots@, bound)),
{
    let mut i: usize = 0;
    while i < slots.len()
        invariant
            i <= slots@.len(),
            ascending(slots@.take(i as int)),
            all_below(slots@.take(i as int), bound),
        decreases slots@.len() - i,
    {
        let k = slots[i].local_id();
        if k >= bound {
            proof {
                if all_below(slots@, bound) {
                    assert(slots@[i as int].key() < bound);
                }
            }
            return false;
        }
        if i > 0 {
            let before = slots[i - 1].local_id();
            if before >= k {
                proof {
                    if ascending(slots@) {
                        assert(slots@[i - 1].key() < slots@[i as int].key());
                    }
                }
                return false;
            }
        }
        proof {
            let t = slots@.take(i + 1);
            assert forall|a: int, b: int| 0 <= a < b < t.len() implies (#[trigger] t[a]).key() < (
            #[trigger] t[b]).key() by {
                if b < i {
                    assert(slots@.take(i as int)[a].key() < slots@.take(i as int)[b].key());
                } else if a < i - 1 {
                    assert(slots@.take(i as int)[a].key() < slots@.take(i as int)[i - 1].key());
                }
            }
            assert forall|a: int| 0 <= a < t.len() implies (#[trigger] t[a]).key() < bound by {
                if a < i {
                    assert(slots@.take(i as int)[a].key() < bound);
                }
            }
        }
        i += 1;
    }
    proof {
        assert(slots@.take(slots@.len() as int) =~= slots@);
    }
    true
}

/// Decides whether two stores share no local id.
pub fn check_disjoint<A: Keyed, B: Keyed>(a: &Vec<A>, b: &Vec<B>) -> (r: bool)
    requires
        ascending(a@),
        ascending(b@),
    ensures
        r == forall|k: usize| !(#[trigger] slot_of(a@, k) is Some && slot_of(b@, k) is Some),
{
    let mut i: usize = 0;
    while i < a.len()
        invariant
            i <= a@.len(),
            ascending(a@),
            ascending(b@),
            forall|j: int| 0 <= j < i ==> slot_of(b@, (#[trigger] a@[j]).key()) is None,
        decreases a@.len() - i,
    {
        let k = a[i].local_id();
        if position(b, k).is_some() {
            proof {
                lemma_key_pos(a@, i as int);
                assert(slot_of(a@, k) is Some && slot_of(b@, k) is Some);
            }
            return false;
        }
        i += 1;
    }
    proof {
        assert forall|k: usize| !(#[trigger] slot_of(a@, k) is Some && slot_of(b@, k) is Some) by {
            if has_key(a@, k) {
                let j = key_pos(a@, k);
                assert(a@[j].key() == k);
            }
        }
    }
    true
}

/// Two stores with the same local ids at the same positions find the same
/// ids at the same positions.
pub proof fn lemma_same_keys<A: Keyed, B: Keyed>(a: Seq<A>, b: Seq<B>)
    requires
        ascending(a),
        a.len() == b.len(),
        forall|i: int| 0 <= i < a.len() ==> (#[trigger] b[i]).key() == a[i].key(),
    ensures
        ascending(b),
        forall|bound: usize| all_below(a, bound) ==> all_below(b, bound),
        forall|k: usize| #[trigger] has_key(b, k) == has_key(a, k),
        forall|k: usize| has_key(a, k) ==> #[trigger] key_pos(b, k) == key_pos(a, k),
{
    assert(ascending(b)) by {
        assert forall|i: int, j: int| 0 <= i < j < b.len() implies (#[trigger] b[i]).key() < (
        #[trigger] b[j]).key() by {
            assert(a[i].key() < a[j].key());
        }
    }
    assert forall|bound: usize| all_below(a, bound) implies all_below(b, bound) by {
        assert forall|i: int| 0 <= i < b.len() implies (#[trigger] b[i]).key() < bound by {
            assert(a[i].key() < bound);
        }
    }
    assert forall|k: usize| #[trigger] has_key(b, k) == has_key(a, k) by {
        if has_key(b, k) {
            let i = key_pos(b, k);
            assert(b[i].key() == k);
            assert(a[i].key() == k);
        }
        if has_key(a, k) {
            let i = key_pos(a, k);
            assert(a[i].key() == k);
            assert(b[i].key() == k);
        }
    }
    assert forall|k: usize| has_key(a, k) implies #[trigger] key_pos(b, k) == key_pos(a, k) by {
        let i = key_pos(a, k);
        assert(a[i].key() == k);
        assert(b[i].key() == k);
        lemma_key_pos(b, i);
    }
}

/// The local ids in use in a store.
pub open spec fn key_set<S: Keyed>(slots: Seq<S>) -> Set<usize> {
    Set::new(|k: usize| slot_of(slots, k) is Some)
}

/// An ascending store holds as many local ids as items.
pub proof fn lemma_key_set_len<S: Keyed>(slots: Seq<S>)
    requires
        ascending(slots),
    ensures
        key_set(slots).finite(),
        key_set(slots).len() == slots.len(),
    decreases slots.len(),
{
    if slots.len() == 0 {
        assert(key_set(slots) =~= Set::<usize>::empty());
    } else {
        let rest = slots.drop_last();
        let last = slots.last();
        assert(ascending(rest)) by {
            assert forall|i: int, j: int| 0 <= i < j < rest.len() implies (#[trigger] rest[i]).key() < (
            #[trigger] rest[j]).key() by {
                assert(slots[i].key() < slots[j].key());
            }
        }
        assert(all_below(rest, last.key())) by {
            assert forall|i: int| 0 <= i < rest.len() implies (#[trigger] rest[i]).key() < last.key() by {
                assert(slots[i].key() < slots[slots.len() - 1].key());
            }
        }
        lemma_key_set_len(rest);
        lemma_slot_push(rest, last);
        assert(rest.push(last) =~= slots);
        assert(key_set(slots) =~= key_set(rest).insert(last.key()));
        if has_key(rest, last.key()) {
            assert(rest[key_pos(rest, last.key())].key() < last.key());
        }
    }
}

/// Finds the item with local id `id` by bisection.
pub fn position<S: Keyed>(slots: &Vec<S>, id: usize) -> (r: Option<usize>)
    requires
        ascending(slots@),
    ensures
        match r {
            Some(i) => i < slots@.len() && slots@[i as int].key() == id && has_key(slots@, id)
                && key_pos(slots@, id) == i && slot_of(slots@, id) == Some(slots@[i as int]),
            None => !has_key(slots@, id) && slot_of(slots@, id) is None,
        },
{
    let mut lo: usize = 0;
    let mut hi: usize = slots.len();
    while lo < hi
        invariant
            lo <= hi <= slots@.len(),
            ascending(slots@),
            forall|k: int| 0 <= k < lo ==> (#[trigger] slots@[k]).key() < id,
            forall|k: int| hi <= k < slots@.len() ==> (#[trigger] slots@[k]).key() > id,
        decreases hi - lo,
    {
        let mid = lo + (hi - lo) / 2;
        let k = slots[mid].local_id();
        if k == id {
            proof {
                lemma_key_pos(slots@, mid as int);
            }
            return Some(mid);
        } else if k < id {
            assert forall|j: int| 0 <= j < mid + 1 implies (#[trigger] slots@[j]).key() < id by {
                if j < mid {
                    assert(slots@[j].key() < slots@[mid as int].key());
                }
            }
            lo = mid + 1;
        } else {
            assert forall|j: int| mid <= j < slots@.len() implies (#[trigger] slots@[j]).key() > id by {
                if mid < j {
                    assert(slots@[mid as int].key() < slots@[j].key());
                }
            }
            hi = mid;
        }
    }
    None
}

/// The first item at or after `id`: the local id of the item at the position
/// that `lower_bound` gives, and nothing where that position is the end.
pub fn first_from<S: Keyed>(slots: &Vec<S>, id: usize) -> (r: Option<usize>)
    requires
        ascending(slots@),
    ensures
        match r {
            Some(k) => k >= id && slot_of(slots@, k) is Some && forall|j: usize|
                id <= j < k ==> #[trigger] slot_of(slots@, j) is None,
            None => forall|j: usize| id <= j ==> #[trigger] slot_of(slots@, j) is None,
        },
{
    let i = lower_bound(slots, id);
    if i < slots.len() {
        let k = slots[i].local_id();
        proof {
            lemma_key_pos(slots@, i as int);
            assert forall|j: usize| id <= j < k implies #[trigger] slot_of(slots@, j) is None by {
                if has_key(slots@, j) {
                    let a = key_pos(slots@, j);
                    if a < i {
                        assert(slots@[a].key() < id);
                    } else if a > i {
                        assert(slots@[i as int].key() < slots@[a].key());
                    }
                }
            }
        }
        Some(k)
    } else {
        proof {
            assert forall|j: usize| id <= j implies #[trigger] slot_of(slots@, j) is None by {
                if has_key(slots@, j) {
                    let a = key_pos(slots@, j);
                    assert(slots@[a].key() < id);
                }
            }
        }
        None
    }
}

/// Finds the first item whose local id is at least `id`.
pub fn lower_bound<S: Keyed>(slots: &Vec<S>, id: usize) -> (r: usize)
    requires
        ascending(slots@),
    ensures
        r <= slots@.len(),
        forall|k: int| 0 <= k < r ==> (#[trigger] slots@[k]).key() < id,
        forall|k: int| r <= k < slots@.len() ==> (#[trigger] slots@[k]).key() >= id,
{
    let mut lo: usize = 0;
    let mut hi: usize = slots.len();
    while lo < hi
        invariant
            lo <= hi <= slots@.len(),
            ascending(slots@),
            forall|k: int| 0 <= k < lo ==> (#[trigger] slots@[k]).key() < id,
            forall|k: int| hi <= k < slots@.len() ==> (#[trigger] slots@[k]).key() >= id,
        decreases hi - lo,
    {
        let mid = lo + (hi - lo) / 2;
        let k = slots[mid].local_id();
        if k < id {
            assert forall|j: int| 0 <= j < mid + 1 implies (#[trigger] slots@[j]).key() < id by {
                if j < mid {
                    assert(slots@[j].key() < slots@[mid as int].key());
                }
            }
            lo = mid + 1;
        } else {
            assert forall|j: int| mid <= j < slots@.len() implies (#[trigger] slots@[j]).key() >= id by {
                if mid < j {
                    assert(slots@[mid as int].key() < slots@[j].key());
                }
            }
            hi = mid;
        }
    }
    lo
}

} // verus!
