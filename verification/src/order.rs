//! The enumeration of the elements of a hypergraph: each element before
//! what lies in it, and the elements of one hypergraph in the order of their
//! local ids.

use vstd::prelude::*;
use crate::model::Model;
use crate::model::placed;
use crate::model::tree_shaped;
use crate::path::is_prefix;
use crate::path::lemma_lex_asymmetric;
use crate::path::lemma_lex_prefix;
use crate::path::lex_le;
use crate::path::lex_lt;
use crate::path::lex_lt_at;
use crate::path::parent;

verus! {

/// `p` is the first element after `c`: an element of the model that comes
/// after `c` in the enumeration order, with no other between them.
pub open spec fn is_least_after<N, E, H, L>(m: Model<N, E, H, L>, c: Seq<usize>, p: Seq<usize>) -> bool {
    &&& m.dom().contains(p)
    &&& lex_lt(c, p)
    &&& forall|q: Seq<usize>| m.dom().contains(q) && lex_lt(c, q) ==> #[trigger] lex_le(p, q)
}

/// The first element after `c` in the enumeration order, if there is one.
/// `c` itself need not be an element.
pub open spec fn successor<N, E, H, L>(m: Model<N, E, H, L>, c: Seq<usize>) -> Option<Seq<usize>> {
    if exists|p: Seq<usize>| is_least_after(m, c, p) {
        Some(choose|p: Seq<usize>| is_least_after(m, c, p))
    } else {
        None
    }
}

/// The first element at or after `c`: `c` itself if it is an element, else
/// its successor.
pub open spec fn at_or_after<N, E, H, L>(m: Model<N, E, H, L>, c: Seq<usize>) -> Option<Seq<usize>> {
    if m.dom().contains(c) {
        Some(c)
    } else {
        successor(m, c)
    }
}

/// There is at most one first element after `c`.
pub proof fn lemma_successor_is<N, E, H, L>(m: Model<N, E, H, L>, c: Seq<usize>, p: Seq<usize>)
    requires
        is_least_after(m, c, p),
    ensures
        successor(m, c) == Some(p),
{
    let q = choose|q: Seq<usize>| is_least_after(m, c, q);
    assert(is_least_after(m, c, q));
    assert(lex_le(p, q));
    assert(lex_le(q, p));
    if p != q {
        lemma_lex_asymmetric(p, q);
    }
}

/// Where no element comes after `c`, `c` has no successor.
pub proof fn lemma_successor_none<N, E, H, L>(m: Model<N, E, H, L>, c: Seq<usize>)
    requires
        forall|p: Seq<usize>, j: int| m.dom().contains(p) ==> !#[trigger] lex_lt_at(c, p, j),
    ensures
        successor(m, c) is None,
        forall|p: Seq<usize>| m.dom().contains(p) ==> !lex_lt(c, p),
{
    assert forall|p: Seq<usize>| m.dom().contains(p) implies !lex_lt(c, p) by {
        if lex_lt(c, p) {
            let j = choose|j: int| lex_lt_at(c, p, j);
            assert(lex_lt_at(c, p, j));
        }
    }
}

/// Every initial part of the path of an element names a hypergraph, and the
/// part that is one entry longer names an element.
pub proof fn lemma_prefixes<N, E, H, L>(m: Model<N, E, H, L>, p: Seq<usize>, j: int)
    requires
        tree_shaped(m),
        m.dom().contains(p),
        0 <= j < p.len(),
    ensures
        m.dom().contains(p.take(j)),
        m[p.take(j)] is Graph,
        m.dom().contains(p.take(j + 1)),
    decreases p.len() - j,
{
    assert(placed(m, p));
    if j == p.len() - 1 {
        assert(p.take(j) =~= parent(p));
        assert(p.take(j + 1) =~= p);
    } else {
        lemma_prefixes(m, parent(p), j);
        assert(parent(p).take(j) =~= p.take(j));
        assert(parent(p).take(j + 1) =~= p.take(j + 1));
    }
}

/// No element comes after `id` by way of position `k` where the initial part
/// of `id` of length `k` names no hypergraph, or that hypergraph holds no
/// element with a local id that would do.
pub proof fn lemma_no_candidate<N, E, H, L>(m: Model<N, E, H, L>, id: Seq<usize>, k: int)
    requires
        tree_shaped(m),
        0 <= k <= id.len(),
        !(m.dom().contains(id.take(k)) && m[id.take(k)] is Graph) || forall|j: usize|
            (k == id.len() || id[k] < j) ==> !m.dom().contains(#[trigger] id.take(k).push(j)),
    ensures
        forall|p: Seq<usize>| m.dom().contains(p) ==> !#[trigger] lex_lt_at(id, p, k),
{
    assert forall|p: Seq<usize>| m.dom().contains(p) implies !#[trigger] lex_lt_at(id, p, k) by {
        if lex_lt_at(id, p, k) {
            lemma_prefixes(m, p, k);
            assert(p.take(k + 1) =~= id.take(k).push(p[k]));
        }
    }
}

/// The element found at position `k` is the first after `id` where nothing
/// comes after `id` by way of a later position and the hypergraph named by
/// the initial part of length `k` holds no element that would do with a
/// smaller local id than `x`.
pub proof fn lemma_candidate<N, E, H, L>(m: Model<N, E, H, L>, id: Seq<usize>, k: int, x: usize)
    requires
        tree_shaped(m),
        0 <= k <= id.len(),
        m.dom().contains(id.take(k).push(x)),
        k == id.len() || id[k] < x,
        forall|j: usize|
            (k == id.len() || id[k] < j) && j < x ==> !m.dom().contains(#[trigger] id.take(k).push(j)),
        forall|p: Seq<usize>, j: int| m.dom().contains(p) && k < j ==> !#[trigger] lex_lt_at(id, p, j),
    ensures
        is_least_after(m, id, id.take(k).push(x)),
{
    let n = id.take(k).push(x);
    assert(n.take(k) =~= id.take(k));
    assert(lex_lt_at(id, n, k));
    assert forall|q: Seq<usize>| m.dom().contains(q) && lex_lt(id, q) implies #[trigger] lex_le(n, q) by {
        let j = choose|j: int| lex_lt_at(id, q, j);
        assert(lex_lt_at(id, q, j));
        if j == k {
            lemma_prefixes(m, q, k);
            assert(q.take(k + 1) =~= id.take(k).push(q[k]));
            if q[k] == x {
                assert(q.take(n.len() as int) == n);
                if n != q {
                    lemma_lex_prefix(n, q);
                }
            } else {
                assert(n.take(k) == q.take(k));
                assert(lex_lt_at(n, q, k));
            }
        } else {
            assert(j < k);
            assert(n.take(j) =~= id.take(j)) by {
                assert(n.take(k).take(j) =~= n.take(j));
                assert(id.take(k).take(j) =~= id.take(j));
            }
            assert(n[j] == id[j]) by {
                assert(n.take(k)[j] == id.take(k)[j]);
            }
            assert(lex_lt_at(n, q, j));
        }
    }
}

/// Whether the list `out` holds the path `p`.
pub open spec fn lists(out: Seq<Vec<usize>>, p: Seq<usize>) -> bool {
    exists|i: int| 0 <= i < out.len() && (#[trigger] out[i])@ == p
}

/// Each path of the list comes before those behind it.
pub open spec fn ascending_paths(out: Seq<Vec<usize>>) -> bool {
    forall|i: int, j: int| 0 <= i < j < out.len() ==> lex_lt((#[trigger] out[i])@, (#[trigger] out[j])@)
}

/// The list holds the paths of the elements of the model, each once, in the
/// enumeration order.
pub open spec fn enumerates<N, E, H, L>(out: Seq<Vec<usize>>, m: Model<N, E, H, L>) -> bool {
    &&& ascending_paths(out)
    &&& forall|i: int| 0 <= i < out.len() ==> m.dom().contains((#[trigger] out[i])@)
    &&& forall|p: Seq<usize>| m.dom().contains(p) ==> #[trigger] lists(out, p)
}

/// Of two paths that part ways right after a common initial part, the one
/// with the smaller entry there comes first.
pub proof fn lemma_lex_sibling(prefix: Seq<usize>, a: Seq<usize>, b: Seq<usize>)
    requires
        is_prefix(prefix, a),
        is_prefix(prefix, b),
        a.len() > prefix.len(),
        b.len() > prefix.len(),
        a[prefix.len() as int] < b[prefix.len() as int],
    ensures
        lex_lt(a, b),
{
    assert(lex_lt_at(a, b, prefix.len() as int));
}

/// There is one list only that enumerates a model: two runs over the same
/// hypergraph give the same paths in the same order.
pub proof fn lemma_enumeration_unique<N, E, H, L>(a: Seq<Vec<usize>>, b: Seq<Vec<usize>>, m: Model<N, E, H, L>)
    requires
        enumerates(a, m),
        enumerates(b, m),
    ensures
        a.len() == b.len(),
        forall|i: int| 0 <= i < a.len() ==> (#[trigger] a[i])@ == b[i]@,
    decreases a.len(),
{
    if a.len() == 0 {
        if b.len() > 0 {
            assert(m.dom().contains(b[0]@));
            assert(lists(a, b[0]@));
        }
    } else if b.len() == 0 {
        assert(m.dom().contains(a[0]@));
        assert(lists(b, a[0]@));
    } else {
        // the last paths are both the greatest element
        let x = a.last();
        let y = b.last();
        assert(m.dom().contains(a[a.len() - 1]@));
        assert(m.dom().contains(b[b.len() - 1]@));
        assert(lists(b, x@));
        assert(lists(a, y@));
        let i = choose|i: int| 0 <= i < b.len() && (#[trigger] b[i])@ == x@;
        let j = choose|j: int| 0 <= j < a.len() && (#[trigger] a[j])@ == y@;
        if x@ != y@ {
            assert(lex_lt(b[i]@, b[b.len() - 1]@));
            assert(lex_lt(a[j]@, a[a.len() - 1]@));
            lemma_lex_asymmetric(x@, y@);
        }
        let m1 = m.remove(x@);
        let a1 = a.drop_last();
        let b1 = b.drop_last();
        assert(enumerates(a1, m1)) by {
            assert forall|p: Seq<usize>| m1.dom().contains(p) implies #[trigger] lists(a1, p) by {
                assert(lists(a, p));
                let k = choose|k: int| 0 <= k < a.len() && (#[trigger] a[k])@ == p;
                assert(a1[k]@ == p);
            }
            assert forall|k: int| 0 <= k < a1.len() implies m1.dom().contains((#[trigger] a1[k])@) by {
                assert(m.dom().contains(a[k]@));
                assert(lex_lt(a[k]@, a[a.len() - 1]@));
                crate::path::lemma_lex_irreflexive(x@);
            }
            assert forall|k: int, l: int| 0 <= k < l < a1.len() implies lex_lt(
                (#[trigger] a1[k])@,
                (#[trigger] a1[l])@,
            ) by {
                assert(lex_lt(a[k]@, a[l]@));
            }
        }
        assert(enumerates(b1, m1)) by {
            assert forall|p: Seq<usize>| m1.dom().contains(p) implies #[trigger] lists(b1, p) by {
                assert(lists(b, p));
                let k = choose|k: int| 0 <= k < b.len() && (#[trigger] b[k])@ == p;
                assert(b1[k]@ == p);
            }
            assert forall|k: int| 0 <= k < b1.len() implies m1.dom().contains((#[trigger] b1[k])@) by {
                assert(m.dom().contains(b[k]@));
                assert(lex_lt(b[k]@, b[b.len() - 1]@));
                crate::path::lemma_lex_irreflexive(x@);
            }
            assert forall|k: int, l: int| 0 <= k < l < b1.len() implies lex_lt(
                (#[trigger] b1[k])@,
                (#[trigger] b1[l])@,
            ) by {
                assert(lex_lt(b[k]@, b[l]@));
            }
        }
        lemma_enumeration_unique(a1, b1, m1);
        assert forall|k: int| 0 <= k < a.len() implies (#[trigger] a[k])@ == b[k]@ by {
            if k < a.len() - 1 {
                assert(a1[k]@ == b1[k]@);
            }
        }
    }
}

/// In the list that enumerates a model, each path is followed by its
/// successor, and the last has none: a walk that goes from successor to
/// successor gives out the list.
pub proof fn lemma_enumeration_successor<N, E, H, L>(out: Seq<Vec<usize>>, m: Model<N, E, H, L>, i: int)
    requires
        enumerates(out, m),
        0 <= i < out.len(),
    ensures
        at_or_after(m, out[i]@) == Some(out[i]@),
        successor(m, out[i]@) == if i + 1 < out.len() {
            Some(out[i + 1]@)
        } else {
            None
        },
{
    let c = out[i]@;
    assert(m.dom().contains(c));
    assert forall|q: Seq<usize>| m.dom().contains(q) && lex_lt(c, q) implies exists|j: int|
        i < j < out.len() && (#[trigger] out[j])@ == q by {
        assert(lists(out, q));
        let j = choose|j: int| 0 <= j < out.len() && (#[trigger] out[j])@ == q;
        if j < i {
            assert(lex_lt(out[j]@, out[i]@));
            lemma_lex_asymmetric(c, q);
        } else if j == i {
            crate::path::lemma_lex_irreflexive(c);
        }
    }
    if i + 1 < out.len() {
        let n = out[i + 1]@;
        assert(m.dom().contains(n));
        assert(lex_lt(out[i]@, out[i + 1]@));
        assert forall|q: Seq<usize>| m.dom().contains(q) && lex_lt(c, q) implies #[trigger] lex_le(n, q) by {
            let j = choose|j: int| i < j < out.len() && (#[trigger] out[j])@ == q;
            if j > i + 1 {
                assert(lex_lt(out[i + 1]@, out[j]@));
            }
        }
        lemma_successor_is(m, c, n);
    } else {
        if exists|p: Seq<usize>| is_least_after(m, c, p) {
            let p = choose|p: Seq<usize>| is_least_after(m, c, p);
            let j = choose|j: int| i < j < out.len() && (#[trigger] out[j])@ == p;
        }
    }
}

} // verus!
