//! Paths, which are the ids of elements: a sequence of local ids that leads
//! from the root through nested hypergraphs to an element. This module holds
//! the order in which elements are enumerated and small functions on paths.

use vstd::prelude::*;

verus! {

/// Whether `a` is an initial part of `b`, or `b` itself.
pub open spec fn is_prefix(a: Seq<usize>, b: Seq<usize>) -> bool {
    a.len() <= b.len() && b.take(a.len() as int) == a
}

/// The id of the hypergraph that holds the element with id `p`: `p` without
/// its last entry.
pub open spec fn parent(p: Seq<usize>) -> Seq<usize> {
    p.drop_last()
}

/// The order in which ids are enumerated: an id comes before every id that
/// extends it, and otherwise the first entry in which two ids differ decides.
pub open spec fn lex_lt(a: Seq<usize>, b: Seq<usize>) -> bool {
    exists|j: int| #[trigger] lex_lt_at(a, b, j)
}

/// `a` and `b` agree on their first `j` entries, and at position `j` either
/// `a` ends while `b` goes on, or `a` has the smaller entry.
pub open spec fn lex_lt_at(a: Seq<usize>, b: Seq<usize>, j: int) -> bool {
    &&& 0 <= j <= a.len()
    &&& j < b.len()
    &&& a.take(j) == b.take(j)
    &&& (j == a.len() || a[j] < b[j])
}

/// `a` comes before `b` or is `b`.
pub open spec fn lex_le(a: Seq<usize>, b: Seq<usize>) -> bool {
    a == b || lex_lt(a, b)
}

/// An id never comes before itself.
pub proof fn lemma_lex_irreflexive(a: Seq<usize>)
    ensures
        !lex_lt(a, a),
{
}

/// The enumeration order is transitive.
pub proof fn lemma_lex_transitive(a: Seq<usize>, b: Seq<usize>, c: Seq<usize>)
    requires
        lex_lt(a, b),
        lex_lt(b, c),
    ensures
        lex_lt(a, c),
{
    let j = choose|j: int| lex_lt_at(a, b, j);
    let k = choose|k: int| lex_lt_at(b, c, k);
    let m = if j <= k { j } else { k };
    assert(a.take(m) == a.take(j).take(m));
    assert(b.take(m) == b.take(j).take(m));
    assert(b.take(m) == b.take(k).take(m));
    assert(c.take(m) == c.take(k).take(m));
    if j < k {
        assert(b.take(k)[j] == b[j]);
        assert(c.take(k)[j] == c[j]);
    } else if k < j {
        assert(a.take(j)[k] == a[k]);
        assert(b.take(j)[k] == b[k]);
    }
    assert(lex_lt_at(a, c, m));
}

/// Of two different ids one comes before the other.
pub proof fn lemma_lex_total(a: Seq<usize>, b: Seq<usize>)
    ensures
        a == b || lex_lt(a, b) || lex_lt(b, a),
    decreases a.len(),
{
    if a.len() == 0 {
        if b.len() > 0 {
            assert(a.take(0) == b.take(0));
            assert(lex_lt_at(a, b, 0));
        } else {
            assert(a =~= b);
        }
    } else if b.len() == 0 {
        assert(a.take(0) == b.take(0));
        assert(lex_lt_at(b, a, 0));
    } else {
        let a1 = a.drop_last();
        lemma_lex_total(a1, b);
        if a1 == b {
            assert(b.take(b.len() as int) == b);
            assert(a.take(b.len() as int) == a1);
            assert(lex_lt_at(b, a, b.len() as int));
        } else if lex_lt(a1, b) {
            let j = choose|j: int| lex_lt_at(a1, b, j);
            if j == a1.len() {
                // a1 is a proper prefix of b: the last entry of a decides
                assert(a1.take(j) =~= a1);
                assert(a.take(j) =~= a1);
                if a[j] < b[j] {
                    assert(lex_lt_at(a, b, j));
                } else if a[j] > b[j] {
                    assert(lex_lt_at(b, a, j));
                } else if b.len() == a.len() {
                    assert(a =~= b) by {
                        assert forall|i: int| 0 <= i < a.len() implies a[i] == b[i] by {
                            if i < j {
                                assert(a1.take(j)[i] == b.take(j)[i]);
                            }
                        }
                    }
                } else {
                    assert(a.take(j + 1) =~= b.take(j + 1)) by {
                        assert forall|i: int| 0 <= i < j + 1 implies a[i] == b[i] by {
                            if i < j {
                                assert(a1.take(j)[i] == b.take(j)[i]);
                            }
                        }
                    }
                    assert(lex_lt_at(a, b, j + 1));
                }
            } else {
                assert(a.take(j) == a1.take(j));
                assert(lex_lt_at(a, b, j));
            }
        } else {
            let j = choose|j: int| lex_lt_at(b, a1, j);
            assert(a.take(j) == a1.take(j));
            assert(lex_lt_at(b, a, j));
        }
    }
}

/// No id comes both before and after another.
pub proof fn lemma_lex_asymmetric(a: Seq<usize>, b: Seq<usize>)
    requires
        lex_lt(a, b),
    ensures
        !lex_lt(b, a),
{
    if lex_lt(b, a) {
        lemma_lex_transitive(a, b, a);
    }
}

/// An id comes before each of its proper extensions.
pub proof fn lemma_lex_prefix(a: Seq<usize>, b: Seq<usize>)
    requires
        is_prefix(a, b),
        a != b,
    ensures
        lex_lt(a, b),
{
    if a.len() == b.len() {
        assert(b.take(a.len() as int) == b);
    }
    assert(a.take(a.len() as int) == a);
    assert(lex_lt_at(a, b, a.len() as int));
}

/// Copies an id.
pub fn to_path(a: &[usize]) -> (r: Vec<usize>)
    ensures
        r@ == a@,
{
    let mut r: Vec<usize> = Vec::new();
    let mut i: usize = 0;
    while i < a.len()
        invariant
            i <= a@.len(),
            r@ == a@.take(i as int),
        decreases a@.len() - i,
    {
        r.push(a[i]);
        proof {
            assert(a@.take(i + 1) =~= a@.take(i as int).push(a@[i as int]));
        }
        i += 1;
    }
    proof {
        assert(a@.take(a@.len() as int) =~= a@);
    }
    r
}

/// The id of the element with local id `id` in the hypergraph `location`.
pub fn child_path(location: &[usize], id: usize) -> (r: Vec<usize>)
    ensures
        r@ == location@.push(id),
{
    let mut r = to_path(location);
    r.push(id);
    r
}

/// The id made of `front` followed by `back`.
pub fn join_paths(front: &[usize], back: &[usize]) -> (r: Vec<usize>)
    ensures
        r@ == front@ + back@,
{
    let mut r = to_path(front);
    let mut i: usize = 0;
    while i < back.len()
        invariant
            i <= back@.len(),
            r@ == front@ + back@.take(i as int),
        decreases back@.len() - i,
    {
        r.push(back[i]);
        proof {
            assert(front@ + back@.take(i + 1) =~= (front@ + back@.take(i as int)).push(back@[i as int]));
        }
        i += 1;
    }
    proof {
        assert(back@.take(back@.len() as int) =~= back@);
    }
    r
}

/// Compares two ids entry by entry.
pub fn same_path(a: &[usize], b: &[usize]) -> (r: bool)
    ensures
        r == (a@ == b@),
{
    if a.len() != b.len() {
        return false;
    }
    let mut i: usize = 0;
    while i < a.len()
        invariant
            i <= a@.len(),
            a@.len() == b@.len(),
            a@.take(i as int) == b@.take(i as int),
        decreases a@.len() - i,
    {
        if a[i] != b[i] {
            return false;
        }
        proof {
            assert(a@.take(i + 1) =~= a@.take(i as int).push(a@[i as int]));
            assert(b@.take(i + 1) =~= b@.take(i as int).push(b@[i as int]));
        }
        i += 1;
    }
    proof {
        assert(a@.take(a@.len() as int) =~= a@);
        assert(b@.take(b@.len() as int) =~= b@);
    }
    true
}

/// Decides whether the first `n` entries of `a` are an initial part of `b`.
pub fn starts_with(b: &[usize], a: &[usize], n: usize) -> (r: bool)
    requires
        n <= a@.len(),
    ensures
        r == is_prefix(a@.take(n as int), b@),
{
    if n > b.len() {
        return false;
    }
    let mut i: usize = 0;
    while i < n
        invariant
            i <= n <= a@.len(),
            n <= b@.len(),
            a@.take(i as int) == b@.take(i as int),
        decreases n - i,
    {
        if a[i] != b[i] {
            proof {
                if b@.take(n as int) == a@.take(n as int) {
                    assert(b@.take(n as int)[i as int] == a@.take(n as int)[i as int]);
                }
            }
            return false;
        }
        proof {
            assert(a@.take(i + 1) =~= a@.take(i as int).push(a@[i as int]));
            assert(b@.take(i + 1) =~= b@.take(i as int).push(b@[i as int]));
        }
        i += 1;
    }
    true
}

} // verus!
