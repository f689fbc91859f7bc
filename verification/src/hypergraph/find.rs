//! Finding elements by their payload.

use vstd::prelude::*;
use vstd::std_specs::cmp::PartialEqSpec;
use crate::elements::ElementValue;
use crate::errors::FindError;
use crate::errors::NoHypergraph;
use crate::hypergraph::Hypergraph;
use crate::model::Model;
use crate::model::lemma_subview_step;
use crate::order::enumerates;
use crate::order::lists;
use crate::path::child_path;
use crate::path::lex_le;
use crate::path::lex_lt;
use crate::path::same_path;
use crate::path::to_path;
use crate::slots::Keyed;
use crate::slots::LinkSlot;
use crate::slots::lemma_key_pos;
use crate::slots::slot_of;

verus! {

/// Whether two optional payloads are equal: both absent, or both present
/// and equal by the `==` of their type, called on the first.
pub open spec fn option_matches<T: PartialEq>(a: Option<T>, b: Option<T>) -> bool {
    match (a, b) {
        (None, None) => true,
        (Some(x), Some(y)) => x.eq_spec(&y),
        _ => false,
    }
}

/// Compares two optional payloads with `==`.
pub fn same_option<T: PartialEq>(a: Option<&T>, b: Option<&T>) -> (r: bool)
    ensures
        T::obeys_eq_spec() ==> r == match (a, b) {
            (None, None) => true,
            (Some(x), Some(y)) => x.eq_spec(y),
            _ => false,
        },
        a is None && b is None ==> r,
        (a is None) != (b is None) ==> !r,
{
    match (a, b) {
        (None, None) => true,
        (Some(x), Some(y)) => *x == *y,
        _ => false,
    }
}

/// Whether `p` names a link from `source` to `target` whose payload equals
/// `wanted`.
pub open spec fn link_matches<N, E, H, L: PartialEq>(
    m: Model<N, E, H, L>,
    p: Seq<usize>,
    source: Seq<usize>,
    target: Seq<usize>,
    wanted: Option<L>,
) -> bool {
    &&& m.dom().contains(p)
    &&& m[p] is Link
    &&& m[p].source() == source
    &&& m[p].target() == target
    &&& option_matches(m[p].link_value(), wanted)
}

/// Whether `p` names an element with the kind and the payload of `wanted`,
/// the payloads compared by `==` called on the wanted one.
pub open spec fn value_matches<N: PartialEq, E: PartialEq, H: PartialEq, L: PartialEq>(
    m: Model<N, E, H, L>,
    p: Seq<usize>,
    wanted: ElementValue<N, E, H, L>,
) -> bool {
    m.dom().contains(p) && match wanted {
        ElementValue::Node { value } => m[p] is Node && value.eq_spec(&m[p].node_value()),
        ElementValue::Edge { value } => m[p] is Edge && value.eq_spec(&m[p].edge_value()),
        ElementValue::Link { value } => m[p] is Link && option_matches(value, m[p].link_value()),
        ElementValue::Hypergraph { value } => m[p] is Graph && option_matches(value, m[p].graph_value()),
    }
}

/// The wanted payload without the references.
pub open spec fn owned<N, E, H, L>(wanted: ElementValue<&N, &E, &H, &L>) -> ElementValue<N, E, H, L> {
    match wanted {
        ElementValue::Node { value } => ElementValue::Node { value: *value },
        ElementValue::Edge { value } => ElementValue::Edge { value: *value },
        ElementValue::Link { value } => ElementValue::Link {
            value: match value {
                Some(v) => Some(*v),
                None => None,
            },
        },
        ElementValue::Hypergraph { value } => ElementValue::Hypergraph {
            value: match value {
                Some(v) => Some(*v),
                None => None,
            },
        },
    }
}

/// The optional payload without the reference.
pub open spec fn owned_option<T>(v: Option<&T>) -> Option<T> {
    match v {
        Some(x) => Some(*x),
        None => None,
    }
}

/// Searches a store of links, in the order of the local ids, for one from
/// `source` to `target` with the payload `value`.
fn first_link<L: PartialEq>(links: &Vec<LinkSlot<L>>, source: &[usize], target: &[usize], value: Option<&L>) -> (r:
    Option<usize>)
    ensures
        match r {
            Some(i) => i < links@.len() && links@[i as int].source@ == source@ && links@[i as int].target@
                == target@,
            None => true,
        },
        L::obeys_eq_spec() ==> match r {
            Some(i) => option_matches(links@[i as int].value, owned_option(value)) && forall|j: int|
                0 <= j < i ==> !(#[trigger] links@[j].source@ == source@ && links@[j].target@ == target@
                    && option_matches(links@[j].value, owned_option(value))),
            None => forall|j: int|
                0 <= j < links@.len() ==> !(#[trigger] links@[j].source@ == source@ && links@[j].target@
                    == target@ && option_matches(links@[j].value, owned_option(value))),
        },
{
    let mut i: usize = 0;
    while i < links.len()
        invariant
            i <= links@.len(),
            L::obeys_eq_spec() ==> forall|j: int|
                0 <= j < i ==> !(#[trigger] links@[j].source@ == source@ && links@[j].target@ == target@
                    && option_matches(links@[j].value, owned_option(value))),
        decreases links@.len() - i,
    {
        if same_option(links[i].value.as_ref(), value) && same_path(links[i].source.as_slice(), source)
            && same_path(links[i].target.as_slice(), target) {
            return Some(i);
        }
        i += 1;
    }
    None
}

impl<N, E, H, L, Ty> Hypergraph<N, E, H, L, Ty> {
    /// Returns the path of the link in the hypergraph `location` that goes
    /// from `source` to `target` and has the payload `value`. Of several such
    /// links it returns the one with the smallest local id. Hypergraphs
    /// nested in `location` are not searched.
    ///
    /// The payloads are compared with the `==` of `L`. What is stated about
    /// the payload holds where that `==` is specified.
    ///
    /// # Errors
    ///
    /// `NoLocation` where `location` names no hypergraph, `NoLink` where the
    /// hypergraph holds no such link.
    pub fn find_link_id(&self, source: &[usize], target: &[usize], value: Option<&L>, location: &[usize]) -> (r:
        Result<Vec<usize>, FindError>)
        where L: PartialEq
        requires
            self.wf(),
        ensures
            match r {
                Ok(p) => {
                    &&& self@.dom().contains(location@) && self@[location@] is Graph
                    &&& p@.len() == location@.len() + 1 && p@.drop_last() == location@
                    &&& self@.dom().contains(p@) && self@[p@] is Link
                    &&& self@[p@].source() == source@ && self@[p@].target() == target@
                },
                Err(FindError::NoLocation(e)) => e.0@ == location@ && !(self@.dom().contains(location@)
                    && self@[location@] is Graph),
                Err(FindError::NoLink) => self@.dom().contains(location@) && self@[location@] is Graph,
                Err(_) => false,
            },
            L::obeys_eq_spec() ==> match r {
                Ok(p) => link_matches(self@, p@, source@, target@, owned_option(value)) && forall|j: usize|
                    j < p@.last() ==> !link_matches(
                        self@,
                        #[trigger] location@.push(j),
                        source@,
                        target@,
                        owned_option(value),
                    ),
                Err(FindError::NoLink) => forall|j: usize|
                    !link_matches(self@, #[trigger] location@.push(j), source@, target@, owned_option(value)),
                Err(_) => true,
            },
    {
        if location.len() == 0 {
            proof {
                self.lemma_root();
                assert(location@ =~= Seq::<usize>::empty());
                assert forall|j: usize| #[trigger] location@.push(j) == seq![j] by {
                    assert(location@.push(j) =~= seq![j]);
                }
            }
            let links = self.raw_links();
            match first_link(links, source, target, value) {
                Some(i) => {
                    let k = links[i].id;
                    let p = child_path(location, k);
                    proof {
                        lemma_key_pos(links@, i as int);
                        assert(p@.drop_last() =~= location@);
                        assert(slot_of(links@, k) == Some(links@[i as int]));
                        if L::obeys_eq_spec() {
                            assert forall|j: usize| j < k implies !link_matches(
                                self@,
                                #[trigger] location@.push(j),
                                source@,
                                target@,
                                owned_option(value),
                            ) by {
                                if let Some(s) = slot_of(links@, j) {
                                    let a = crate::slots::key_pos(links@, j);
                                    assert(links@[a].key() == j);
                                    if a >= i {
                                        if a > i {
                                            assert(links@[i as int].key() < links@[a].key());
                                        }
                                    }
                                }
                            }
                        }
                    }
                    Ok(p)
                },
                None => {
                    proof {
                        if L::obeys_eq_spec() {
                            assert forall|j: usize|
                                !link_matches(
                                    self@,
                                    #[trigger] location@.push(j),
                                    source@,
                                    target@,
                                    owned_option(value),
                                ) by {
                                if let Some(s) = slot_of(links@, j) {
                                    let a = crate::slots::key_pos(links@, j);
                                    assert(links@[a].key() == j);
                                }
                            }
                        }
                    }
                    Err(FindError::NoLink)
                },
            }
        } else {
            proof {
                assert(location@.skip(0) =~= location@);
            }
            let level = match self.sub(location, 0) {
                None => {
                    return Err(FindError::NoLocation(NoHypergraph(to_path(location))));
                },
                Some(g) => g,
            };
            let links = level.raw_links();
            proof {
                assert forall|j: usize|
                    level@.dom().contains(seq![j]) == self@.dom().contains(#[trigger] location@.push(j)) && (
                    self@.dom().contains(location@.push(j)) ==> level@[seq![j]] == self@[location@.push(j)]) by {
                    lemma_subview_step(self@, location@, j);
                }
            }
            match first_link(links, source, target, value) {
                Some(i) => {
                    let k = links[i].id;
                    let p = child_path(location, k);
                    proof {
                        lemma_key_pos(links@, i as int);
                        assert(p@.drop_last() =~= location@);
                        assert(slot_of(links@, k) == Some(links@[i as int]));
                        assert(self@.dom().contains(location@.push(k)));
                        if L::obeys_eq_spec() {
                            assert forall|j: usize| j < k implies !link_matches(
                                self@,
                                #[trigger] location@.push(j),
                                source@,
                                target@,
                                owned_option(value),
                            ) by {
                                if let Some(s) = slot_of(links@, j) {
                                    let a = crate::slots::key_pos(links@, j);
                                    assert(links@[a].key() == j);
                                    if a > i {
                                        assert(links@[i as int].key() < links@[a].key());
                                    }
                                }
                            }
                        }
                    }
                    Ok(p)
                },
                None => {
                    proof {
                        if L::obeys_eq_spec() {
                            assert forall|j: usize|
                                !link_matches(
                                    self@,
                                    #[trigger] location@.push(j),
                                    source@,
                                    target@,
                                    owned_option(value),
                                ) by {
                                if let Some(s) = slot_of(links@, j) {
                                    let a = crate::slots::key_pos(links@, j);
                                    assert(links@[a].key() == j);
                                }
                            }
                        }
                    }
                    Err(FindError::NoLink)
                },
            }
        }
    }
}

/// Whether `p` names a node whose payload equals `value`, compared by `==`
/// called on `value`.
pub open spec fn node_matches<N, E, H, L>(m: Model<N, E, H, L>, p: Seq<usize>, value: N) -> bool
    where N: PartialEq
{
    m.dom().contains(p) && m[p] is Node && value.eq_spec(&m[p].node_value())
}

/// Whether `p` names a hyperedge whose payload equals `value`, compared by `==`
/// called on `value`.
pub open spec fn edge_matches<N, E, H, L>(m: Model<N, E, H, L>, p: Seq<usize>, value: E) -> bool
    where E: PartialEq
{
    m.dom().contains(p) && m[p] is Edge && value.eq_spec(&m[p].edge_value())
}

/// Whether `p` names a link whose payload equals `value`, compared by `==`
/// called on `value`.
pub open spec fn link_value_matches<N, E, H, L>(m: Model<N, E, H, L>, p: Seq<usize>, value: Option<L>) -> bool
    where L: PartialEq
{
    m.dom().contains(p) && m[p] is Link && option_matches(value, m[p].link_value())
}

/// Whether `p` names a hypergraph whose payload equals `value`, compared by
/// `==` called on `value`.
pub open spec fn hypergraph_matches<N, E, H, L>(m: Model<N, E, H, L>, p: Seq<usize>, value: Option<H>) -> bool
    where H: PartialEq
{
    m.dom().contains(p) && m[p] is Graph && option_matches(value, m[p].graph_value())
}

impl<N, E, H, L, Ty> Hypergraph<N, E, H, L, Ty> {
    /// Returns the path of the first a node in the enumeration order whose
    /// payload equals `value`.
    ///
    /// The payloads are compared with the `==` of `N`, called on `value`.
    /// What is stated about the payload holds where that `==` is specified.
    ///
    /// # Errors
    ///
    /// `NoNode` where no payload was found equal.
    pub fn find_node_by_value(&self, value: &N) -> (r: Result<Vec<usize>, FindError>)
        where N: PartialEq
        requires
            self.wf(),
        ensures
            match r {
                Ok(p) => self@.dom().contains(p@) && self@[p@] is Node,
                Err(e) => e is NoNode,
            },
            N::obeys_eq_spec() ==> match r {
                Ok(p) => node_matches(self@, p@, *value) && forall|q: Seq<usize>| #[trigger]
                    node_matches(self@, q, *value) ==> lex_le(p@, q),
                Err(_) => forall|q: Seq<usize>| !#[trigger] node_matches(self@, q, *value),
            },
    {
        let ids = self.ids();
        let mut i: usize = 0;
        while i < ids.len()
            invariant
                self.wf(),
                enumerates(ids@, self@),
                i <= ids@.len(),
                N::obeys_eq_spec() ==> forall|j: int|
                    0 <= j < i ==> !node_matches(self@, (#[trigger] ids@[j])@, *value),
            decreases ids@.len() - i,
        {
            let id = &ids[i];
            if let Some(s) = self.find_node(id.as_slice()) {
                if *value == s.value {
                    proof {
                        if N::obeys_eq_spec() {
                            assert forall|q: Seq<usize>| #[trigger]
                                node_matches(self@, q, *value) implies lex_le(id@, q) by {
                                assert(lists(ids@, q));
                                let j = choose|j: int| 0 <= j < ids@.len() && (#[trigger] ids@[j])@ == q;
                                if j > i {
                                    assert(lex_lt(ids@[i as int]@, ids@[j]@));
                                }
                            }
                        }
                    }
                    return Ok(to_path(id.as_slice()));
                }
            }
            i += 1;
        }
        proof {
            if N::obeys_eq_spec() {
                assert forall|q: Seq<usize>| !#[trigger] node_matches(self@, q, *value) by {
                    if node_matches(self@, q, *value) {
                        assert(lists(ids@, q));
                        let j = choose|j: int| 0 <= j < ids@.len() && (#[trigger] ids@[j])@ == q;
                        assert(!node_matches(self@, ids@[j]@, *value));
                    }
                }
            }
        }
        Err(FindError::NoNode)
    }

    /// Returns the path of the first a hyperedge in the enumeration order whose
    /// payload equals `value`.
    ///
    /// The payloads are compared with the `==` of `E`, called on `value`.
    /// What is stated about the payload holds where that `==` is specified.
    ///
    /// # Errors
    ///
    /// `NoEdge` where no payload was found equal.
    pub fn find_edge_by_value(&self, value: &E) -> (r: Result<Vec<usize>, FindError>)
        where E: PartialEq
        requires
            self.wf(),
        ensures
            match r {
                Ok(p) => self@.dom().contains(p@) && self@[p@] is Edge,
                Err(e) => e is NoEdge,
            },
            E::obeys_eq_spec() ==> match r {
                Ok(p) => edge_matches(self@, p@, *value) && forall|q: Seq<usize>| #[trigger]
                    edge_matches(self@, q, *value) ==> lex_le(p@, q),
                Err(_) => forall|q: Seq<usize>| !#[trigger] edge_matches(self@, q, *value),
            },
    {
        let ids = self.ids();
        let mut i: usize = 0;
        while i < ids.len()
            invariant
                self.wf(),
                enumerates(ids@, self@),
                i <= ids@.len(),
                E::obeys_eq_spec() ==> forall|j: int|
                    0 <= j < i ==> !edge_matches(self@, (#[trigger] ids@[j])@, *value),
            decreases ids@.len() - i,
        {
            let id = &ids[i];
            if let Some(s) = self.find_edge(id.as_slice()) {
                if *value == s.value {
                    proof {
                        if E::obeys_eq_spec() {
                            assert forall|q: Seq<usize>| #[trigger]
                                edge_matches(self@, q, *value) implies lex_le(id@, q) by {
                                assert(lists(ids@, q));
                                let j = choose|j: int| 0 <= j < ids@.len() && (#[trigger] ids@[j])@ == q;
                                if j > i {
                                    assert(lex_lt(ids@[i as int]@, ids@[j]@));
                                }
                            }
                        }
                    }
                    return Ok(to_path(id.as_slice()));
                }
            }
            i += 1;
        }
        proof {
            if E::obeys_eq_spec() {
                assert forall|q: Seq<usize>| !#[trigger] edge_matches(self@, q, *value) by {
                    if edge_matches(self@, q, *value) {
                        assert(lists(ids@, q));
                        let j = choose|j: int| 0 <= j < ids@.len() && (#[trigger] ids@[j])@ == q;
                        assert(!edge_matches(self@, ids@[j]@, *value));
                    }
                }
            }
        }
        Err(FindError::NoEdge)
    }

    /// Returns the path of the first a link in the enumeration order whose
    /// payload equals `value`.
    ///
    /// The payloads are compared with the `==` of `L`, called on `value`.
    /// What is stated about the payload holds where that `==` is specified.
    ///
    /// # Errors
    ///
    /// `NoLink` where no payload was found equal.
    pub fn find_link_by_value(&self, value: Option<&L>) -> (r: Result<Vec<usize>, FindError>)
        where L: PartialEq
        requires
            self.wf(),
        ensures
            match r {
                Ok(p) => self@.dom().contains(p@) && self@[p@] is Link,
                Err(e) => e is NoLink,
            },
            L::obeys_eq_spec() ==> match r {
                Ok(p) => link_value_matches(self@, p@, owned_option(value)) && forall|q: Seq<usize>| #[trigger]
                    link_value_matches(self@, q, owned_option(value)) ==> lex_le(p@, q),
                Err(_) => forall|q: Seq<usize>| !#[trigger] link_value_matches(self@, q, owned_option(value)),
            },
    {
        let ids = self.ids();
        let mut i: usize = 0;
        while i < ids.len()
            invariant
                self.wf(),
                enumerates(ids@, self@),
                i <= ids@.len(),
                L::obeys_eq_spec() ==> forall|j: int|
                    0 <= j < i ==> !link_value_matches(self@, (#[trigger] ids@[j])@, owned_option(value)),
            decreases ids@.len() - i,
        {
            let id = &ids[i];
            if let Some(s) = self.find_link(id.as_slice()) {
                if same_option(value, s.value.as_ref()) {
                    proof {
                        if L::obeys_eq_spec() {
                            assert forall|q: Seq<usize>| #[trigger]
                                link_value_matches(self@, q, owned_option(value)) implies lex_le(id@, q) by {
                                assert(lists(ids@, q));
                                let j = choose|j: int| 0 <= j < ids@.len() && (#[trigger] ids@[j])@ == q;
                                if j > i {
                                    assert(lex_lt(ids@[i as int]@, ids@[j]@));
                                }
                            }
                        }
                    }
                    return Ok(to_path(id.as_slice()));
                }
            }
            i += 1;
        }
        proof {
            if L::obeys_eq_spec() {
                assert forall|q: Seq<usize>| !#[trigger] link_value_matches(self@, q, owned_option(value)) by {
                    if link_value_matches(self@, q, owned_option(value)) {
                        assert(lists(ids@, q));
                        let j = choose|j: int| 0 <= j < ids@.len() && (#[trigger] ids@[j])@ == q;
                        assert(!link_value_matches(self@, ids@[j]@, owned_option(value)));
                    }
                }
            }
        }
        Err(FindError::NoLink)
    }

    /// Returns the path of the first hypergraph in the enumeration order
    /// whose payload equals `value`. The hypergraph itself, under the empty
    /// path, is the first candidate.
    ///
    /// The payloads are compared with the `==` of `H`, called on `value`.
    /// What is stated about the payload holds where that `==` is specified.
    ///
    /// # Errors
    ///
    /// `NoHypergraph` where no payload was found equal.
    pub fn find_hypergraph_by_value(&self, value: Option<&H>) -> (r: Result<Vec<usize>, FindError>)
        where H: PartialEq
        requires
            self.wf(),
        ensures
            match r {
                Ok(p) => self@.dom().contains(p@) && self@[p@] is Graph,
                Err(e) => e is NoHypergraph,
            },
            H::obeys_eq_spec() ==> match r {
                Ok(p) => hypergraph_matches(self@, p@, owned_option(value)) && forall|q: Seq<usize>| #[trigger]
                    hypergraph_matches(self@, q, owned_option(value)) ==> lex_le(p@, q),
                Err(_) => forall|q: Seq<usize>| !#[trigger] hypergraph_matches(self@, q, owned_option(value)),
            },
    {
        let ids = self.ids();
        let mut i: usize = 0;
        while i < ids.len()
            invariant
                self.wf(),
                enumerates(ids@, self@),
                i <= ids@.len(),
                H::obeys_eq_spec() ==> forall|j: int|
                    0 <= j < i ==> !hypergraph_matches(self@, (#[trigger] ids@[j])@, owned_option(value)),
            decreases ids@.len() - i,
        {
            let id = &ids[i];
            if let Ok(stored) = self.hypergraph_value(id.as_slice()) {
                if same_option(value, stored.as_ref()) {
                    proof {
                        if H::obeys_eq_spec() {
                            assert forall|q: Seq<usize>| #[trigger]
                                hypergraph_matches(self@, q, owned_option(value)) implies lex_le(id@, q) by {
                                assert(lists(ids@, q));
                                let j = choose|j: int| 0 <= j < ids@.len() && (#[trigger] ids@[j])@ == q;
                                if j > i {
                                    assert(lex_lt(ids@[i as int]@, ids@[j]@));
                                }
                            }
                        }
                    }
                    return Ok(to_path(id.as_slice()));
                }
            }
            i += 1;
        }
        proof {
            if H::obeys_eq_spec() {
                assert forall|q: Seq<usize>| !#[trigger] hypergraph_matches(self@, q, owned_option(value)) by {
                    if hypergraph_matches(self@, q, owned_option(value)) {
                        assert(lists(ids@, q));
                        let j = choose|j: int| 0 <= j < ids@.len() && (#[trigger] ids@[j])@ == q;
                        assert(!hypergraph_matches(self@, ids@[j]@, owned_option(value)));
                    }
                }
            }
        }
        Err(FindError::NoHypergraph)
    }

    /// Returns the path of the first element in the enumeration order that
    /// has the kind and the payload of `value`.
    ///
    /// # Errors
    ///
    /// `NoNode`, `NoEdge`, `NoLink` or `NoHypergraph`, by the kind of `value`,
    /// where no payload was found equal.
    pub fn find_element_by_value(&self, value: ElementValue<&N, &E, &H, &L>) -> (r: Result<Vec<usize>, FindError>)
        where N: PartialEq, E: PartialEq, H: PartialEq, L: PartialEq
        requires
            self.wf(),
        ensures
            match r {
                Ok(p) => self@.dom().contains(p@) && self@[p@].kind() == value.kind(),
                Err(e) => match value {
                    ElementValue::Node { .. } => e is NoNode,
                    ElementValue::Edge { .. } => e is NoEdge,
                    ElementValue::Link { .. } => e is NoLink,
                    ElementValue::Hypergraph { .. } => e is NoHypergraph,
                },
            },
            N::obeys_eq_spec() && E::obeys_eq_spec() && H::obeys_eq_spec() && L::obeys_eq_spec() ==> match r {
                Ok(p) => value_matches(self@, p@, owned(value)) && forall|q: Seq<usize>| #[trigger]
                    value_matches(self@, q, owned(value)) ==> lex_le(p@, q),
                Err(_) => forall|q: Seq<usize>| !#[trigger] value_matches(self@, q, owned(value)),
            },
    {
        match value {
            ElementValue::Edge { value: v } => {
                let r = self.find_edge_by_value(v);
                proof {
                    assert forall|q: Seq<usize>| #[trigger]
                        value_matches(self@, q, owned(value)) == edge_matches(self@, q, *v) by {}
                }
                r
            },
            ElementValue::Hypergraph { value: v } => {
                let r = self.find_hypergraph_by_value(v);
                proof {
                    assert forall|q: Seq<usize>| #[trigger]
                        value_matches(self@, q, owned(value)) == hypergraph_matches(self@, q, owned_option(v)) by {}
                }
                r
            },
            ElementValue::Link { value: v } => {
                let r = self.find_link_by_value(v);
                proof {
                    assert forall|q: Seq<usize>| #[trigger]
                        value_matches(self@, q, owned(value)) == link_value_matches(self@, q, owned_option(v)) by {}
                }
                r
            },
            ElementValue::Node { value: v } => {
                let r = self.find_node_by_value(v);
                proof {
                    assert forall|q: Seq<usize>| #[trigger]
                        value_matches(self@, q, owned(value)) == node_matches(self@, q, *v) by {}
                }
                r
            },
        }
    }
}

} // verus!
