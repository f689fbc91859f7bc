use ferret_hypergraph::errors::AddError;
use ferret_hypergraph::errors::NoHypergraph;
use ferret_hypergraph::hypergraph::GraphSlot;
use ferret_hypergraph::slots::EdgeSlot;
use ferret_hypergraph::slots::LinkSlot;
use ferret_hypergraph::slots::NodeSlot;
use ferret_hypergraph::Direction;
use ferret_hypergraph::Hypergraph;
use ferret_hypergraph::Main;
use ferret_hypergraph::Sub;

fn sample() -> Hypergraph<&'static str, &'static str, &'static str, &'static str> {
    let mut h = Hypergraph::new();
    h.set_value(Some("root"));
    h.add_node("zero", &[]).unwrap();
    h.add_node("one", &[]).unwrap();
    h.add_edge(&[0], &[1], "two", &[]).unwrap();
    h.add_hypergraph(Some("five"), &[]).unwrap();
    h.add_node("inner", &[5]).unwrap();
    h.add_node("other", &[5]).unwrap();
    h.add_edge(&[5, 0], &[5, 1], "in", &[5]).unwrap();
    h.add_link(&[2], &[5, 0], Some("across"), &[]).unwrap();
    h
}

#[test]
fn parts_round_trip() {
    let h = sample();
    let before = h.ids();
    let (value, nodes, edges, links, hypergraphs, next_id) = h.into_parts();
    assert_eq!(value, Some("root"));
    assert_eq!(next_id, 7);
    assert_eq!(nodes.len(), 2);
    assert_eq!(edges.len(), 1);
    assert_eq!(links.len(), 3);
    assert_eq!(hypergraphs.len(), 1);
    let h: Hypergraph<_, _, _, _, Main> =
        Hypergraph::from_parts(value, nodes, edges, links, hypergraphs, next_id).unwrap();
    assert_eq!(h.ids(), before);
    assert!(h.is_consistent());
    assert_eq!(h.neighbors(&[2]), vec![vec![1], vec![5, 0]]);
}

fn node(id: usize, links: Vec<(Vec<usize>, Direction)>) -> NodeSlot<u8> {
    NodeSlot { id, value: 0, links }
}

fn parts(
    nodes: Vec<NodeSlot<u8>>,
    edges: Vec<EdgeSlot<u8>>,
    links: Vec<LinkSlot<u8>>,
    next_id: usize,
) -> Option<Hypergraph<u8, u8, u8, u8, Main>> {
    let none: Vec<GraphSlot<u8, u8, u8, u8>> = Vec::new();
    Hypergraph::from_parts(None, nodes, edges, links, none, next_id)
}

#[test]
fn parts_that_do_not_fit() {
    // a local id at the counter
    assert!(parts(vec![node(1, vec![])], vec![], vec![], 1).is_none());
    // local ids out of order
    assert!(parts(vec![node(1, vec![]), node(0, vec![])], vec![], vec![], 2).is_none());
    // a local id used twice
    assert!(parts(vec![node(0, vec![]), node(0, vec![])], vec![], vec![], 2).is_none());
    assert!(parts(
        vec![node(0, vec![])],
        vec![],
        vec![LinkSlot { id: 0, value: None, source: vec![0], target: vec![1] }],
        2
    )
    .is_none());
    assert!(parts(vec![node(0, vec![]), node(3, vec![])], vec![], vec![], 4).is_some());
}

#[test]
fn parts_that_break_the_rules() {
    let out = |l: usize| (vec![l], Direction::Outgoing);
    let inc = |l: usize| (vec![l], Direction::Incoming);
    let edge = |links| EdgeSlot { id: 2, value: 0u8, links };
    let link = |id: usize, s: usize, t: usize| LinkSlot {
        id,
        value: None,
        source: vec![s],
        target: vec![t],
    };
    // as `add_edge` leaves it
    let good = parts(
        vec![node(0, vec![out(3)]), node(1, vec![inc(4)])],
        vec![edge(vec![inc(3), out(4)])],
        vec![link(3, 0, 2), link(4, 2, 1)],
        5,
    )
    .unwrap();
    assert!(good.is_consistent());
    // a hyperedge with one link
    let h = parts(
        vec![node(0, vec![out(3)]), node(1, vec![])],
        vec![edge(vec![inc(3)])],
        vec![link(3, 0, 2)],
        5,
    )
    .unwrap();
    assert!(!h.is_consistent());
    // a link that its source does not list
    let h = parts(
        vec![node(0, vec![]), node(1, vec![inc(4)])],
        vec![edge(vec![inc(3), out(4)])],
        vec![link(3, 0, 2), link(4, 2, 1)],
        5,
    )
    .unwrap();
    assert!(!h.is_consistent());
    // a list that names a link of another element
    let h = parts(
        vec![node(0, vec![out(3), out(4)]), node(1, vec![inc(4)])],
        vec![edge(vec![inc(3), out(4)])],
        vec![link(3, 0, 2), link(4, 2, 1)],
        5,
    )
    .unwrap();
    assert!(!h.is_consistent());
    // a link between two nodes
    let h = parts(
        vec![node(0, vec![out(3)]), node(1, vec![inc(3)])],
        vec![],
        vec![link(3, 0, 1)],
        5,
    )
    .unwrap();
    assert!(!h.is_consistent());
    // a link that ends at a link
    let h = parts(
        vec![node(0, vec![out(3), out(5)]), node(1, vec![inc(4)])],
        vec![edge(vec![inc(3), out(4)])],
        vec![link(3, 0, 2), link(4, 2, 1), link(5, 0, 3)],
        6,
    )
    .unwrap();
    assert!(!h.is_consistent());
    // a link that ends nowhere
    let h = parts(
        vec![node(0, vec![out(3), out(5)]), node(1, vec![inc(4)])],
        vec![edge(vec![inc(3), out(4)])],
        vec![link(3, 0, 2), link(4, 2, 1), link(5, 0, 9)],
        6,
    )
    .unwrap();
    assert!(!h.is_consistent());
}

#[test]
fn a_link_stored_beside_its_ends_breaks_the_rules() {
    // the link [0, 2] lies in the hypergraph [0], its ends at the root
    let inner: Hypergraph<u8, u8, u8, u8, Sub> = Hypergraph::from_parts(
        None,
        vec![],
        vec![],
        vec![LinkSlot { id: 2, value: None, source: vec![1], target: vec![2] }],
        vec![],
        3,
    )
    .unwrap();
    let h: Hypergraph<u8, u8, u8, u8, Main> = Hypergraph::from_parts(
        None,
        vec![NodeSlot { id: 1, value: 0, links: vec![(vec![0, 2], Direction::Outgoing), (vec![3], Direction::Outgoing)] }],
        vec![EdgeSlot {
            id: 2,
            value: 0,
            links: vec![(vec![0, 2], Direction::Incoming), (vec![3], Direction::Incoming)],
        }],
        vec![LinkSlot { id: 3, value: None, source: vec![1], target: vec![2] }],
        vec![GraphSlot { id: 0, graph: inner, links: vec![] }],
        4,
    )
    .unwrap();
    assert!(!h.is_consistent());
}

#[test]
fn into_sub() {
    let h = sample();
    let before = h.ids();
    let sub: Hypergraph<_, _, _, _, Sub> = h.into_sub();
    assert!(sub.is_sub());
    assert_eq!(sub.ids(), before);
    assert_eq!(sub.value(), &Some("root"));
    let again: Hypergraph<_, _, _, _, Sub> = Hypergraph::from(sample());
    assert_eq!(again.ids(), before);
}

#[test]
fn extend_from_hypegraph() {
    let other = sample();
    let mut h = Hypergraph::<&str, &str, &str, &str>::new();
    h.add_node("n", &[]).unwrap();
    h.add_hypergraph(Some("place"), &[]).unwrap();
    assert_eq!(h.extend_from_hypegraph(&other, &[1]), Ok(vec![1, 0]));
    assert_eq!(h.hypergraph_value(&[1, 0]), Ok(&Some("root")));
    assert_eq!(h.node_value(&[1, 0, 0]), Ok(&"zero"));
    assert_eq!(h.node_value(&[1, 0, 5, 1]), Ok(&"other"));
    // the links of the copy start and end inside the copy
    assert_eq!(
        h.link_endpoints(&[1, 0, 3]),
        Ok((&vec![1, 0, 0], &vec![1, 0, 2]))
    );
    assert_eq!(
        h.links_of(&[1, 0, 5, 0]).unwrap(),
        &vec![
            (vec![1, 0, 5, 3], Direction::Outgoing),
            (vec![1, 0, 6], Direction::Incoming)
        ]
    );
    assert_eq!(h.neighbors(&[1, 0, 2]), vec![vec![1, 0, 1], vec![1, 0, 5, 0]]);
    assert!(h.links_of(&[1, 0]).unwrap().is_empty());
    assert_eq!(h.ids().len(), 3 + other.ids().len());
    assert!(h.is_consistent());
    // the copy has its own counter, and the place has moved on
    assert_eq!(h.add_node("late", &[1, 0]), Ok(vec![1, 0, 7]));
    assert_eq!(h.add_node("next", &[1]), Ok(vec![1, 1]));
    // what was copied is as it was
    assert_eq!(other.ids().len(), 13);
    assert_eq!(
        h.extend_from_hypegraph(&other, &[0]),
        Err(AddError::NoLocation(NoHypergraph(vec![0])))
    );
    // a copy can go to the root as well
    assert_eq!(h.extend_from_hypegraph(&other, &[]), Ok(vec![2]));
    assert!(h.is_consistent());
    h.remove(&[1]).unwrap();
    assert_eq!(h.ids().len(), 2 + other.ids().len());
    assert!(h.is_consistent());
}

#[test]
fn clone_is_a_copy() {
    let h = sample();
    let mut c = h.clone();
    assert_eq!(c.ids(), h.ids());
    assert_eq!(c.links_of(&[2]), h.links_of(&[2]));
    assert_eq!(c.link_endpoints(&[6]), h.link_endpoints(&[6]));
    assert_eq!(c.link_endpoints(&[6]), Ok((&vec![2], &vec![5, 0])));
    assert_eq!(c.next_local_id(), h.next_local_id());
    assert!(c.is_consistent());
    c.remove(&[0]).unwrap();
    assert!(h.contains(&[0]));
    assert!(!c.contains(&[0]));
}

#[test]
fn preappend_id() {
    let mut h = Hypergraph::new();
    h.add_node("zero", &[]).unwrap();
    h.add_node("one", &[]).unwrap();
    h.add_edge(&[0], &[1], "two", &[]).unwrap();
    h.add_link(&[0], &[2], Some("three"), &[]).unwrap();
    h.add_hypergraph(Some("six"), &[]).unwrap();
    h.preappend_id(&[1]);

    assert_eq!(
        h.links_of(&[0]).unwrap(),
        &vec![
            (vec![1, 3], Direction::Outgoing),
            (vec![1, 5], Direction::Outgoing)
        ]
    );
    assert_eq!(
        h.links_of(&[1]).unwrap(),
        &vec![(vec![1, 4], Direction::Incoming)]
    );
    assert_eq!(
        h.links_of(&[2]).unwrap(),
        &vec![
            (vec![1, 3], Direction::Incoming),
            (vec![1, 4], Direction::Outgoing),
            (vec![1, 5], Direction::Incoming),
        ]
    );
    assert_eq!(h.link_endpoints(&[5]), Ok((&vec![1, 0], &vec![1, 2])));
    // the paths now point to where the hypergraph is not
    assert!(!h.is_consistent());
}
