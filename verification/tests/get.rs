use ferret_hypergraph::elements::ElementType;
use ferret_hypergraph::elements::ElementValue;
use ferret_hypergraph::errors::GetError;
use ferret_hypergraph::errors::NoEdge;
use ferret_hypergraph::errors::NoElement;
use ferret_hypergraph::errors::NoElementLinkable;
use ferret_hypergraph::errors::NoHypergraph;
use ferret_hypergraph::errors::NoLink;
use ferret_hypergraph::errors::NoNode;
use ferret_hypergraph::errors::RootHypergraph;
use ferret_hypergraph::walkers::WalkNeighbors;
use ferret_hypergraph::Direction;
use ferret_hypergraph::Hypergraph;

fn five() -> Hypergraph<&'static str, &'static str, &'static str, &'static str> {
    let mut h = Hypergraph::new();
    h.add_node("zero", &[]).unwrap();
    h.add_node("one", &[]).unwrap();
    h.add_edge(&[0], &[1], "two", &[]).unwrap();
    h.add_link(&[0], &[2], Some("three"), &[]).unwrap();
    h.add_hypergraph(Some("six"), &[]).unwrap();
    h
}

#[test]
fn contains_linkable() {
    let mut h = Hypergraph::new();
    let node_id = h.add_node("zero", &[]).unwrap();
    let hypergraph_id = h.add_hypergraph(Some("one"), &[]).unwrap();
    let edge_id = h.add_edge(&[0], &[1], "two", &[]).unwrap();
    let link_id = h.add_link(&[0], &[2], Some("three"), &[]).unwrap();
    assert!(h.contains_linkable(&node_id));
    assert!(h.contains_linkable(&hypergraph_id));
    assert!(h.contains_linkable(&edge_id));
    assert!(!h.contains_linkable(&link_id));
}

#[test]
fn contains_linkable_element() {
    let mut h = Hypergraph::new();
    let node_id = h.add_node("zero", &[]).unwrap();
    let hypergraph_id = h.add_hypergraph(Some("one"), &[]).unwrap();
    let edge_id = h.add_edge(&[0], &[1], "two", &[]).unwrap();
    let link_id = h.add_link(&[0], &[2], Some("three"), &[]).unwrap();
    assert!(h.contains_linkable(&node_id));
    assert!(h.contains_linkable(&hypergraph_id));
    assert!(h.contains_linkable(&edge_id));
    assert!(!h.contains_linkable(&link_id));
}

#[test]
fn get_edge_value() {
    let mut h = Hypergraph::<_, _>::new();
    h.add_node("zero", &[]).unwrap();
    h.add_node("one", &[]).unwrap();
    h.add_edge(&[0], &[1], "two", &[]).unwrap();
    assert_eq!(h.edge_value(&[2]).unwrap(), &"two");
}

#[test]
fn hypergraph_edge_value() {
    let mut h = Hypergraph::<_, _>::new();
    h.add_node("zero", &[]).unwrap();
    h.add_node("one", &[]).unwrap();
    h.add_edge(&[0], &[1], "two", &[]).unwrap();
    assert_eq!(h.edge_value(&[2]).unwrap(), &"two");
}

fn check_element_value() {
    let h = five();
    assert_eq!(
        h.element_value(&[0]).unwrap(),
        ElementValue::Node { value: &"zero" }
    );
    assert_eq!(
        h.element_value(&[1]).unwrap(),
        ElementValue::Node { value: &"one" }
    );
    assert_eq!(
        h.element_value(&[2]).unwrap(),
        ElementValue::Edge { value: &"two" }
    );
    assert_eq!(
        h.element_value(&[3]).unwrap(),
        ElementValue::Link { value: None }
    );
    assert_eq!(
        h.element_value(&[4]).unwrap(),
        ElementValue::Link { value: None }
    );
    assert_eq!(
        h.element_value(&[5]).unwrap(),
        ElementValue::Link {
            value: Some(&"three")
        }
    );
    assert_eq!(
        h.element_value(&[6]).unwrap(),
        ElementValue::Hypergraph {
            value: Some(&"six")
        }
    );
}

#[test]
fn get_element_value() {
    check_element_value();
}

#[test]
fn hypergraph_element_value() {
    check_element_value();
}

fn check_element_value_mut() {
    let mut h = Hypergraph::<_, ()>::new();
    h.add_node("zero", &[]).unwrap();
    let element_value = h.element_value_mut(&[0]).unwrap();
    if let ElementValue::Node { value } = element_value {
        *value = "changed";
    }
    assert_eq!(
        h.element_value(&[0]).unwrap(),
        ElementValue::Node { value: &"changed" }
    );
}

#[test]
fn get_element_value_mut() {
    check_element_value_mut();
}

#[test]
fn hypergraph_element_value_mut() {
    check_element_value_mut();
}

#[test]
fn get_hypergraph_value() {
    let h = five();
    assert_eq!(h.hypergraph_value(&[6]).unwrap(), &Some("six"));
}

#[test]
fn hypergraph_hypergraph_value() {
    let h = five();
    assert_eq!(h.hypergraph_value(&[6]).unwrap(), &Some("six"));
}

fn check_ids() {
    let h = five();
    assert_eq!(
        h.ids(),
        vec![
            vec![],
            vec![0],
            vec![1],
            vec![2],
            vec![3],
            vec![4],
            vec![5],
            vec![6]
        ]
    );
}

#[test]
fn get_ids() {
    check_ids();
}

#[test]
fn hypergraph_ids() {
    check_ids();
}

fn check_links_of() {
    let mut h = Hypergraph::<&str, &str>::new();
    h.add_node("zero", &[]).unwrap();
    h.add_node("one", &[]).unwrap();
    h.add_edge(&[0], &[1], "two", &[]).unwrap();
    assert_eq!(
        h.links_of(&[0]).unwrap(),
        &vec![(vec![3], Direction::Outgoing)]
    );
    assert_eq!(
        h.links_of(&[1]).unwrap(),
        &vec![(vec![4], Direction::Incoming)]
    );
    assert_eq!(
        h.links_of(&[2]).unwrap(),
        &vec![
            (vec![3], Direction::Incoming),
            (vec![4], Direction::Outgoing)
        ]
    );
}

#[test]
fn get_links_of() {
    check_links_of();
}

#[test]
fn hypergraph_links_of() {
    check_links_of();
}

fn check_link_value() {
    let mut h = Hypergraph::<_, _, (), _>::new();
    h.add_node("zero", &[]).unwrap();
    h.add_node("one", &[]).unwrap();
    h.add_edge(&[0], &[1], "two", &[]).unwrap();
    h.add_link(&[0], &[2], Some("three"), &[]).unwrap();
    assert_eq!(h.link_value(&[3]).unwrap(), &None);
    assert_eq!(h.link_value(&[4]).unwrap(), &None);
    assert_eq!(h.link_value(&[5]).unwrap(), &Some("three"));
}

#[test]
fn get_link_value() {
    check_link_value();
}

#[test]
fn hypergraph_link_value() {
    check_link_value();
}

#[test]
fn get_neighbors() {
    let mut h = Hypergraph::new();
    h.add_node("zero", &[]).unwrap();
    h.add_node("one", &[]).unwrap();
    h.add_edge(&[0], &[1], "two", &[]).unwrap();
    h.add_link(&[0], &[2], Some("five"), &[]).unwrap();
    h.add_hypergraph(Some("six"), &[]).unwrap();

    assert!(h.neighbors(&[]).iter().next().is_none());
    assert!(h.neighbors(&[3]).iter().next().is_none());
    assert!(h.neighbors(&[4]).iter().next().is_none());

    let all = h.neighbors(&[0]);
    let mut neighbors = all.iter();
    assert_eq!(neighbors.next(), Some(&vec![2]));
    assert_eq!(neighbors.next(), Some(&vec![2]));
    assert_eq!(neighbors.next(), None);
    let all = h.neighbors(&[1]);
    let mut neighbors = all.iter();
    assert_eq!(neighbors.next(), None);
    let all = h.neighbors(&[2]);
    let mut neighbors = all.iter();
    assert_eq!(neighbors.next(), Some(&vec![1]));
    assert_eq!(neighbors.next(), None);
    let all = h.neighbors(&[6]);
    let mut neighbors = all.iter();
    assert_eq!(neighbors.next(), None);
}

#[test]
fn hypergraph_neighbors() {
    let mut h = Hypergraph::new();
    h.add_node("zero", &[]).unwrap();
    h.add_node("one", &[]).unwrap();
    h.add_edge(&[0], &[1], "two", &[]).unwrap();
    h.add_link(&[0], &[2], Some("five"), &[]).unwrap();
    h.add_hypergraph(Some("six"), &[]).unwrap();

    assert!(WalkNeighbors::new_checked(&h, &[], Direction::Outgoing).is_err());
    assert!(WalkNeighbors::new_checked(&h, &[3], Direction::Outgoing).is_err());
    assert!(WalkNeighbors::new_checked(&h, &[4], Direction::Outgoing).is_err());

    let mut neighbors = WalkNeighbors::new_checked(&h, &[0], Direction::Outgoing).unwrap();
    assert_eq!(neighbors.walk_next(&h), Some(&vec![2]));
    assert_eq!(neighbors.walk_next(&h), Some(&vec![2]));
    assert_eq!(neighbors.walk_next(&h), None);
    let mut neighbors = WalkNeighbors::new_checked(&h, &[1], Direction::Outgoing).unwrap();
    assert_eq!(neighbors.walk_next(&h), None);
    let mut neighbors = WalkNeighbors::new_checked(&h, &[2], Direction::Outgoing).unwrap();
    assert_eq!(neighbors.walk_next(&h), Some(&vec![1]));
    assert_eq!(neighbors.walk_next(&h), None);
    let mut neighbors = WalkNeighbors::new_checked(&h, &[6], Direction::Outgoing).unwrap();
    assert_eq!(neighbors.walk_next(&h), None);
}

fn check_next_id() {
    let h = five();
    assert_eq!(h.next_id(&[]).unwrap(), vec![0]);
    assert_eq!(h.next_id(&[0]).unwrap(), vec![1]);
    assert_eq!(h.next_id(&[1]).unwrap(), vec![2]);
    assert_eq!(h.next_id(&[2]).unwrap(), vec![3]);
    assert_eq!(h.next_id(&[3]).unwrap(), vec![4]);
    assert_eq!(h.next_id(&[4]).unwrap(), vec![5]);
    assert_eq!(h.next_id(&[5]).unwrap(), vec![6]);
    assert_eq!(h.next_id(&[6]), None);
    assert_eq!(h.next_id(&[0, 0]).unwrap(), vec![1]);
}

#[test]
fn get_next_id() {
    check_next_id();
}

#[test]
fn hypergraph_next_id() {
    check_next_id();
}

fn check_node_value() {
    let mut h = Hypergraph::<_, ()>::new();
    h.add_node("zero", &[]).unwrap();
    h.add_node("one", &[]).unwrap();
    assert_eq!(h.node_value(&[0]).unwrap(), &"zero");
    assert_eq!(h.node_value(&[1]).unwrap(), &"one");
}

#[test]
fn get_node_value() {
    check_node_value();
}

#[test]
fn hypergraph_node_value() {
    check_node_value();
}

#[test]
fn get_errors() {
    let h = five();
    assert_eq!(h.node_value(&[2]), Err(GetError::NoNode(NoNode(vec![2]))));
    assert_eq!(h.node_value(&[]), Err(GetError::NoNode(NoNode(vec![]))));
    assert_eq!(h.edge_value(&[0]), Err(GetError::NoEdge(NoEdge(vec![0]))));
    assert_eq!(h.link_value(&[0]), Err(GetError::NoLink(NoLink(vec![0]))));
    assert_eq!(
        h.hypergraph_value(&[0]),
        Err(GetError::NoHypergraph(NoHypergraph(vec![0])))
    );
    assert_eq!(
        h.element_value(&[7]),
        Err(GetError::NoElement(NoElement(vec![7])))
    );
    assert_eq!(
        h.element_type(&[6, 0]),
        Err(GetError::NoElement(NoElement(vec![6, 0])))
    );
    assert_eq!(
        h.links_of(&[3]),
        Err(GetError::NoElementLinkable(NoElementLinkable(vec![3])))
    );
    assert_eq!(
        h.links_of(&[]),
        Err(GetError::NoElementLinkable(NoElementLinkable(vec![])))
    );
    assert_eq!(
        h.link_endpoints(&[2]),
        Err(GetError::NoLink(NoLink(vec![2])))
    );
    assert_eq!(
        h.subhypergraph(&[]).err(),
        Some(GetError::RootHypergraph(RootHypergraph))
    );
    assert_eq!(
        h.hypergraph_of(&[]).err(),
        Some(GetError::RootHypergraph(RootHypergraph))
    );
    // the first part of the path that names no hypergraph is reported
    assert_eq!(
        h.subhypergraph(&[6, 1, 2]).err(),
        Some(GetError::NoHypergraph(NoHypergraph(vec![6, 1])))
    );
    assert_eq!(
        h.subhypergraph(&[0, 1]).err(),
        Some(GetError::NoHypergraph(NoHypergraph(vec![0])))
    );
    assert_eq!(
        h.hypergraph_of(&[0, 1, 2]).err(),
        Some(GetError::NoHypergraph(NoHypergraph(vec![0])))
    );
}

#[test]
fn kinds_and_values() {
    let h = five();
    assert_eq!(h.element_type(&[]), Ok(ElementType::Hypergraph));
    assert_eq!(h.element_type(&[0]), Ok(ElementType::Node));
    assert_eq!(h.element_type(&[2]), Ok(ElementType::Edge));
    assert_eq!(h.element_type(&[3]), Ok(ElementType::Link));
    assert_eq!(h.element_type(&[6]), Ok(ElementType::Hypergraph));
    assert_eq!(h.element_value(&[]), Ok(ElementValue::Hypergraph { value: None }));
    assert_eq!(h.hypergraph_value(&[]), Ok(&None));
    assert!(h.contains(&[]));
    assert!(h.contains_hypergraph(&[]));
    assert!(!h.contains_subhypergraph(&[]));
    assert!(h.contains_subhypergraph(&[6]));
    assert!(!h.contains_linkable(&[]));
    assert!(h.contains_edge(&[2]));
    assert!(h.contains_link(&[5]));
    assert!(!h.contains(&[7]));
    assert!(!h.contains(&[0, 0]));
    assert_eq!(h.link_endpoints(&[5]), Ok((&vec![0], &vec![2])));
}

#[test]
fn counts_and_shape() {
    let mut h = five();
    assert_eq!(h.node_count(), 2);
    assert_eq!(h.edge_count(), 1);
    assert_eq!(h.link_count(), 3);
    assert_eq!(h.hypergraph_count(), 2);
    assert!(!h.is_empty());
    assert_eq!(h.next_local_id(), 7);
    assert_eq!(h.depth(), 2);
    assert_eq!(h.id_bound(), vec![7, 0]);
    h.add_hypergraph(None, &[6]).unwrap();
    h.add_node("deep", &[6, 0]).unwrap();
    assert_eq!(h.depth(), 3);
    assert_eq!(h.id_bound(), vec![7, 1, 1]);
    assert_eq!(h.raw_nodes().len(), 2);
    assert_eq!(h.raw_edges()[0].id, 2);
    assert_eq!(h.raw_links()[2].source, vec![0]);
    assert_eq!(h.raw_hypergraphs()[0].id, 6);
    let empty = Hypergraph::<(), ()>::new();
    assert!(empty.is_empty());
    assert_eq!(empty.depth(), 1);
    assert_eq!(empty.hypergraph_count(), 1);
    assert_eq!(empty.id_bound(), vec![0]);
}

#[test]
fn depth_of_a_tree() {
    let mut h = Hypergraph::<(), ()>::new();
    h.add_hypergraph(Some(()), &[]).unwrap();
    h.add_hypergraph(Some(()), &[0]).unwrap();
    h.add_hypergraph(Some(()), &[0, 0]).unwrap();
    h.add_hypergraph(Some(()), &[]).unwrap();
    assert_eq!(h.depth(), 4);
}

#[test]
fn capacity_is_kept() {
    let mut h = Hypergraph::<u8, u8>::with_capacity(4, 3, 2, 1);
    let (edges, hypergraphs, links, nodes) = h.capacities();
    assert!(nodes >= 4 && edges >= 3 && links >= 2 && hypergraphs >= 1);
    h.add_node(1, &[]).unwrap();
    h.reserve(10);
    h.reserve_nodes(20);
    h.reserve_edges(20);
    h.reserve_links(20);
    h.reserve_hypergraphs(20);
    let (edges, hypergraphs, links, nodes) = h.capacities();
    assert!(nodes >= 21 && edges >= 20 && links >= 20 && hypergraphs >= 20);
    assert_eq!(h.ids(), vec![vec![], vec![0]]);
}

#[test]
fn capacities_hold_what_is_stored() {
    let mut h = Hypergraph::<usize, usize, usize, usize>::new();
    h.add_hypergraph(None, &[]).unwrap();
    for i in 0..40 {
        h.add_node(i, &[]).unwrap();
    }
    for i in 0..10 {
        h.add_edge(&[1], &[2 + i], i, &[]).unwrap();
    }
    let (edges, hypergraphs, links, nodes) = h.capacities();
    assert!(edges >= h.edge_count() && h.edge_count() == 10);
    assert!(hypergraphs >= h.hypergraph_count() - 1 && h.hypergraph_count() == 2);
    assert!(links >= h.link_count() && h.link_count() == 20);
    assert!(nodes >= h.node_count() && h.node_count() == 40);
}
