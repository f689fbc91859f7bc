use ferret_hypergraph::errors::AddError;
use ferret_hypergraph::errors::EmptySource;
use ferret_hypergraph::errors::EmptyTarget;
use ferret_hypergraph::errors::FindError;
use ferret_hypergraph::errors::IncoherentLink;
use ferret_hypergraph::errors::LinkSource;
use ferret_hypergraph::errors::LinkTarget;
use ferret_hypergraph::errors::NoElementLinkable;
use ferret_hypergraph::errors::NoHypergraph;
use ferret_hypergraph::errors::Unlinkable;
use ferret_hypergraph::Direction;
use ferret_hypergraph::Hypergraph;

#[test]
fn add_add_edge() {
    let mut h = Hypergraph::<&str, &str>::new();
    let node_0_id = h.add_node("zero", &[]).unwrap();
    let node_1_id = h.add_node("one", &[]).unwrap();
    let edge_id = h.add_edge(&[0], &[1], "two", &[]).unwrap();
    assert_eq!(vec![2], edge_id);
    assert_eq!(
        Err(FindError::NoLink),
        h.find_link_id(&[0], &[1], None, &[])
    );
    assert_eq!(Ok(vec![3]), h.find_link_id(&[0], &[2], None, &[]));
    assert_eq!(Ok(vec![4]), h.find_link_id(&[2], &[1], None, &[]));
    assert!(h.contains_node(&node_0_id));
    assert!(h.contains_node(&node_1_id));
    assert_eq!(h.edge_value(&edge_id).unwrap(), &"two");
}

#[test]
fn add_add_hypergraph() {
    let mut h = Hypergraph::<u8, u8, _>::new();
    let id = h.add_hypergraph(Some("zero"), &[]).unwrap();
    assert_eq!(h.hypergraph_value(&id).unwrap(), &Some("zero"));
}

#[test]
fn add_add_link() {
    let mut h = Hypergraph::<_, _, (), _>::new();
    h.add_node("zero", &[]).unwrap();
    h.add_node("one", &[]).unwrap();
    h.add_edge(&[0], &[1], "two", &[]).unwrap();
    let link_id = h.add_link(&[0], &[2], Some("three"), &[]).unwrap();
    assert_eq!(h.link_value(&link_id).unwrap(), &Some("three"));
}

#[test]
fn add_add_node() {
    let mut h = Hypergraph::<_, u8>::new();
    let id = h.add_node("zero", &[]).unwrap();
    assert_eq!(h.node_value(&id).unwrap(), &"zero");
}

#[test]
fn hyper_graph_add_hypergraph() {
    let mut h = Hypergraph::<u8, u8, _>::new();
    let id = h.add_hypergraph(Some("zero"), &[]).unwrap();
    assert_eq!(h.hypergraph_value(&id).unwrap(), &Some("zero"));
}

#[test]
fn hyper_graph_add_node() {
    let mut h = Hypergraph::<_, u8>::new();
    let id = h.add_node("zero", &[]).unwrap();
    assert_eq!(h.node_value(&id).unwrap(), &"zero");
}

#[test]
fn add_error_empty_source() {
    let mut h = Hypergraph::<_, ()>::new();
    h.add_node("zero", &[]).unwrap();
    assert_eq!(
        h.add_link(&[], &[0], Some(()), &[]),
        Err(AddError::EmptySource(EmptySource))
    );
}

#[test]
fn add_error_empty_target() {
    let mut h = Hypergraph::<_, ()>::new();
    h.add_node("zero", &[]).unwrap();
    assert_eq!(
        h.add_link(&[0], &[], Some(()), &[]),
        Err(AddError::EmptyTarget(EmptyTarget))
    );
}

#[test]
fn add_error_incoherent_link() {
    let mut h = Hypergraph::<(), (), _>::new();
    h.add_hypergraph(Some("zero"), &[]).unwrap();
    h.add_hypergraph(Some("one"), &[]).unwrap();
    h.add_hypergraph(Some("zero"), &[0]).unwrap();
    assert_eq!(
        h.add_edge(&[0, 0], &[0], (), &[1]),
        Err(AddError::IncoherentLink(IncoherentLink(
            vec![1],
            vec![0, 0],
            vec![0]
        )))
    );
}

#[test]
fn add_error_link_source() {
    let mut h = Hypergraph::<_, _, ()>::new();
    h.add_node("zero", &[]).unwrap();
    h.add_node("one", &[]).unwrap();
    h.add_edge(&[0], &[1], "two", &[]).unwrap();
    assert_eq!(
        h.add_link(&[3], &[0], Some(()), &[]),
        Err(AddError::LinkSource(LinkSource(vec![3])))
    );
}

#[test]
fn add_error_link_target() {
    let mut h = Hypergraph::<_, _, ()>::new();
    h.add_node("zero", &[]).unwrap();
    h.add_node("one", &[]).unwrap();
    h.add_edge(&[0], &[1], "two", &[]).unwrap();
    assert_eq!(
        h.add_link(&[0], &[3], Some(()), &[]),
        Err(AddError::LinkTarget(LinkTarget(vec![3])))
    );
}

#[test]
fn add_error_no_hypergraph() {
    let mut h = Hypergraph::<_, ()>::new();
    assert_eq!(
        h.add_node("zero", &[1]),
        Err(AddError::NoLocation(NoHypergraph(vec![1])))
    );
}

#[test]
fn add_error_no_source() {
    let mut h = Hypergraph::<&str, (), (), _>::new();
    h.add_node("zero", &[]).unwrap();
    assert_eq!(
        h.add_link(&[1], &[0], Some("zero"), &[]),
        Err(AddError::NoSource(NoElementLinkable(vec![1])))
    );
}

#[test]
fn add_error_no_target() {
    let mut h = Hypergraph::<&str, (), (), _>::new();
    h.add_node("zero", &[]).unwrap();
    assert_eq!(
        h.add_link(&[0], &[1], Some("zero"), &[]),
        Err(AddError::NoTarget(NoElementLinkable(vec![1])))
    );
}

#[test]
fn add_error_unlinkable() {
    let mut h = Hypergraph::<(), (), _>::new();
    h.add_hypergraph(Some("zero"), &[]).unwrap();
    h.add_hypergraph(Some("one"), &[0]).unwrap();
    assert_eq!(
        h.add_link(&[0, 0], &[0], Some(()), &[]),
        Err(AddError::Unlinkable(Unlinkable(vec![0, 0], vec![0])))
    );
}

#[test]
fn a_link_between_two_nodes_is_refused() {
    let mut h = Hypergraph::<&str, &str, (), &str>::new();
    h.add_node("zero", &[]).unwrap();
    h.add_node("one", &[]).unwrap();
    assert_eq!(
        h.add_link(&[0], &[1], Some("x"), &[]),
        Err(AddError::Unlinkable(Unlinkable(vec![0], vec![1])))
    );
    assert_eq!(h.ids(), vec![vec![], vec![0], vec![1]]);
    assert_eq!(h.next_local_id(), 2);
}

#[test]
fn a_link_between_two_hyperedges_is_refused() {
    let mut h = Hypergraph::<&str, &str, (), &str>::new();
    h.add_node("zero", &[]).unwrap();
    h.add_node("one", &[]).unwrap();
    h.add_edge(&[0], &[1], "a", &[]).unwrap();
    h.add_edge(&[0], &[1], "b", &[]).unwrap();
    assert_eq!(
        h.add_link(&[2], &[5], None, &[]),
        Err(AddError::Unlinkable(Unlinkable(vec![2], vec![5])))
    );
}

#[test]
fn a_hyperedge_may_join_two_hyperedges() {
    let mut h = Hypergraph::<&str, &str>::new();
    h.add_node("zero", &[]).unwrap();
    h.add_node("one", &[]).unwrap();
    h.add_edge(&[0], &[1], "a", &[]).unwrap();
    h.add_edge(&[0], &[1], "b", &[]).unwrap();
    assert_eq!(h.add_edge(&[2], &[5], "c", &[]), Ok(vec![8]));
    assert_eq!(
        h.links_of(&[8]).unwrap(),
        &vec![(vec![9], Direction::Incoming), (vec![10], Direction::Outgoing)]
    );
    assert_eq!(
        h.link_endpoints(&[9]).unwrap(),
        (&vec![2], &vec![8])
    );
    assert_eq!(
        h.link_endpoints(&[10]).unwrap(),
        (&vec![8], &vec![5])
    );
}

#[test]
fn the_anchor_links_of_a_hyperedge() {
    let mut h = Hypergraph::<&str, &str>::new();
    assert_eq!(h.add_node("zero", &[]), Ok(vec![0]));
    assert_eq!(h.add_node("one", &[]), Ok(vec![1]));
    assert_eq!(h.add_edge(&[0], &[1], "two", &[]), Ok(vec![2]));
    assert_eq!(h.find_link_id(&[0], &[2], None, &[]), Ok(vec![3]));
    assert_eq!(h.find_link_id(&[2], &[1], None, &[]), Ok(vec![4]));
    assert_eq!(h.link_value(&[3]), Ok(&None));
    assert_eq!(h.link_value(&[4]), Ok(&None));
    assert_eq!(h.next_local_id(), 5);
}

#[test]
fn adding_inside_a_nested_hypergraph() {
    let mut h = Hypergraph::<&str, &str, &str, &str>::new();
    assert_eq!(h.add_hypergraph(Some("sub"), &[]), Ok(vec![0]));
    assert_eq!(h.add_node("a", &[0]), Ok(vec![0, 0]));
    assert_eq!(h.add_node("b", &[0]), Ok(vec![0, 1]));
    assert_eq!(h.add_node("top", &[]), Ok(vec![1]));
    // stored at the root, between a node inside and a node outside
    assert_eq!(h.add_edge(&[0, 0], &[1], "e", &[]), Ok(vec![2]));
    // stored inside, both ends inside
    assert_eq!(h.add_edge(&[0, 0], &[0, 1], "f", &[0]), Ok(vec![0, 2]));
    // stored inside, one end outside: refused
    assert_eq!(
        h.add_edge(&[0, 0], &[1], "g", &[0]),
        Err(AddError::IncoherentLink(IncoherentLink(
            vec![0],
            vec![0, 0],
            vec![1]
        )))
    );
    assert_eq!(
        h.links_of(&[0, 0]).unwrap(),
        &vec![(vec![3], Direction::Outgoing), (vec![0, 3], Direction::Outgoing)]
    );
    assert_eq!(
        h.ids(),
        vec![
            vec![],
            vec![0],
            vec![0, 0],
            vec![0, 1],
            vec![0, 2],
            vec![0, 3],
            vec![0, 4],
            vec![1],
            vec![2],
            vec![3],
            vec![4]
        ]
    );
}
