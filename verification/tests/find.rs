use ferret_hypergraph::elements::ElementValue;
use ferret_hypergraph::errors::FindError;
use ferret_hypergraph::errors::NoHypergraph;
use ferret_hypergraph::Hypergraph;

#[test]
fn find_link_id() {
    // Links without values
    let mut h = Hypergraph::<&str, &str, (), _>::new();
    let node_0_id = h.add_node("zero", &[]).unwrap();
    let node_1_id = h.add_node("one", &[]).unwrap();
    let edge_id = h.add_edge(&[0], &[1], "two", &[]).unwrap();

    let result = h.find_link_id(&node_0_id, &edge_id, None, &[]);
    assert_eq!(result, Ok(vec![3]));
    let result = h.find_link_id(&edge_id, &node_1_id, None, &[]);
    assert_eq!(result, Ok(vec![4]));

    // Links with values
    h.add_link(&node_0_id, &edge_id, Some("five"), &[]).unwrap();
    h.add_link(&edge_id, &node_1_id, Some("six"), &[]).unwrap();

    let result = h.find_link_id(&node_0_id, &edge_id, Some(&"five"), &[]);
    assert_eq!(result, Ok(vec![5]));
    let result = h.find_link_id(&edge_id, &node_1_id, Some(&"six"), &[]);
    assert_eq!(result, Ok(vec![6]));

    // Coherence with get::link_value
    let link_id = h
        .find_link_id(&node_0_id, &edge_id, Some(&"five"), &[])
        .unwrap();
    let link_value = h.link_value(&link_id).unwrap();
    let result = h.find_link_id(&node_0_id, &edge_id, link_value.as_ref(), &[]);
    assert_eq!(result, Ok(vec![5]));
}

#[test]
fn find_link_id_takes_the_first_of_equal_links() {
    let mut h = Hypergraph::<&str, &str, (), &str>::new();
    h.add_node("zero", &[]).unwrap();
    h.add_node("one", &[]).unwrap();
    h.add_edge(&[0], &[1], "two", &[]).unwrap();
    assert_eq!(h.add_link(&[0], &[2], Some("x"), &[]), Ok(vec![5]));
    assert_eq!(h.add_link(&[0], &[2], Some("x"), &[]), Ok(vec![6]));
    assert_eq!(h.find_link_id(&[0], &[2], Some(&"x"), &[]), Ok(vec![5]));
    h.remove_link(&[5]).unwrap();
    assert_eq!(h.find_link_id(&[0], &[2], Some(&"x"), &[]), Ok(vec![6]));
    assert_eq!(
        h.find_link_id(&[0], &[2], Some(&"y"), &[]),
        Err(FindError::NoLink)
    );
    assert_eq!(
        h.find_link_id(&[0], &[2], Some(&"x"), &[9]),
        Err(FindError::NoLocation(NoHypergraph(vec![9])))
    );
}

#[test]
fn find_link_id_does_not_look_into_nested_hypergraphs() {
    let mut h = Hypergraph::<&str, &str, &str, &str>::new();
    h.add_hypergraph(Some("sub"), &[]).unwrap();
    h.add_node("a", &[0]).unwrap();
    h.add_node("b", &[0]).unwrap();
    h.add_edge(&[0, 0], &[0, 1], "e", &[0]).unwrap();
    assert_eq!(
        h.find_link_id(&[0, 0], &[0, 2], None, &[]),
        Err(FindError::NoLink)
    );
    assert_eq!(
        h.find_link_id(&[0, 0], &[0, 2], None, &[0]),
        Ok(vec![0, 3])
    );
}

#[test]
fn find_by_value() {
    let mut h = Hypergraph::<&str, &str, &str, &str>::new();
    h.set_value(Some("root"));
    h.add_hypergraph(Some("sub"), &[]).unwrap();
    h.add_node("a", &[0]).unwrap();
    h.add_node("b", &[0]).unwrap();
    h.add_edge(&[0, 0], &[0, 1], "e", &[0]).unwrap();
    h.add_node("a", &[]).unwrap();
    h.add_link(&[0, 2], &[1], Some("l"), &[]).unwrap();

    // the first in the enumeration order wins: what lies in [0] comes before [1]
    assert_eq!(h.find_node_by_value(&"a"), Ok(vec![0, 0]));
    assert_eq!(h.find_node_by_value(&"b"), Ok(vec![0, 1]));
    assert_eq!(h.find_node_by_value(&"c"), Err(FindError::NoNode));
    assert_eq!(h.find_edge_by_value(&"e"), Ok(vec![0, 2]));
    assert_eq!(h.find_edge_by_value(&"a"), Err(FindError::NoEdge));
    assert_eq!(h.find_link_by_value(None), Ok(vec![0, 3]));
    assert_eq!(h.find_link_by_value(Some(&"l")), Ok(vec![2]));
    assert_eq!(h.find_link_by_value(Some(&"m")), Err(FindError::NoLink));
    assert_eq!(h.find_hypergraph_by_value(Some(&"root")), Ok(vec![]));
    assert_eq!(h.find_hypergraph_by_value(Some(&"sub")), Ok(vec![0]));
    assert_eq!(
        h.find_hypergraph_by_value(None),
        Err(FindError::NoHypergraph)
    );
    assert_eq!(
        h.find_element_by_value(ElementValue::Node { value: &"a" }),
        Ok(vec![0, 0])
    );
    assert_eq!(
        h.find_element_by_value(ElementValue::Edge { value: &"x" }),
        Err(FindError::NoEdge)
    );
    assert_eq!(
        h.find_element_by_value(ElementValue::Link { value: Some(&"l") }),
        Ok(vec![2])
    );
    assert_eq!(
        h.find_element_by_value(ElementValue::Hypergraph { value: Some(&"sub") }),
        Ok(vec![0])
    );
}
