use ferret_hypergraph::elements::ElementValue;
use ferret_hypergraph::errors::GetError;
use ferret_hypergraph::errors::NoEdge;
use ferret_hypergraph::errors::NoHypergraph;
use ferret_hypergraph::errors::NoLink;
use ferret_hypergraph::errors::NoNode;
use ferret_hypergraph::errors::SetError;
use ferret_hypergraph::Hypergraph;
use ferret_hypergraph::HypergraphEnum;

#[test]
fn set_edge_value() {
    let mut h = Hypergraph::<_, _>::new();
    h.add_node("zero", &[]).unwrap();
    h.add_node("one", &[]).unwrap();
    h.add_edge(&[0], &[1], "two", &[]).unwrap();
    assert_eq!(h.edge_value(&[2]), Ok(&"two"));
    assert_eq!(h.set_edge_value(&[2], "new_two"), Ok("two"));
    assert_eq!(h.edge_value(&[2]), Ok(&"new_two"));
    assert_eq!(h.neighbors(&[2]).iter().next(), Some(&vec![1]));
}

#[test]
fn set_hypergraph_value() {
    let mut h = Hypergraph::<_, _, _>::new();
    h.add_hypergraph(Some("zero"), &[]).unwrap();
    h.add_node("one", &[]).unwrap();
    h.add_edge(&[0], &[1], "two", &[]).unwrap();
    assert_eq!(h.hypergraph_value(&[0]), Ok(&Some("zero")));
    assert_eq!(h.set_hypergraph_value(&[0], Some("new_zero")), Ok(Some("zero")));
    assert_eq!(h.hypergraph_value(&[0]), Ok(&Some("new_zero")));
    assert_eq!(h.neighbors(&[0]).iter().next(), Some(&vec![2]));
}

#[test]
fn set_link_value() {
    let mut h = Hypergraph::<_, _, (), _>::new();
    h.add_node("zero", &[]).unwrap();
    h.add_node("one", &[]).unwrap();
    h.add_edge(&[0], &[1], "two", &[]).unwrap();
    assert_eq!(h.link_value(&[3]), Ok(&None));
    assert_eq!(h.set_link_value(&[3], Some("new_three")), Ok(None));
    assert_eq!(h.link_value(&[3]), Ok(&Some("new_three")));
}

#[test]
fn set_node_value() {
    let mut h = Hypergraph::<_, _>::new();
    h.add_node("zero", &[]).unwrap();
    h.add_node("one", &[]).unwrap();
    h.add_edge(&[0], &[1], "two", &[]).unwrap();
    assert_eq!(h.node_value(&[0]), Ok(&"zero"));
    assert_eq!(h.set_node_value(&[0], "new_zero"), Ok("zero"));
    assert_eq!(h.node_value(&[0]), Ok(&"new_zero"));
    assert_eq!(h.neighbors(&[0]).iter().next(), Some(&vec![2]));
    assert_eq!(h.node_value(&[1]), Ok(&"one"));
}

#[test]
fn set_value_of_the_whole() {
    let mut h = Hypergraph::<(), (), &str>::new();
    assert_eq!(h.value(), &None);
    assert_eq!(h.set_value(Some("a")), None);
    assert_eq!(h.set_value(Some("b")), Some("a"));
    assert_eq!(h.value(), &Some("b"));
    assert_eq!(h.set_hypergraph_value(&[], None), Ok(Some("b")));
    *h.value_mut() = Some("c");
    assert_eq!(h.hypergraph_value(&[]), Ok(&Some("c")));
}

#[test]
fn set_element_value() {
    let mut h = Hypergraph::<&str, &str, &str, &str>::new();
    h.add_node("zero", &[]).unwrap();
    h.add_hypergraph(Some("one"), &[]).unwrap();
    h.add_edge(&[0], &[1], "two", &[]).unwrap();
    h.add_node("inner", &[1]).unwrap();
    assert_eq!(
        h.set_element_value(&[0], ElementValue::Node { value: "n" }),
        Ok(ElementValue::Node { value: "zero" })
    );
    assert_eq!(
        h.set_element_value(&[2], ElementValue::Edge { value: "e" }),
        Ok(ElementValue::Edge { value: "two" })
    );
    assert_eq!(
        h.set_element_value(&[3], ElementValue::Link { value: Some("l") }),
        Ok(ElementValue::Link { value: None })
    );
    assert_eq!(
        h.set_element_value(&[1], ElementValue::Hypergraph { value: None }),
        Ok(ElementValue::Hypergraph { value: Some("one") })
    );
    assert_eq!(
        h.set_element_value(&[1, 0], ElementValue::Node { value: "deep" }),
        Ok(ElementValue::Node { value: "inner" })
    );
    assert_eq!(h.node_value(&[1, 0]), Ok(&"deep"));
    assert_eq!(h.link_value(&[3]), Ok(&Some("l")));
    // a payload of another kind is refused
    assert_eq!(
        h.set_element_value(&[0], ElementValue::Edge { value: "x" }),
        Err(SetError::NoEdge(NoEdge(vec![0])))
    );
    assert_eq!(h.node_value(&[0]), Ok(&"n"));
}

#[test]
fn set_errors() {
    let mut h = Hypergraph::<&str, &str, &str, &str>::new();
    h.add_node("zero", &[]).unwrap();
    assert_eq!(h.set_node_value(&[1], "x"), Err(SetError::NoNode(NoNode(vec![1]))));
    assert_eq!(h.set_edge_value(&[0], "x"), Err(SetError::NoEdge(NoEdge(vec![0]))));
    assert_eq!(h.set_link_value(&[0], None), Err(SetError::NoLink(NoLink(vec![0]))));
    assert_eq!(
        h.set_hypergraph_value(&[0], None),
        Err(SetError::NoHypergraph(NoHypergraph(vec![0])))
    );
    assert_eq!(h.node_value_mut(&[5]).err(), Some(GetError::NoNode(NoNode(vec![5]))));
    assert_eq!(h.edge_value_mut(&[0]).err(), Some(GetError::NoEdge(NoEdge(vec![0]))));
    assert_eq!(h.link_value_mut(&[0]).err(), Some(GetError::NoLink(NoLink(vec![0]))));
    assert_eq!(
        h.hypergraph_value_mut(&[0]).err(),
        Some(GetError::NoHypergraph(NoHypergraph(vec![0])))
    );
    assert_eq!(h.node_value(&[0]), Ok(&"zero"));
}

#[test]
fn mutable_access() {
    let mut h = Hypergraph::<&str, &str, &str, &str>::new();
    h.add_node("zero", &[]).unwrap();
    h.add_hypergraph(Some("one"), &[]).unwrap();
    h.add_edge(&[0], &[1], "two", &[]).unwrap();
    h.add_node("inner", &[1]).unwrap();
    *h.node_value_mut(&[1, 0]).unwrap() = "a";
    *h.edge_value_mut(&[2]).unwrap() = "b";
    *h.link_value_mut(&[4]).unwrap() = Some("c");
    *h.hypergraph_value_mut(&[1]).unwrap() = None;
    assert_eq!(h.node_value(&[1, 0]), Ok(&"a"));
    assert_eq!(h.edge_value(&[2]), Ok(&"b"));
    assert_eq!(h.link_value(&[4]), Ok(&Some("c")));
    assert_eq!(h.hypergraph_value(&[1]), Ok(&None));
    h.subhypergraph_mut(&[1]).unwrap().set_value(Some("d"));
    assert_eq!(h.hypergraph_value(&[1]), Ok(&Some("d")));
    match h.hypergraph_mut(&[1]).unwrap() {
        HypergraphEnum::Sub(g) => {
            g.set_node_value(&[0], "e").unwrap();
        }
        HypergraphEnum::Original(_) => panic!("the path names a nested hypergraph"),
    }
    match h.hypergraph_of_mut(&[1, 0]).unwrap() {
        HypergraphEnum::Sub(g) => assert_eq!(g.node_value(&[0]), Ok(&"e")),
        HypergraphEnum::Original(_) => panic!("the element lies in a nested hypergraph"),
    }
    assert!(h.hypergraph_mut(&[]).unwrap().is_original());
    assert!(h.hypergraph_mut(&[0]).is_err());
    // the links are as they were
    assert_eq!(h.neighbors(&[0]), vec![vec![2]]);
    assert_eq!(h.neighbors(&[2]), vec![vec![1]]);
}
