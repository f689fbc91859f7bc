use ferret_hypergraph::elements::Element;
use ferret_hypergraph::elements::ElementExt;
use ferret_hypergraph::elements::ElementLinkable;
use ferret_hypergraph::elements::ElementType;
use ferret_hypergraph::elements::ElementValue;
use ferret_hypergraph::errors::LinkPresent;
use ferret_hypergraph::traits::HypergraphClass;
use ferret_hypergraph::Direction;
use ferret_hypergraph::Hypergraph;
use ferret_hypergraph::HypergraphEnum;
use ferret_hypergraph::Main;
use ferret_hypergraph::Sub;

#[test]
fn it_works() {
    assert_eq!(2 + 2, 4);
}

#[test]
fn neighbor_iter_next() {}

#[test]
fn hypergraph_new() {
    Hypergraph::<(), ()>::new();
}

#[test]
fn hyper_graph_new() {
    Hypergraph::<(), ()>::new();
}

#[test]
fn class_main() {
    let h = Hypergraph::<u8, u8>::new();
    assert_eq!(h.class(), &Main);
    assert!(h.is_main());
    assert!(!h.is_sub());
}

#[test]
fn class_sub() {
    let h = Hypergraph::<u8, u8, u8, u8, Sub>::new();
    assert_eq!(h.class(), &Sub);
    assert!(h.is_sub());
    assert!(!h.is_main());
    assert!(Sub::new().is_sub());
    assert!(Main::new().is_main());
}

#[test]
fn direction_opposite() {
    assert_eq!(Direction::Outgoing.opposite(), Direction::Incoming);
    assert_eq!(Direction::Incoming.opposite(), Direction::Outgoing);
}

#[test]
fn element_type_cycle() {
    assert_eq!(ElementType::Edge.wrapping_next(), ElementType::Hypergraph);
    assert_eq!(ElementType::Hypergraph.wrapping_next(), ElementType::Link);
    assert_eq!(ElementType::Link.wrapping_next(), ElementType::Node);
    assert_eq!(ElementType::Node.wrapping_next(), ElementType::Edge);
}

#[test]
fn element_kinds() {
    let node: Element<u8, u8, u8, u8, Vec<usize>> = Element::Node { value: 1 };
    let link: Element<u8, u8, u8, u8, Vec<usize>> = Element::Link {
        source: vec![0],
        target: vec![1],
        value: None,
    };
    assert!(node.is_node() && !node.is_edge() && !node.is_link() && !node.is_hypergraph());
    assert!(link.is_link());
    assert_eq!(node.source(), None);
    assert_eq!(link.source(), Some(&vec![0]));
    assert_eq!(link.target(), Some(&vec![1]));
    assert_eq!(ElementType::from(link.clone()), ElementType::Link);
    assert_eq!(
        ElementLinkable::<u8, u8, u8>::try_from(link),
        Err(LinkPresent)
    );
    assert_eq!(
        ElementLinkable::<u8, u8, u8>::try_from(node),
        Ok(ElementLinkable::Node { value: 1 })
    );
    let back: Element<u8, u8, u8, u8, Vec<usize>> =
        Element::from(ElementLinkable::<u8, u8, u8>::Edge { value: 2 });
    assert_eq!(back, Element::Edge { value: 2 });
}

#[test]
fn element_ext_kinds() {
    let edge: ElementExt<u8, u8, u8, u8, Vec<usize>> = ElementExt::Edge {
        source: vec![0],
        target: vec![1],
        value: 7,
    };
    let graph: ElementExt<u8, u8, u8, u8, Vec<usize>> = ElementExt::Hypergraph { value: Some(3) };
    assert!(edge.is_edge() && !edge.is_node() && !edge.is_link() && !edge.is_hypergraph());
    assert!(graph.is_hypergraph());
    assert_eq!(edge.source(), Some(&vec![0]));
    assert_eq!(edge.target(), Some(&vec![1]));
    assert_eq!(graph.source(), None);
    assert_eq!(graph.target(), None);
    assert_eq!(edge.clone().into_source(), Some(vec![0]));
    assert_eq!(edge.clone().into_target(), Some(vec![1]));
    assert_eq!(graph.clone().into_source(), None);
    // the endpoints of a hyperedge are dropped when it becomes an element
    assert_eq!(Element::from(edge), Element::Edge { value: 7 });
}

#[test]
fn element_value_kinds() {
    let v: ElementValue<u8, u8, u8, u8> = ElementValue::Hypergraph { value: None };
    assert!(v.is_hypergraph() && !v.is_node() && !v.is_edge() && !v.is_link());
    assert_eq!(ElementType::from(v), ElementType::Hypergraph);
}

#[test]
fn hypergraph_enum() {
    let mut h = Hypergraph::<&str, &str, &str>::new();
    h.add_hypergraph(Some("sub"), &[]).unwrap();
    h.add_node("inner", &[0]).unwrap();
    let original = h.hypergraph(&[]).unwrap();
    assert!(original.is_original());
    assert!(!original.is_sub());
    assert!(original.contains(&[0, 0]));
    let sub = h.hypergraph(&[0]).unwrap();
    assert!(sub.is_sub());
    assert!(sub.contains(&[0]));
    assert!(!sub.contains(&[0, 0]));
    assert_eq!(sub.element_type(&[0]), Ok(ElementType::Node));
    assert!(sub.links_of(&[0]).unwrap().is_empty());
    let of = h.hypergraph_of(&[0, 0]).unwrap();
    assert!(of.is_sub());
    match of {
        HypergraphEnum::Sub(g) => assert_eq!(g.value(), &Some("sub")),
        HypergraphEnum::Original(_) => panic!("the element lies in the nested hypergraph"),
    }
}
