use ferret_hypergraph::elements::ElementValue;
use ferret_hypergraph::errors::NoEdge;
use ferret_hypergraph::errors::NoElement;
use ferret_hypergraph::errors::NoHypergraph;
use ferret_hypergraph::errors::NoLink;
use ferret_hypergraph::errors::NoNode;
use ferret_hypergraph::errors::RemoveError;
use ferret_hypergraph::Direction;
use ferret_hypergraph::Hypergraph;

#[test]
fn remove() {
    let mut h = Hypergraph::new();
    h.add_node("zero", &[]).unwrap();
    h.add_node("one", &[]).unwrap();
    h.add_edge(&[0], &[1], "two", &[]).unwrap();
    h.add_link(&[0], &[2], Some("five"), &[]).unwrap();
    h.add_hypergraph(Some("six"), &[]).unwrap();

    println!("{:#?}", h);
    assert_eq!(
        h.remove(&[5]),
        Ok(ElementValue::Link {
            value: Some("five")
        })
    );

    assert_eq!(h.remove(&[2]), Ok(ElementValue::Edge { value: "two" }));

    assert_eq!(h.remove(&[0]), Ok(ElementValue::Node { value: "zero" }));
    println!("{:#?}", h);
    assert_eq!(
        h.remove(&[6]),
        Ok(ElementValue::Hypergraph { value: Some("six") })
    );

    assert_eq!(h.ids(), vec![vec![], vec![1]]);
}

fn sample() -> Hypergraph<&'static str, &'static str, &'static str, &'static str> {
    let mut h = Hypergraph::new();
    assert_eq!(h.add_node("zero", &[]), Ok(vec![0]));
    assert_eq!(h.add_node("one", &[]), Ok(vec![1]));
    assert_eq!(h.add_edge(&[0], &[1], "two", &[]), Ok(vec![2]));
    h
}

#[test]
fn removing_an_anchor_link_removes_the_hyperedge() {
    let mut h = sample();
    assert_eq!(h.remove(&[3]), Ok(ElementValue::Link { value: None }));
    assert!(!h.contains(&[2]));
    assert!(!h.contains(&[3]));
    assert!(!h.contains(&[4]));
    assert_eq!(h.ids(), vec![vec![], vec![0], vec![1]]);
    assert!(h.links_of(&[0]).unwrap().is_empty());
    assert!(h.links_of(&[1]).unwrap().is_empty());
}

#[test]
fn a_hyperedge_with_a_third_link_survives_the_loss_of_one() {
    let mut h = sample();
    assert_eq!(h.add_link(&[0], &[2], Some("x"), &[]), Ok(vec![5]));
    assert_eq!(h.remove_link(&[3]), Ok(None));
    assert!(h.contains_edge(&[2]));
    assert_eq!(
        h.links_of(&[2]).unwrap(),
        &vec![(vec![4], Direction::Outgoing), (vec![5], Direction::Incoming)]
    );
    assert_eq!(h.links_of(&[0]).unwrap(), &vec![(vec![5], Direction::Outgoing)]);
    assert_eq!(h.remove_link(&[5]), Ok(Some("x")));
    assert_eq!(h.ids(), vec![vec![], vec![0], vec![1]]);
}

#[test]
fn removing_a_hypergraph_removes_what_it_holds() {
    let mut h = Hypergraph::<&str, &str, &str, &str>::new();
    h.add_node("zero", &[]).unwrap();
    h.add_node("one", &[]).unwrap();
    h.add_node("two", &[]).unwrap();
    assert_eq!(h.add_hypergraph(Some("sub"), &[]), Ok(vec![3]));
    assert_eq!(h.add_node("inner", &[3]), Ok(vec![3, 0]));
    assert_eq!(h.remove(&[3]), Ok(ElementValue::Hypergraph { value: Some("sub") }));
    assert!(!h.contains(&[3]));
    assert!(!h.contains(&[3, 0]));
    for id in h.ids() {
        assert!(id.first() != Some(&3));
    }
    assert_eq!(h.ids(), vec![vec![], vec![0], vec![1], vec![2]]);
}

#[test]
fn removal_inside_a_hypergraph_reaches_links_outside() {
    let mut h = sample();
    assert_eq!(h.add_hypergraph(Some("sub"), &[]), Ok(vec![5]));
    assert_eq!(h.add_node("inner", &[5]), Ok(vec![5, 0]));
    assert_eq!(h.add_node("other", &[5]), Ok(vec![5, 1]));
    assert_eq!(h.add_edge(&[5, 0], &[5, 1], "in", &[5]), Ok(vec![5, 2]));
    assert_eq!(h.add_edge(&[0], &[5, 0], "across", &[]), Ok(vec![6]));
    assert_eq!(h.add_link(&[6], &[5], None, &[]), Ok(vec![9]));
    assert_eq!(h.remove_subhypergraph(&[5]), Ok(Some("sub")));
    // the hyperedge [6] lost two of its three links and went as well
    assert_eq!(
        h.ids(),
        vec![vec![], vec![0], vec![1], vec![2], vec![3], vec![4]]
    );
    assert_eq!(h.links_of(&[0]).unwrap(), &vec![(vec![3], Direction::Outgoing)]);
}

#[test]
fn a_hyperedge_from_a_node_to_itself() {
    let mut h = Hypergraph::<&str, &str>::new();
    h.add_node("zero", &[]).unwrap();
    assert_eq!(h.add_edge(&[0], &[0], "loop", &[]), Ok(vec![1]));
    assert_eq!(
        h.links_of(&[0]).unwrap(),
        &vec![(vec![2], Direction::Outgoing), (vec![3], Direction::Incoming)]
    );
    assert_eq!(h.remove_node(&[0]), Ok("zero"));
    assert_eq!(h.ids(), vec![Vec::<usize>::new()]);
}

#[test]
fn remove_errors() {
    let mut h = sample();
    assert_eq!(h.remove(&[9]), Err(RemoveError::NoElement(NoElement(vec![9]))));
    assert_eq!(h.remove(&[]), Err(RemoveError::NoHypergraph(NoHypergraph(vec![]))));
    assert_eq!(h.remove_node(&[2]), Err(RemoveError::NoNode(NoNode(vec![2]))));
    assert_eq!(h.remove_edge(&[0]), Err(RemoveError::NoEdge(NoEdge(vec![0]))));
    assert_eq!(h.remove_link(&[0]), Err(RemoveError::NoLink(NoLink(vec![0]))));
    assert_eq!(
        h.remove_subhypergraph(&[0]),
        Err(RemoveError::NoHypergraph(NoHypergraph(vec![0])))
    );
    assert_eq!(
        h.ids(),
        vec![vec![], vec![0], vec![1], vec![2], vec![3], vec![4]]
    );
}
