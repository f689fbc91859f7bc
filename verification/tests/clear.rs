use ferret_hypergraph::elements::ElementValue;
use ferret_hypergraph::errors::FindError;
use ferret_hypergraph::Direction;
use ferret_hypergraph::Hypergraph;

fn sample() -> Hypergraph<&'static str, &'static str, &'static str, &'static str> {
    let mut h = Hypergraph::new();
    h.set_value(Some("root"));
    h.add_node("zero", &[]).unwrap();
    h.add_node("one", &[]).unwrap();
    h.add_edge(&[0], &[1], "two", &[]).unwrap();
    h.add_hypergraph(Some("five"), &[]).unwrap();
    h.add_node("inner", &[5]).unwrap();
    h.add_node("other", &[5]).unwrap();
    h.add_edge(&[5, 0], &[5, 1], "in", &[5]).unwrap();
    h.add_link(&[2], &[5, 0], Some("across"), &[]).unwrap();
    h
}

#[test]
fn clear() {
    let mut h = sample();
    h.clear();
    assert_eq!(h.ids(), vec![Vec::<usize>::new()]);
    assert_eq!(h.value(), &Some("root"));
    // local ids are not used again
    assert_eq!(h.next_local_id(), 7);
    assert_eq!(h.add_node("again", &[]), Ok(vec![7]));
    assert!(h.is_consistent());
}

#[test]
fn clear_nodes() {
    let mut h = sample();
    h.clear_nodes();
    // the nodes [0] and [1] went, and with them the hyperedge [2] and its links
    assert_eq!(
        h.ids(),
        vec![
            vec![],
            vec![5],
            vec![5, 0],
            vec![5, 1],
            vec![5, 2],
            vec![5, 3],
            vec![5, 4]
        ]
    );
    assert_eq!(
        h.links_of(&[5, 0]).unwrap(),
        &vec![(vec![5, 3], Direction::Outgoing)]
    );
    assert!(h.is_consistent());
}

#[test]
fn clear_edges() {
    let mut h = sample();
    h.clear_edges();
    assert_eq!(
        h.ids(),
        vec![
            vec![],
            vec![0],
            vec![1],
            vec![5],
            vec![5, 0],
            vec![5, 1],
            vec![5, 2],
            vec![5, 3],
            vec![5, 4]
        ]
    );
    assert!(h.links_of(&[0]).unwrap().is_empty());
    assert!(h.is_consistent());
}

#[test]
fn clear_links() {
    let mut h = sample();
    h.clear_links();
    // without its links the hyperedge [2] cannot stay
    assert_eq!(
        h.ids(),
        vec![
            vec![],
            vec![0],
            vec![1],
            vec![5],
            vec![5, 0],
            vec![5, 1],
            vec![5, 2],
            vec![5, 3],
            vec![5, 4]
        ]
    );
    assert!(h.is_consistent());
}

#[test]
fn clear_hypergraphs() {
    let mut h = sample();
    h.clear_hypergraphs();
    // the link from [2] into [5] went with [5]; the hyperedge keeps two links
    assert_eq!(
        h.ids(),
        vec![vec![], vec![0], vec![1], vec![2], vec![3], vec![4]]
    );
    assert_eq!(
        h.links_of(&[2]).unwrap(),
        &vec![(vec![3], Direction::Incoming), (vec![4], Direction::Outgoing)]
    );
    assert!(h.is_consistent());
}

#[test]
fn remove_element_by_value() {
    let mut h = sample();
    assert_eq!(
        h.remove_element_by_value(ElementValue::Node { value: &"inner" }),
        Ok(())
    );
    assert!(!h.contains(&[5, 0]));
    // the hyperedge inside lost its source, and the link from outside its target
    assert_eq!(
        h.ids(),
        vec![vec![], vec![0], vec![1], vec![2], vec![3], vec![4], vec![5], vec![5, 1]]
    );
    assert_eq!(
        h.remove_element_by_value(ElementValue::Node { value: &"inner" }),
        Err(FindError::NoNode)
    );
    assert_eq!(
        h.remove_element_by_value(ElementValue::Link { value: None }),
        Ok(())
    );
    assert_eq!(h.ids(), vec![vec![], vec![0], vec![1], vec![5], vec![5, 1]]);
    // the root is found first, and the root cannot go
    assert_eq!(
        h.remove_element_by_value(ElementValue::Hypergraph { value: Some(&"root") }),
        Err(FindError::NoHypergraph)
    );
    assert_eq!(
        h.remove_element_by_value(ElementValue::Hypergraph { value: Some(&"five") }),
        Ok(())
    );
    assert_eq!(h.ids(), vec![vec![], vec![0], vec![1]]);
    assert_eq!(
        h.remove_element_by_value(ElementValue::Edge { value: &"two" }),
        Err(FindError::NoEdge)
    );
}
