use ferret_hypergraph::walkers::IdWalk;
use ferret_hypergraph::walkers::NeighborWalk;
use ferret_hypergraph::walkers::WalkIds;
use ferret_hypergraph::walkers::WalkNeighbors;
use ferret_hypergraph::Direction;
use ferret_hypergraph::Hypergraph;

fn five() -> Hypergraph<&'static str, &'static str, &'static str, &'static str> {
    let mut h = Hypergraph::new();
    h.add_node("zero", &[]).unwrap();
    h.add_node("one", &[]).unwrap();
    h.add_edge(&[0], &[1], "two", &[]).unwrap();
    h.add_link(&[0], &[2], Some("three"), &[]).unwrap();
    h.add_hypergraph(Some("six"), &[]).unwrap();
    h
}

#[test]
fn id_walk_next() {
    let h = five();
    let mut id_walk = IdWalk::new(Some(vec![]));

    assert_eq!(id_walk.next(&h).unwrap(), vec![]);

    for i in 0..7 {
        assert_eq!(id_walk.next(&h).unwrap(), vec![i]);
    }
    assert_eq!(id_walk.next(&h), None);
}

#[test]
fn walk_ids_walk_next() {
    let h = five();
    let mut id_walk = WalkIds::new();

    assert_eq!(id_walk.walk_next(&h).unwrap(), vec![]);

    for i in 0..7 {
        assert_eq!(id_walk.walk_next(&h).unwrap(), vec![i]);
    }
    assert_eq!(id_walk.walk_next(&h), None);
}

#[test]
fn neighbor_walk_next() {
    let mut h = five();
    let mut neighbor_walk = NeighborWalk::new(Direction::Outgoing, 0, &[0]);

    assert_eq!(neighbor_walk.next(&h).unwrap(), &vec![2]);
    assert_eq!(neighbor_walk.next(&h).unwrap(), &vec![2]);
    assert_eq!(neighbor_walk.next(&h), None);
    h.add_link(&[0], &[2], Some("three"), &[]).unwrap();
    assert_eq!(neighbor_walk.next(&h).unwrap(), &vec![2]);
}

#[test]
fn walk_neighbors_walk_next() {
    let mut h = five();
    let mut neighbor_walk = WalkNeighbors::new(Direction::Outgoing, &[0]);

    assert_eq!(neighbor_walk.walk_next(&h).unwrap(), &vec![2]);
    assert_eq!(neighbor_walk.walk_next(&h).unwrap(), &vec![2]);
    assert_eq!(neighbor_walk.walk_next(&h), None);
    h.add_link(&[0], &[2], Some("three"), &[]).unwrap();
    assert_eq!(neighbor_walk.walk_next(&h).unwrap(), &vec![2]);
}

#[test]
fn a_walk_over_ids_survives_removals() {
    let mut h = five();
    let mut walk = WalkIds::new();
    assert_eq!(walk.walk_next(&h), Some(vec![]));
    assert_eq!(walk.walk_next(&h), Some(vec![0]));
    // the walk stands at [1]; the hyperedge goes with its links
    h.remove(&[2]).unwrap();
    assert_eq!(walk.walk_next(&h), Some(vec![1]));
    // it had moved on to [2], which is gone: the next element is [6]
    assert_eq!(walk.walk_next(&h), Some(vec![6]));
    assert_eq!(walk.walk_next(&h), None);
    assert_eq!(walk.walk_next(&h), None);
}

#[test]
fn a_walk_over_ids_goes_into_nested_hypergraphs_first() {
    let mut h = Hypergraph::<&str, &str, &str>::new();
    h.add_hypergraph(Some("a"), &[]).unwrap();
    h.add_node("x", &[0]).unwrap();
    h.add_hypergraph(Some("b"), &[0]).unwrap();
    h.add_node("y", &[0, 1]).unwrap();
    h.add_node("z", &[]).unwrap();
    let mut walk = WalkIds::new_from(Some(vec![0]));
    let mut seen = Vec::new();
    while let Some(id) = walk.walk_next(&h) {
        seen.push(id);
    }
    assert_eq!(
        seen,
        vec![vec![0], vec![0, 0], vec![0, 1], vec![0, 1, 0], vec![1]]
    );
    assert_eq!(h.ids()[1..], seen[..]);
    // a walk that starts at a path that names nothing goes on behind it
    let mut walk = IdWalk::new(Some(vec![0, 0, 5]));
    assert_eq!(walk.next(&h), Some(vec![0, 1]));
    let mut walk = IdWalk::new(None);
    assert_eq!(walk.next(&h), None);
}

#[test]
fn incoming_neighbors() {
    let h = five();
    let mut walk = WalkNeighbors::new(Direction::Incoming, &[2]);
    assert_eq!(walk.walk_next(&h), Some(&vec![0]));
    assert_eq!(walk.walk_next(&h), Some(&vec![0]));
    assert_eq!(walk.walk_next(&h), None);
    assert_eq!(
        h.neighbors_directed(&[2], Direction::Incoming),
        vec![vec![0], vec![0]]
    );
    assert_eq!(
        h.neighbors_directed(&[1], Direction::Incoming),
        vec![vec![2]]
    );
    assert_eq!(h.neighbors(&[1]), Vec::<Vec<usize>>::new());
    // a walk that starts behind the first link
    let mut walk = WalkNeighbors::new_from(Direction::Incoming, 1, &[2]);
    assert_eq!(walk.walk_next(&h), Some(&vec![0]));
    assert_eq!(walk.walk_next(&h), None);
    // a walk from something that has no links
    let mut walk = WalkNeighbors::new(Direction::Outgoing, &[3]);
    assert_eq!(walk.walk_next(&h), None);
    let mut walk = NeighborWalk::new(Direction::Outgoing, 0, &[9]);
    assert_eq!(walk.next(&h), None);
}

#[test]
fn reading_twice_gives_the_same() {
    let mut h = five();
    h.add_node("inner", &[6]).unwrap();
    let first: Vec<_> = h.ids().iter().map(|p| h.element_value(p).unwrap()).collect();
    let second: Vec<_> = h.ids().iter().map(|p| h.element_value(p).unwrap()).collect();
    assert_eq!(first, second);
    assert_eq!(first.len(), 9);
}

#[test]
fn id_iter_next() {
    let h = five();
    let mut walk = IdWalk::new(Some(vec![]));
    let mut seen = Vec::new();
    while let Some(id) = walk.next(&h) {
        seen.push(id);
    }
    assert_eq!(
        seen,
        vec![
            vec![],
            vec![0],
            vec![1],
            vec![2],
            vec![3],
            vec![4],
            vec![5],
            vec![6]
        ]
    );
}
