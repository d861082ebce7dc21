use algorithms::graphs::graph::Edge;
use algorithms::graphs::graph::Graph;
use algorithms::graphs::graph::Vertex;

#[test]
fn add_vertex() {
    let mut graph = Graph::<u32, u32>::new();
    graph.add_vertex(1, 10);
    graph.add_vertex(2, 20);
    graph.add_vertex(3, 30);
    graph.add_vertex(4, 40);
    graph.add_vertex(5, 50);

    assert_eq!(graph.get_vertex(&1).unwrap().get_value(), &10);
    assert_eq!(graph.get_vertex(&2).unwrap().get_value(), &20);
    assert_eq!(graph.get_vertex(&3).unwrap().get_value(), &30);
    assert_eq!(graph.get_vertex(&4).unwrap().get_value(), &40);
    assert_eq!(graph.get_vertex(&5).unwrap().get_value(), &50);
    assert!(graph.get_vertex(&6).is_none());
}

#[test]
fn add_edges() {
    let mut graph = Graph::<u32, u32>::new();
    graph.add_vertex(1, 10);
    graph.add_vertex(2, 20);
    graph.add_vertex(3, 30);
    graph.add_vertex(4, 40);

    assert!(graph.add_edge(1, 5, 0).is_none());
    assert!(graph.add_edge(7, 5, 0).is_none());
    assert!(graph.add_edge(5, 1, 0).is_none());
    assert!(graph.add_edge(1, 1, 0).is_none());
    assert!(graph.add_edge(1, 2, 10).is_some());
    assert!(graph.add_edge(2, 3, 20).is_some());

    assert_eq!(graph.edge_count(), 2);
    let edge1 = graph.get_edge(&1, &2);
    assert!(edge1.is_some());
    assert_eq!(edge1.unwrap().value, 10);
    assert_eq!(&edge1.unwrap().in_vertex, &1);
    assert_eq!(&edge1.unwrap().out_vertex, &2);

    let edge2 = graph.get_edge(&2, &1);
    assert!(edge2.is_some());
    assert_eq!(edge2.unwrap().value, 10);
    assert_eq!(&edge2.unwrap().in_vertex, &1);
    assert_eq!(&edge2.unwrap().out_vertex, &2);

    let edge3 = graph.get_edge(&2, &3);
    assert!(edge3.is_some());
    assert_eq!(edge3.unwrap().value, 20);
    assert_eq!(&edge3.unwrap().in_vertex, &2);
    assert_eq!(&edge3.unwrap().out_vertex, &3);

    assert!(graph.get_edge(&2, &1).is_some());
    assert!(graph.get_edge(&2, &3).is_some());
    assert!(graph.get_edge(&3, &2).is_some());
    assert!(graph.get_edge(&1, &3).is_none());
    assert!(graph.get_edge(&3, &1).is_none());
}

#[test]
fn vertex_and_edge_by_themselves() {
    let v = Vertex::new(7, "seven");
    assert_eq!(v.get_id(), &7);
    assert_eq!(v.get_value(), &"seven");
    let e = Edge::new(1, 2, 'x');
    assert_eq!(e.in_vertex, 1);
    assert_eq!(e.out_vertex, 2);
    assert_eq!(e.value, 'x');
}

#[test]
fn replacing_a_vertex_hands_back_the_old_one() {
    let mut graph = Graph::<u32, u32>::new();
    assert!(graph.add_vertex(1, 10).is_none());
    assert!(graph.add_vertex(2, 20).is_none());
    assert_eq!(graph.add_edge(1, 2, 5), Some(0));
    let old = graph.add_vertex(1, 11);
    assert_eq!(old.unwrap().get_value(), &10);
    assert_eq!(graph.get_vertex(&1).unwrap().get_value(), &11);
    // the new vertex starts without edges; the edge list and the other end stay
    assert!(graph.get_edge(&1, &2).is_none());
    assert!(graph.get_edge(&2, &1).is_some());
    assert_eq!(graph.edge_count(), 1);
    // a second edge between the same two takes the place of the first at both ends
    assert_eq!(graph.add_edge(2, 1, 6), Some(1));
    assert_eq!(graph.get_edge(&1, &2).unwrap().value, 6);
    assert_eq!(graph.get_edge(&2, &1).unwrap().value, 6);
    assert_eq!(graph.edge_count(), 2);
}
