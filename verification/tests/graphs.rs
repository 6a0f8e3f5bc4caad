use kyopro::graphs::{DicGraph, GridGraph, Walker};

#[test]
fn walker_queue_and_visits() {
    let mut w = Walker::new();
    assert!(w.go_next(1));
    assert!(w.go_next(2));
    assert!(!w.go_next(1));
    assert!(w.go_later(3));
    assert!(w.is_visited(3));
    assert_eq!(w.next(), Some(2));
    assert_eq!(w.next(), Some(1));
    assert!(w.forget(1));
    assert!(!w.is_visited(1));
    assert!(!w.forget(1));
    assert!(w.go_next(1));
    assert_eq!(w.next(), Some(1));
    assert_eq!(w.next(), Some(3));
    assert_eq!(w.next(), None);
}

#[test]
fn grid_dimensions() {
    let g = GridGraph::new(2, 3, vec![vec!['.'; 3]; 2]);
    assert_eq!((g.rows(), g.columns()), (2, 3));
    assert!(g.valid_vertex((1, 2)));
    assert!(!g.valid_vertex((2, 0)));
    assert!(!g.valid_vertex((0, 3)));
}

#[test]
fn dic_graph_edges() {
    let mut g = DicGraph::new();
    assert_eq!((g.n(), g.m()), (0, 0));
    let a = g.add_arc(1, 2, 5);
    let (b, c) = g.add_edge(2, 3, 7);
    assert_eq!((a, b, c), (0, 1, 2));
    assert_eq!((g.n(), g.m()), (3, 3));
    assert_eq!(g.edges_from(2), vec![1]);
    assert_eq!(g.edges_from(3), vec![2]);
    assert_eq!(g.adjacent_vertices(1), vec![2]);
    assert_eq!(g.adjacent_vertices(3), vec![2]);
    assert_eq!(g.adjacent_vertices(9), Vec::<u64>::new());
    assert_eq!(g.reverse_edge(0), None);
    assert_eq!(g.reverse_edge(1), Some(2));
    assert_eq!(g.edge(2).from, 3);
    assert_eq!(g.edge(2).weight, 7);
}

#[test]
fn bfs_distances() {
    let mut g = DicGraph::new();
    g.add_arc(1, 2, 0);
    g.add_arc(2, 3, 0);
    g.add_arc(1, 3, 0);
    g.add_arc(3, 4, 0);
    g.add_arc(5, 1, 0);
    g.add_edge(4, 6, 0);
    let d = g.shortest_path_bfs(1);
    assert_eq!(d.len(), 5);
    assert_eq!(d[&1], 0);
    assert_eq!(d[&2], 1);
    assert_eq!(d[&3], 1);
    assert_eq!(d[&4], 2);
    assert_eq!(d[&6], 3);
    assert!(!d.contains_key(&5));
    let lone = g.shortest_path_bfs(42);
    assert_eq!(lone.len(), 1);
    assert_eq!(lone[&42], 0);
}
