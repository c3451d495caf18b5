use algs::graphs::bfs::BreadthFirstSearch;
use algs::graphs::cc::ConnectedComponents;
use algs::graphs::dfs::DepthFirstSearch;
use algs::graphs::Graph;

/// Sample graph from the book (page 529).
fn sample_graph() -> Graph {
    let mut g = Graph::new(13);
    g.add_edge(0, 5);
    g.add_edge(4, 3);
    g.add_edge(0, 1);
    g.add_edge(9, 12);
    g.add_edge(6, 4);
    g.add_edge(5, 4);
    g.add_edge(0, 2);
    g.add_edge(11, 12);
    g.add_edge(9, 10);
    g.add_edge(0, 6);
    g.add_edge(7, 8);
    g.add_edge(9, 11);
    g.add_edge(5, 3);
    g
}

#[test]
fn empty_graph() {
    let g = Graph::new(0);
    assert_eq!(0, g.v);
    assert_eq!(0, g.e);
}

#[test]
fn no_edges() {
    let g = Graph::new(5);
    assert_eq!(5, g.v);
    assert_eq!(0, g.e);
}

#[test]
fn sample() {
    let g = sample_graph();
    assert_eq!(13, g.v);
    assert_eq!(13, g.e);
}

#[test]
fn bfs_s() {
    let g = sample_graph();
    let d = BreadthFirstSearch::new(&g, 7);
    assert_eq!(7, d.s);
}

#[test]
fn bfs_marked() {
    let g = sample_graph();
    let d = BreadthFirstSearch::new(&g, 7);
    assert_eq!(
        vec![
            false, false, false, false, false, false, false, true, true, false, false, false,
            false
        ],
        d.marked
    );
}

#[test]
fn bfs_edge_to() {
    let g = sample_graph();
    let d = BreadthFirstSearch::new(&g, 0);
    assert_eq!(0, d.edge_to[1]);
    assert_eq!(0, d.edge_to[2]);
    assert!(d.edge_to[3] == 5);
    assert!(d.edge_to[4] == 5 || d.edge_to[4] == 6);
    assert!(d.edge_to[5] == 0);
    assert!(d.edge_to[6] == 0);
}

#[test]
fn bfs_path_to() {
    let g = sample_graph();
    let d = BreadthFirstSearch::new(&g, 0);
    assert_eq!(vec![0, 1], d.path_to(1));
    assert_eq!(vec![0, 2], d.path_to(2));
    let p3 = d.path_to(3);
    assert!(p3 == vec![0, 5, 3]);
}

#[test]
fn dfs_s() {
    let g = sample_graph();
    let d = DepthFirstSearch::new(&g, 7);
    assert_eq!(7, d.s);
}

#[test]
fn dfs_marked() {
    let g = sample_graph();
    let d = DepthFirstSearch::new(&g, 7);
    assert_eq!(
        vec![
            false, false, false, false, false, false, false, true, true, false, false, false,
            false
        ],
        d.marked
    );
}

#[test]
fn dfs_edge_to() {
    let g = sample_graph();
    let d = DepthFirstSearch::new(&g, 0);
    assert_eq!(0, d.edge_to[1]);
    assert_eq!(0, d.edge_to[2]);
    assert!(d.edge_to[3] == 4 || d.edge_to[3] == 5);
    assert!(d.edge_to[4] == 3 || d.edge_to[4] == 5 || d.edge_to[4] == 6);
    assert!(d.edge_to[5] == 0 || d.edge_to[5] == 3 || d.edge_to[5] == 4);
    assert!(d.edge_to[6] == 0 || d.edge_to[6] == 4);
}

#[test]
fn dfs_path_to() {
    let g = sample_graph();
    let d = DepthFirstSearch::new(&g, 0);
    assert_eq!(vec![0, 1], d.path_to(1));
    assert_eq!(vec![0, 2], d.path_to(2));
    let p3 = d.path_to(3);
    assert!(p3 == vec![0, 5, 3] || p3 == vec![0, 5, 4, 3] || p3 == vec![0, 6, 4, 3]);
}

#[test]
fn works_with_no_edges() {
    let g = Graph::new(3);
    let cc = ConnectedComponents::find(&g);
    assert_eq!(3, cc.count);
    assert!(!cc.connected(0, 1));
    assert!(!cc.connected(0, 2));
    assert!(!cc.connected(1, 2));
}

#[test]
fn works_for_complete_graph() {
    let mut g = Graph::new(3);
    g.add_edge(0, 1);
    g.add_edge(0, 2);
    g.add_edge(1, 2);
    let cc = ConnectedComponents::find(&g);
    assert_eq!(1, cc.count);
    assert!(cc.connected(0, 1));
    assert!(cc.connected(0, 2));
    assert!(cc.connected(1, 2));
}

#[test]
fn works_for_sample_graph() {
    let g = sample_graph();
    let cc = ConnectedComponents::find(&g);
    assert_eq!(3, cc.count);
    assert!(cc.connected(1, 3));
    assert!(cc.connected(10, 12));
    assert!(!cc.connected(1, 12));
}
