use graph_store::graph::{Edge, Graph, GraphError, HashStrategy};

#[derive(Debug, PartialEq)]
struct Payload(i32);

impl Edge for Payload {}

#[test]
fn test_undirected() {
    let mut g: Graph<()> = Graph::new(false);
    g.add_edge_list(vec![((0, 1), ()), ((1, 2), ()), ((2, 3), ()), ((3, 1), ())]);
    assert_eq!(g.find_edge((0, 1)), Some(&()));
    assert_eq!(g.find_edge((1, 2)), Some(&()));
    assert_eq!(g.find_edge((2, 3)), Some(&()));
    assert_eq!(g.find_edge((3, 1)), Some(&()));
    assert_eq!(g.find_edge((1, 0)), Some(&()));
    assert_eq!(g.find_edge((2, 1)), Some(&()));
    assert_eq!(g.find_edge((3, 2)), Some(&()));
    assert_eq!(g.find_edge((1, 3)), Some(&()));
    assert_eq!(g.find_edge((0, 2)), None);
    assert_eq!(g.find_edge((2, 0)), None);
    assert_eq!(g.find_edge((0, 3)), None);
    assert_eq!(g.find_edge((3, 0)), None);
    assert_eq!(g.find_edge((3, 4)), None);
    assert_eq!(g.find_edge((4, 3)), None);
    assert_eq!(g.find_edge((4, 5)), None);
}

#[test]
fn test_directed() {
    let mut g: Graph<()> = Graph::new(true);
    g.add_edge_list(vec![((0, 1), ()), ((1, 2), ()), ((2, 3), ()), ((3, 1), ())]);
    assert_eq!(g.find_edge((0, 1)), Some(&()));
    assert_eq!(g.find_edge((1, 2)), Some(&()));
    assert_eq!(g.find_edge((2, 3)), Some(&()));
    assert_eq!(g.find_edge((3, 1)), Some(&()));
    assert_eq!(g.find_edge((1, 0)), None);
    assert_eq!(g.find_edge((2, 1)), None);
    assert_eq!(g.find_edge((3, 2)), None);
    assert_eq!(g.find_edge((1, 3)), None);
    assert_eq!(g.find_edge((0, 2)), None);
    assert_eq!(g.find_edge((2, 0)), None);
    assert_eq!(g.find_edge((0, 3)), None);
    assert_eq!(g.find_edge((3, 0)), None);
    assert_eq!(g.find_edge((3, 4)), None);
    assert_eq!(g.find_edge((4, 3)), None);
    assert_eq!(g.find_edge((4, 5)), None);
}

#[test]
fn test_search() {
    let mut g: Graph<()> = Graph::new(true);
    g.add_edge_list(vec![((0, 1), ())]);
}

fn collect<E: Edge>(mut t: graph_store::graph::Traverse<E>) -> Vec<u64> {
    let mut out = Vec::new();
    while let Some(v) = t.next() {
        out.push(v);
    }
    out
}

#[test]
fn undirected_symmetric_payload() {
    let mut g: Graph<Payload> = Graph::new(false);
    assert_eq!(g.add_edge((0, 1), Payload(7)), Ok(()));
    assert_eq!(g.find_edge((0, 1)), Some(&Payload(7)));
    assert_eq!(g.find_edge((1, 0)), Some(&Payload(7)));
}

#[test]
fn duplicate_insert_keeps_first() {
    let mut g: Graph<Payload> = Graph::new(false);
    assert_eq!(g.add_edge((0, 1), Payload(1)), Ok(()));
    assert_eq!(g.add_edge((1, 0), Payload(2)), Ok(()));
    assert_eq!(g.find_edge((0, 1)), Some(&Payload(1)));
    assert_eq!(g.find_edge((1, 0)), Some(&Payload(1)));
}

#[test]
fn directed_reverse_needs_own_insert() {
    let mut g: Graph<Payload> = Graph::new(true);
    assert_eq!(g.add_edge((0, 1), Payload(1)), Ok(()));
    assert_eq!(g.find_edge((1, 0)), None);
    assert_eq!(g.add_edge((1, 0), Payload(2)), Ok(()));
    assert_eq!(g.find_edge((0, 1)), Some(&Payload(1)));
    assert_eq!(g.find_edge((1, 0)), Some(&Payload(2)));
}

#[test]
fn self_loop_rejected_without_side_effects() {
    let mut g: Graph<()> = Graph::new(false);
    assert_eq!(g.add_edge((5, 5), ()), Err(GraphError::InvalidEdge));
    assert_eq!(g.find_edge((5, 5)), None);
    // the rejected call must not have registered the endpoint
    assert!(g.bfs(5).is_err());
    let mut d: Graph<()> = Graph::new(true);
    assert_eq!(d.add_edge((0, 0), ()), Err(GraphError::InvalidEdge));
}

#[test]
fn traversal_from_unknown_vertex_fails() {
    let g: Graph<()> = Graph::new(false);
    assert!(matches!(g.bfs(0), Err(GraphError::VertexNotFound)));
    assert!(matches!(g.dfs(0), Err(GraphError::VertexNotFound)));
}

#[test]
fn bfs_visits_reachable_exactly_once() {
    let mut g: Graph<()> = Graph::new(false);
    g.add_edge_list(vec![((0, 1), ()), ((1, 2), ()), ((2, 3), ()), ((3, 1), ())]);
    let order = collect(g.bfs(0).unwrap());
    assert_eq!(order[0], 0);
    let mut sorted = order.clone();
    sorted.sort();
    assert_eq!(sorted, vec![0, 1, 2, 3]);
}

#[test]
fn dfs_visits_reachable_exactly_once() {
    let mut g: Graph<()> = Graph::new(false);
    g.add_edge_list(vec![((0, 1), ()), ((1, 2), ()), ((2, 3), ()), ((3, 1), ())]);
    let order = collect(g.dfs(2).unwrap());
    assert_eq!(order[0], 2);
    let mut sorted = order.clone();
    sorted.sort();
    assert_eq!(sorted, vec![0, 1, 2, 3]);
}

#[test]
fn traversal_stops_at_directed_reach() {
    let mut g: Graph<()> = Graph::new(true);
    g.add_edge_list(vec![((0, 1), ()), ((2, 3), ())]);
    let mut sorted = collect(g.bfs(0).unwrap());
    sorted.sort();
    assert_eq!(sorted, vec![0, 1]);
}

#[test]
fn bfs_and_dfs_pop_disciplines_differ() {
    let mut g: Graph<()> = Graph::new(true);
    g.add_edge_list(vec![((0, 1), ()), ((0, 2), ())]);
    // breadth-first pops the earliest discovered vertex, depth-first the latest
    assert_eq!(collect(g.bfs(0).unwrap()), vec![0, 1, 2]);
    assert_eq!(collect(g.dfs(0).unwrap()), vec![0, 2, 1]);
}

#[test]
fn traversal_of_isolated_vertex() {
    let mut g: Graph<()> = Graph::new(false);
    g.add_vertex(7);
    let mut t = g.dfs(7).unwrap();
    assert!(t.has_next());
    assert_eq!(t.next(), Some(7));
    assert!(!t.has_next());
    assert_eq!(t.next(), None);
}

#[test]
fn find_path_directed() {
    let mut g: Graph<()> = Graph::new(true);
    g.add_edge_list(vec![((0, 1), ()), ((1, 2), ()), ((2, 3), ()), ((3, 1), ())]);
    assert_eq!(g.find_edge((1, 0)), None);
    let p = g.find_path(0, 3).expect("3 is reachable from 0");
    assert_eq!(p, vec![3, 2, 1]);
    // the source is excluded and no vertex repeats, despite the 3 -> 1 cycle
    assert!(!p.contains(&0));
    assert_eq!(p[0], 3);
    // consecutive pairs, read towards the target, are stored edges
    let mut full = p.clone();
    full.push(0);
    for w in full.windows(2) {
        assert!(g.find_edge((w[1], w[0])).is_some());
    }
    // 0 has no incoming edges, so nothing leads back to it
    assert_eq!(g.find_path(3, 0), None);
}

#[test]
fn find_path_undirected_and_trivial() {
    let mut g: Graph<()> = Graph::new(false);
    g.add_edge_list(vec![((0, 1), ()), ((1, 2), ())]);
    g.add_vertex(9);
    assert_eq!(g.find_path(0, 0), Some(vec![]));
    let p = g.find_path(0, 2).expect("2 is reachable from 0");
    assert_eq!(p[0], 2);
    let mut full = p.clone();
    full.push(0);
    for w in full.windows(2) {
        assert!(g.find_edge((w[1], w[0])).is_some());
    }
    assert_eq!(g.find_path(0, 9), None);
}

#[test]
fn default_weight_is_one() {
    assert_eq!(().weight(), 1);
    assert_eq!(Payload(3).weight(), 1);
}

#[test]
fn hash_strategy_does_not_change_behaviour() {
    let mut g: Graph<()> = Graph::new_with_hasher(false, HashStrategy::Seeded(42));
    assert_eq!(g.add_edge((1, 2), ()), Ok(()));
    assert_eq!(g.find_edge((2, 1)), Some(&()));
    let mut h: Graph<()> = Graph::new_with_hasher(true, HashStrategy::Standard);
    assert_eq!(h.add_edge((1, 2), ()), Ok(()));
    assert_eq!(h.find_edge((2, 1)), None);
}
