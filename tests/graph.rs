use yakumo::ford_fulkerson::{Edge, Graph as FlowGraph};
use yakumo::scc::{SccGraph, TwoSat};

#[test]
fn test_scc() {
    let mut graph = SccGraph::new(6);
    graph.add_edge(1, 4);
    graph.add_edge(5, 2);
    graph.add_edge(3, 0);
    graph.add_edge(5, 5);
    graph.add_edge(4, 1);
    graph.add_edge(0, 3);
    graph.add_edge(4, 2);
    assert_eq!(graph.scc(), vec![vec![5], vec![1, 4], vec![2], vec![0, 3]]);
}

#[test]
fn scc_of_a_cycle_and_isolated_vertices() {
    let mut graph = SccGraph::new(5);
    graph.add_edge(0, 1);
    graph.add_edge(1, 2);
    graph.add_edge(2, 0);
    let groups = graph.scc();
    assert_eq!(groups.len(), 3);
    let mut all: Vec<usize> = groups.concat();
    all.sort();
    assert_eq!(all, vec![0, 1, 2, 3, 4]);
    assert!(groups.iter().any(|g| g.len() == 3));
}

#[test]
fn test_two_sat() {
    let mut two_sat = TwoSat::new(3);
    two_sat.add_clause(0, true, 1, false);
    two_sat.add_clause(1, true, 2, true);
    two_sat.add_clause(2, false, 0, false);
    assert!(two_sat.satisfiable());
    assert_eq!(two_sat.answer(), Ok(vec![true, true, false]));
}

#[test]
fn two_sat_contradiction() {
    let mut two_sat = TwoSat::new(1);
    two_sat.add_clause(0, true, 0, true);
    two_sat.add_clause(0, false, 0, false);
    assert!(!two_sat.satisfiable());
    assert_eq!(two_sat.answer(), Err("No solution"));
}

#[test]
fn test_dijkstra() {
    let mut graph = yakumo::dijkstra::Graph::new(5);
    graph.add_edge(0, 2, 10);
    graph.add_edge(0, 1, 1);
    graph.add_edge(1, 3, 2);
    graph.add_edge(2, 1, 1);
    graph.add_edge(2, 3, 3);
    graph.add_edge(2, 4, 1);
    graph.add_edge(3, 0, 7);
    graph.add_edge(3, 4, 2);

    let res = graph.dijkstra(0);
    assert_eq!(res, vec![Some(0), Some(1), Some(10), Some(3), Some(5)]);
    let res = graph.dijkstra(4);
    assert_eq!(res, vec![None, None, None, None, Some(0)]);
}

#[test]
fn dijkstra_prefers_cheaper_longer_path() {
    let mut graph = yakumo::dijkstra::Graph::new(4);
    graph.add_edge(0, 3, 100);
    graph.add_edge(0, 1, 1);
    graph.add_edge(1, 2, 1);
    graph.add_edge(2, 3, 1);
    graph.add_edge(3, 3, 0);
    assert_eq!(graph.dijkstra(0), vec![Some(0), Some(1), Some(2), Some(3)]);
    assert_eq!(graph.dijkstra(2), vec![None, None, Some(0), Some(1)]);
}

#[test]
fn test_ford_fulkerson() {
    let mut graph = FlowGraph::new(5);
    graph.add_edge(3, 0, 10);
    graph.add_edge(3, 1, 2);
    graph.add_edge(0, 1, 6);
    graph.add_edge(0, 2, 6);
    graph.add_edge(2, 1, 3);
    graph.add_edge(2, 4, 8);
    graph.add_edge(1, 4, 5);
    assert_eq!(graph.ford_fulkerson(3, 4), 11);
    assert_eq!(
        graph.edges(),
        vec![
            Edge {
                from: 3,
                to: 0,
                cap: 10,
                flow: 10
            },
            Edge {
                from: 3,
                to: 1,
                cap: 2,
                flow: 1
            },
            Edge {
                from: 0,
                to: 1,
                cap: 6,
                flow: 4
            },
            Edge {
                from: 0,
                to: 2,
                cap: 6,
                flow: 6
            },
            Edge {
                from: 2,
                to: 1,
                cap: 3,
                flow: 0
            },
            Edge {
                from: 2,
                to: 4,
                cap: 8,
                flow: 6
            },
            Edge {
                from: 1,
                to: 4,
                cap: 5,
                flow: 5
            },
        ]
    )
}

#[test]
fn ford_fulkerson_with_no_path_and_a_loop() {
    let mut graph = FlowGraph::new(3);
    graph.add_edge(0, 1, 4);
    graph.add_edge(1, 1, 7);
    assert_eq!(graph.ford_fulkerson(0, 2), 0);
    let edges = graph.edges();
    assert_eq!(edges[0], Edge { from: 0, to: 1, cap: 4, flow: 0 });
    assert_eq!(edges[1].cap, 14);
    assert_eq!(edges[1].flow, 7);
}
