use profile_router::graph::{Edge, ProximityGraph};
use profile_router::registry::{Aircraft, InitStatus, RouteError, RoutingState};
use profile_router::search::{find_shortest_path, is_consistent, Algorithm, SearchError};
use profile_router::service::{
    check_table, extract_table, get_edges, get_nearby_nodes, get_route, init_router,
    is_router_initialized, resolve, NearbyLocationQuery, RouteQuery,
};
use profile_router::waypoint::{generate, select, Candidate, Coordinate, Waypoint, WaypointSet};

fn place(k: i32) -> Coordinate {
    Coordinate { lat_micro: k * 1000, lon_micro: -k * 1000 }
}

fn points(n: usize) -> Vec<Waypoint> {
    let mut out = Vec::new();
    for i in 0..n {
        out.push(Waypoint { id: i, location: place(i as i32) });
    }
    out
}

fn set_of(table: Vec<Vec<u32>>) -> WaypointSet {
    WaypointSet::new(points(table.len()), table).unwrap()
}

/// Waypoints on a line, `gaps[i]` metres between waypoint i and i + 1.
fn line(gaps: &[u32]) -> Vec<Vec<u32>> {
    let n = gaps.len() + 1;
    let mut pos = vec![0u32; n];
    for i in 1..n {
        pos[i] = pos[i - 1] + gaps[i - 1];
    }
    let mut table = vec![vec![0u32; n]; n];
    for i in 0..n {
        for j in 0..n {
            table[i][j] = if pos[i] > pos[j] { pos[i] - pos[j] } else { pos[j] - pos[i] };
        }
    }
    table
}

fn sites(offsets: &[u32]) -> Vec<Candidate> {
    let mut out = Vec::new();
    for (i, o) in offsets.iter().enumerate() {
        out.push(Candidate { location: place(i as i32), offset: *o });
    }
    out
}

/// The cost of the cheapest walk by trying every simple walk.
fn brute(table: &Vec<Vec<u32>>, limit: u32, at: usize, to: usize, used: &mut Vec<bool>) -> Option<u64> {
    if at == to {
        return Some(0);
    }
    let mut best: Option<u64> = None;
    for next in 0..table.len() {
        if next != at && !used[next] && table[at][next] <= limit {
            used[next] = true;
            if let Some(rest) = brute(table, limit, next, to, used) {
                let total = rest + table[at][next] as u64;
                if best.map_or(true, |b| total < b) {
                    best = Some(total);
                }
            }
            used[next] = false;
        }
    }
    best
}

#[test]
fn generate_keeps_sites_within_radius() {
    let all = sites(&[10_000, 60_000, 50_000, 0, 50_001]);
    let out = generate(&all, 50_000, 5);
    assert_eq!(out.len(), 3);
    assert_eq!(out[0], Waypoint { id: 0, location: place(0) });
    assert_eq!(out[1], Waypoint { id: 1, location: place(2) });
    assert_eq!(out[2], Waypoint { id: 2, location: place(3) });
    assert_eq!(select(&all, 50_000, 5), vec![0, 2, 3]);
}

#[test]
fn generate_stops_at_capacity() {
    let all = sites(&[1, 2, 3, 4, 5]);
    let out = generate(&all, 10, 2);
    assert_eq!(out.len(), 2);
    assert_eq!(out[1], Waypoint { id: 1, location: place(1) });
    assert_eq!(select(&all, 10, 2), vec![0, 1]);
}

#[test]
fn generate_without_capacity_or_radius_is_empty() {
    let all = sites(&[0, 0, 0]);
    assert!(generate(&all, 10, 0).is_empty());
    assert!(generate(&all, 10, -4).is_empty());
    assert!(generate(&all, 0, 3).is_empty());
    assert!(generate(&Vec::new(), 10, 3).is_empty());
}

#[test]
fn waypoint_set_wants_dense_identifiers_and_a_square_table() {
    assert!(WaypointSet::new(points(2), line(&[5])).is_some());
    assert!(WaypointSet::new(points(2), line(&[5, 5])).is_none());
    assert!(WaypointSet::new(points(2), vec![vec![0, 1], vec![1]]).is_none());
    let mut odd = points(2);
    odd[1].id = 7;
    assert!(WaypointSet::new(odd, line(&[5])).is_none());
    let set = set_of(line(&[5, 6]));
    assert_eq!(set.len(), 3);
    assert_eq!(set.get(2), Some(Waypoint { id: 2, location: place(2) }));
    assert_eq!(set.get(3), None);
    assert_eq!(set.distance(0, 2), Some(11));
    assert_eq!(set.distance(0, 3), None);
    assert_eq!(set.list(), points(3));
}

#[test]
fn graph_has_an_edge_exactly_within_the_constraint() {
    let table = line(&[10, 20, 30]);
    let g = ProximityGraph::build(&set_of(table.clone()), 30);
    let edges = g.get_edges();
    for i in 0..4 {
        for j in 0..4 {
            let listed = edges.iter().filter(|e| e.from == i && e.to == j).count();
            let wanted = if i != j && table[i][j] <= 30 { 1 } else { 0 };
            assert_eq!(listed, wanted);
        }
    }
    for e in edges.iter() {
        assert!(e.from != e.to);
        assert_eq!(e.weight, table[e.from][e.to]);
    }
    assert_eq!(
        edges,
        vec![
            Edge { from: 0, to: 1, weight: 10 },
            Edge { from: 0, to: 2, weight: 30 },
            Edge { from: 1, to: 0, weight: 10 },
            Edge { from: 1, to: 2, weight: 20 },
            Edge { from: 2, to: 0, weight: 30 },
            Edge { from: 2, to: 1, weight: 20 },
            Edge { from: 2, to: 3, weight: 30 },
            Edge { from: 3, to: 2, weight: 30 },
        ]
    );
    assert_eq!(g.node_count(), 4);
}

#[test]
fn graph_of_nothing_is_empty() {
    let g = ProximityGraph::build(&set_of(Vec::new()), 100);
    assert_eq!(g.node_count(), 0);
    assert!(g.get_edges().is_empty());
    assert_eq!(
        find_shortest_path(&g, 0, 0, Algorithm::Dijkstra, None, None),
        Err(SearchError::UnknownWaypoint)
    );
}

#[test]
fn graph_with_a_tight_constraint_is_sparse() {
    let g = ProximityGraph::build(&set_of(line(&[10, 20])), 5);
    assert!(g.get_edges().is_empty());
    let g = ProximityGraph::build(&set_of(vec![vec![0, 0], vec![0, 0]]), 0);
    assert_eq!(g.get_edges().len(), 2);
}

#[test]
fn search_follows_the_chain() {
    let g = ProximityGraph::build(&set_of(line(&[20_000, 15_000, 25_000])), 25_000);
    assert_eq!(
        find_shortest_path(&g, 0, 3, Algorithm::Dijkstra, None, None),
        Ok((60_000, vec![0, 1, 2, 3]))
    );
    assert_eq!(
        find_shortest_path(&g, 3, 1, Algorithm::Dijkstra, None, None),
        Ok((40_000, vec![3, 2, 1]))
    );
}

#[test]
fn search_prefers_the_cheaper_detour() {
    let table = vec![
        vec![0, 4, 1, 9],
        vec![4, 0, 2, 5],
        vec![1, 2, 0, 8],
        vec![9, 5, 8, 0],
    ];
    let g = ProximityGraph::build(&set_of(table), 8);
    assert_eq!(find_shortest_path(&g, 0, 3, Algorithm::Dijkstra, None, None), Ok((8, vec![0, 2, 1, 3])));
    assert_eq!(find_shortest_path(&g, 0, 1, Algorithm::Dijkstra, None, None), Ok((3, vec![0, 2, 1])));
}

#[test]
fn search_from_a_waypoint_to_itself() {
    let g = ProximityGraph::build(&set_of(line(&[1, 1])), 1);
    assert_eq!(find_shortest_path(&g, 1, 1, Algorithm::Dijkstra, None, None), Ok((0, vec![1])));
    assert_eq!(find_shortest_path(&g, 1, 1, Algorithm::Dijkstra, None, Some(0)), Ok((0, vec![1])));
}

#[test]
fn search_rejects_unknown_waypoints() {
    let g = ProximityGraph::build(&set_of(line(&[1, 1])), 1);
    assert_eq!(
        find_shortest_path(&g, 3, 0, Algorithm::Dijkstra, None, None),
        Err(SearchError::UnknownWaypoint)
    );
    assert_eq!(
        find_shortest_path(&g, 0, 3, Algorithm::Dijkstra, None, None),
        Err(SearchError::UnknownWaypoint)
    );
}

#[test]
fn search_reports_a_missing_path() {
    let g = ProximityGraph::build(&set_of(line(&[10, 60, 10])), 25);
    assert_eq!(
        find_shortest_path(&g, 0, 3, Algorithm::Dijkstra, None, None),
        Err(SearchError::NoPathExists)
    );
    assert_eq!(find_shortest_path(&g, 0, 1, Algorithm::Dijkstra, None, None), Ok((10, vec![0, 1])));
}

#[test]
fn search_honours_the_limit() {
    let g = ProximityGraph::build(&set_of(line(&[10, 10, 10])), 10);
    assert_eq!(
        find_shortest_path(&g, 0, 3, Algorithm::Dijkstra, None, Some(29)),
        Err(SearchError::SearchLimitExceeded)
    );
    assert_eq!(
        find_shortest_path(&g, 0, 3, Algorithm::Dijkstra, None, Some(30)),
        Ok((30, vec![0, 1, 2, 3]))
    );
    let apart = ProximityGraph::build(&set_of(line(&[10, 60])), 25);
    assert_eq!(
        find_shortest_path(&apart, 0, 2, Algorithm::Dijkstra, None, Some(5)),
        Err(SearchError::NoPathExists)
    );
}

#[test]
fn search_cost_is_the_sum_of_the_hops_and_the_least() {
    let mut seed: u32 = 12345;
    for round in 0..40 {
        let n = 2 + round % 5;
        let mut table = vec![vec![0u32; n]; n];
        for i in 0..n {
            for j in 0..n {
                seed = seed.wrapping_mul(1664525).wrapping_add(1013904223);
                table[i][j] = if i == j { 0 } else { (seed >> 16) % 50 };
            }
        }
        let limit = 30;
        let g = ProximityGraph::build(&set_of(table.clone()), limit);
        for from in 0..n {
            for to in 0..n {
                let mut used = vec![false; n];
                used[from] = true;
                let least = brute(&table, limit, from, to, &mut used);
                let toward: Vec<u32> = (0..n).map(|v| table[v][to]).collect();
                let wild: Vec<u32> = (0..n).map(|v| (v as u32 * 37 + 11) % 90).collect();
                let plain = find_shortest_path(&g, from, to, Algorithm::Dijkstra, None, None);
                for h in [&toward, &wild] {
                    let guided = find_shortest_path(&g, from, to, Algorithm::AStar, Some(h), None);
                    assert_eq!(guided.clone().map(|f| f.0), plain.clone().map(|f| f.0));
                    let ignored =
                        find_shortest_path(&g, from, to, Algorithm::Dijkstra, Some(h), None);
                    assert_eq!(ignored, plain);
                }
                match find_shortest_path(&g, from, to, Algorithm::Dijkstra, None, None) {
                    Ok((cost, path)) => {
                        assert_eq!(Some(cost), least);
                        assert_eq!(path[0], from);
                        assert_eq!(path[path.len() - 1], to);
                        let mut sum: u64 = 0;
                        for k in 1..path.len() {
                            let w = table[path[k - 1]][path[k]];
                            assert!(path[k - 1] != path[k] && w <= limit);
                            sum += w as u64;
                        }
                        assert_eq!(sum, cost);
                    }
                    Err(e) => {
                        assert_eq!(e, SearchError::NoPathExists);
                        assert_eq!(least, None);
                    }
                }
            }
        }
    }
}

#[test]
fn search_handles_the_longest_hops() {
    let far = u32::MAX;
    let g = ProximityGraph::build(&set_of(line(&[far / 2, far / 2])), far);
    assert_eq!(
        find_shortest_path(&g, 0, 2, Algorithm::Dijkstra, None, None),
        Ok(((far - 1) as u64, vec![0, 2]))
    );
    let table = vec![vec![0, far, far], vec![far, 0, far], vec![far, far, 0]];
    let g = ProximityGraph::build(&set_of(table), far);
    assert_eq!(find_shortest_path(&g, 0, 2, Algorithm::Dijkstra, None, None), Ok((far as u64, vec![0, 2])));
}

#[test]
fn router_needs_waypoints() {
    let mut state = RoutingState::new();
    assert_eq!(state.ensure_initialized(Aircraft::ArrowXl), InitStatus::NodesNotReady);
    assert!(!state.is_initialized(Aircraft::ArrowXl));
    state.replace_waypoints(set_of(Vec::new()));
    assert_eq!(state.ensure_initialized(Aircraft::ArrowCargo), InitStatus::NodesNotReady);
    assert_eq!(init_router(&mut state, Aircraft::ArrowInterstate), InitStatus::NodesNotReady);
}

#[test]
fn router_is_built_once() {
    let mut state = RoutingState::new();
    state.replace_waypoints(set_of(line(&[20_000, 30_000])));
    assert_eq!(state.ensure_initialized(Aircraft::ArrowXl), InitStatus::Initialized);
    let first = state.get_edges(Aircraft::ArrowXl).unwrap();
    assert_eq!(state.ensure_initialized(Aircraft::ArrowXl), InitStatus::AlreadyInitialized);
    let second = state.get_edges(Aircraft::ArrowXl).unwrap();
    assert_eq!(first, second);
    assert_eq!(
        first,
        vec![Edge { from: 0, to: 1, weight: 20_000 }, Edge { from: 1, to: 0, weight: 20_000 }]
    );
    assert!(state.is_initialized(Aircraft::ArrowXl));
    assert!(!state.is_initialized(Aircraft::ArrowCargo));
    assert_eq!(state.get_edges(Aircraft::ArrowCargo), Err(RouteError::NotInitialized));
}

#[test]
fn routers_differ_by_constraint() {
    let mut state = RoutingState::new();
    state.replace_waypoints(set_of(line(&[20_000, 70_000, 90_000])));
    assert_eq!(Aircraft::ArrowXl.constraint(), 25_000);
    assert_eq!(Aircraft::ArrowCargo.constraint(), 75_000);
    assert_eq!(Aircraft::ArrowInterstate.constraint(), 100_000);
    for a in [Aircraft::ArrowXl, Aircraft::ArrowCargo, Aircraft::ArrowInterstate] {
        assert_eq!(state.ensure_initialized(a), InitStatus::Initialized);
    }
    assert_eq!(state.get_edges(Aircraft::ArrowXl).unwrap().len(), 2);
    assert_eq!(state.get_edges(Aircraft::ArrowCargo).unwrap().len(), 4);
    assert_eq!(state.get_edges(Aircraft::ArrowInterstate).unwrap().len(), 8);
    assert_eq!(
        state.find_path(Aircraft::ArrowXl, 0, 3),
        Err(RouteError::Search(SearchError::NoPathExists))
    );
    assert_eq!(
        state.find_path(Aircraft::ArrowCargo, 0, 3),
        Err(RouteError::Search(SearchError::NoPathExists))
    );
    assert_eq!(state.find_path(Aircraft::ArrowInterstate, 0, 3), Ok((180_000, vec![0, 2, 3])));
    assert_eq!(state.find_path(Aircraft::ArrowCargo, 0, 2), Ok((90_000, vec![0, 1, 2])));
    assert_eq!(
        state.find_path(Aircraft::ArrowInterstate, 0, 4),
        Err(RouteError::Search(SearchError::UnknownWaypoint))
    );
}

#[test]
fn replacing_waypoints_drops_every_router() {
    let mut state = RoutingState::new();
    state.replace_waypoints(set_of(line(&[20_000, 20_000])));
    state.ensure_initialized(Aircraft::ArrowXl);
    state.ensure_initialized(Aircraft::ArrowCargo);
    assert_eq!(state.find_path(Aircraft::ArrowXl, 0, 2), Ok((40_000, vec![0, 1, 2])));
    state.replace_waypoints(set_of(line(&[10])));
    for a in [Aircraft::ArrowXl, Aircraft::ArrowCargo, Aircraft::ArrowInterstate] {
        assert!(!state.is_initialized(a));
        assert!(!is_router_initialized(&state, a));
        assert_eq!(state.find_path(a, 0, 1), Err(RouteError::NotInitialized));
        assert_eq!(get_edges(&state, a), Err(RouteError::NotInitialized));
    }
    assert_eq!(state.ensure_initialized(Aircraft::ArrowXl), InitStatus::Initialized);
    assert_eq!(state.find_path(Aircraft::ArrowXl, 0, 1), Ok((10, vec![0, 1])));
    state.clear();
    assert!(!state.is_initialized(Aircraft::ArrowXl));
    assert_eq!(state.ensure_initialized(Aircraft::ArrowXl), InitStatus::NodesNotReady);
}

#[test]
fn five_waypoints_with_a_gap_have_no_route() {
    // w0 and w3 are 60 km apart and nothing bridges the gap.
    let table = vec![
        vec![0, 10_000, 12_000, 60_000, 58_000],
        vec![10_000, 0, 8_000, 52_000, 50_000],
        vec![12_000, 8_000, 0, 48_000, 46_000],
        vec![60_000, 52_000, 48_000, 0, 5_000],
        vec![58_000, 50_000, 46_000, 5_000, 0],
    ];
    let all = sites(&[0, 10_000, 12_000, 49_000, 47_000]);
    let query = NearbyLocationQuery { location: place(0), radius: 50_000, capacity: 5 };
    let mut state = RoutingState::new();
    let nodes = get_nearby_nodes(&mut state, &query, &all, &table).unwrap();
    assert_eq!(nodes.len(), 5);
    assert_eq!(init_router(&mut state, Aircraft::ArrowXl), InitStatus::Initialized);
    assert_eq!(
        state.find_path(Aircraft::ArrowXl, 0, 3),
        Err(RouteError::Search(SearchError::NoPathExists))
    );
    let route = RouteQuery { aircraft: Aircraft::ArrowXl, from: nodes[0], to: nodes[3] };
    assert_eq!(get_route(&state, &route), Err(RouteError::Search(SearchError::NoPathExists)));
}

#[test]
fn five_waypoints_with_a_chain_have_a_route() {
    // w0 -> w1 -> w3 with hops of 20 km and 24 km; w0 to w3 directly is 40 km.
    let table = vec![
        vec![0, 20_000, 45_000, 40_000, 48_000],
        vec![20_000, 0, 30_000, 24_000, 35_000],
        vec![45_000, 30_000, 0, 26_000, 27_000],
        vec![40_000, 24_000, 26_000, 0, 28_000],
        vec![48_000, 35_000, 27_000, 28_000, 0],
    ];
    let all = sites(&[5_000, 20_000, 45_000, 40_000, 48_000]);
    let query = NearbyLocationQuery { location: place(0), radius: 50_000, capacity: 5 };
    let mut state = RoutingState::new();
    let nodes = get_nearby_nodes(&mut state, &query, &all, &table).unwrap();
    assert_eq!(init_router(&mut state, Aircraft::ArrowXl), InitStatus::Initialized);
    assert_eq!(state.find_path(Aircraft::ArrowXl, 0, 3), Ok((44_000, vec![0, 1, 3])));
    let route = RouteQuery { aircraft: Aircraft::ArrowXl, from: nodes[0], to: nodes[3] };
    assert_eq!(get_route(&state, &route), Ok(vec![place(0), place(1), place(3)]));
}

#[test]
fn nearby_nodes_take_their_distances_from_the_table() {
    let table = vec![
        vec![0, 1, 2, 3],
        vec![1, 0, 4, 5],
        vec![2, 4, 0, 6],
        vec![3, 5, 6, 0],
    ];
    let all = sites(&[10, 99, 10, 10]);
    let query = NearbyLocationQuery { location: place(0), radius: 50, capacity: 2 };
    let mut state = RoutingState::new();
    state.replace_waypoints(set_of(line(&[1])));
    state.ensure_initialized(Aircraft::ArrowXl);
    let nodes = get_nearby_nodes(&mut state, &query, &all, &table).unwrap();
    assert_eq!(
        nodes,
        vec![Waypoint { id: 0, location: place(0) }, Waypoint { id: 1, location: place(2) }]
    );
    assert!(!is_router_initialized(&state, Aircraft::ArrowXl));
    assert_eq!(init_router(&mut state, Aircraft::ArrowXl), InitStatus::Initialized);
    assert_eq!(
        get_edges(&state, Aircraft::ArrowXl),
        Ok(vec![Edge { from: 0, to: 1, weight: 2 }, Edge { from: 1, to: 0, weight: 2 }])
    );
    assert_eq!(extract_table(&table, &vec![3, 1]), vec![vec![0, 5], vec![5, 0]]);
}

#[test]
fn nearby_nodes_with_a_ragged_table_leave_nothing() {
    let all = sites(&[1, 2]);
    let query = NearbyLocationQuery { location: place(0), radius: 50, capacity: 2 };
    let mut state = RoutingState::new();
    state.replace_waypoints(set_of(line(&[1])));
    state.ensure_initialized(Aircraft::ArrowXl);
    assert_eq!(get_nearby_nodes(&mut state, &query, &all, &vec![vec![0, 1], vec![1]]), None);
    assert!(!is_router_initialized(&state, Aircraft::ArrowXl));
    assert_eq!(init_router(&mut state, Aircraft::ArrowXl), InitStatus::NodesNotReady);
    assert!(check_table(2, &vec![vec![0, 1], vec![1, 0]]));
    assert!(!check_table(2, &vec![vec![0, 1]]));
    assert!(!check_table(1, &vec![vec![0, 1]]));
}

#[test]
fn route_wants_known_waypoints_and_a_router() {
    let mut state = RoutingState::new();
    state.replace_waypoints(set_of(line(&[50_000, 50_000])));
    let known = |i: usize| Waypoint { id: i, location: place(i as i32) };
    let query = RouteQuery { aircraft: Aircraft::ArrowCargo, from: known(0), to: known(2) };
    assert_eq!(get_route(&state, &query), Err(RouteError::NotInitialized));
    init_router(&mut state, Aircraft::ArrowCargo);
    assert_eq!(get_route(&state, &query), Ok(vec![place(0), place(1), place(2)]));
    let moved = RouteQuery {
        aircraft: Aircraft::ArrowCargo,
        from: known(0),
        to: Waypoint { id: 2, location: place(9) },
    };
    assert_eq!(get_route(&state, &moved), Err(RouteError::Search(SearchError::UnknownWaypoint)));
    let beyond = RouteQuery { aircraft: Aircraft::ArrowCargo, from: known(3), to: known(0) };
    assert_eq!(get_route(&state, &beyond), Err(RouteError::Search(SearchError::UnknownWaypoint)));
    let same = RouteQuery { aircraft: Aircraft::ArrowCargo, from: known(1), to: known(1) };
    assert_eq!(get_route(&state, &same), Ok(vec![place(1)]));
    let set = set_of(line(&[10, 10]));
    assert_eq!(resolve(&set, &vec![2, 0]), vec![place(2), place(0)]);
}

#[test]
fn estimates_guide_the_search_where_they_are_consistent() {
    let table = line(&[10, 10, 10, 10]);
    let g = ProximityGraph::build(&set_of(table.clone()), 10);
    let toward: Vec<u32> = (0..5).map(|v| table[v][4]).collect();
    assert!(is_consistent(&g, &toward));
    assert!(is_consistent(&g, &vec![0, 0, 0, 0, 0]));
    assert!(is_consistent(&g, &vec![5, 15, 5, 15, 5]));
    assert!(!is_consistent(&g, &vec![5, 16, 5, 15, 5]));
    assert!(!is_consistent(&g, &vec![0, 0, 0, 0]));
    assert!(!is_consistent(&g, &vec![0, 0, 0, 0, 0, 0]));
    assert_eq!(
        find_shortest_path(&g, 0, 4, Algorithm::AStar, Some(&toward), None),
        Ok((40, vec![0, 1, 2, 3, 4]))
    );
    assert_eq!(
        find_shortest_path(&g, 0, 4, Algorithm::AStar, Some(&vec![900, 0, 900, 0, 900]), None),
        Ok((40, vec![0, 1, 2, 3, 4]))
    );
    assert_eq!(
        find_shortest_path(&g, 0, 4, Algorithm::AStar, None, Some(39)),
        Err(SearchError::SearchLimitExceeded)
    );
    assert_eq!(
        find_shortest_path(&g, 2, 2, Algorithm::AStar, Some(&toward), None),
        Ok((0, vec![2]))
    );
    assert_eq!(
        find_shortest_path(&g, 0, 5, Algorithm::AStar, Some(&toward), None),
        Err(SearchError::UnknownWaypoint)
    );
}

#[test]
fn estimates_lead_past_a_dead_end() {
    // Waypoint 1 is near the start but leads nowhere; the estimates say so.
    let table = vec![
        vec![0, 1, 5, 9],
        vec![1, 0, 9, 9],
        vec![5, 9, 0, 5],
        vec![9, 9, 5, 0],
    ];
    let g = ProximityGraph::build(&set_of(table), 5);
    let h = vec![10, 11, 5, 0];
    assert!(is_consistent(&g, &h));
    assert_eq!(
        find_shortest_path(&g, 0, 3, Algorithm::AStar, Some(&h), None),
        Ok((10, vec![0, 2, 3]))
    );
    assert_eq!(
        find_shortest_path(&g, 0, 3, Algorithm::Dijkstra, None, None),
        Ok((10, vec![0, 2, 3]))
    );
}
