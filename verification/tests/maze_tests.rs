use maze_graph::coord::Coord;
use maze_graph::graph::{
    create_vertices, find_boundary_vertices, populate_vertex_neighbors, reduce_vertex_count, Graph,
    Vertex,
};
use maze_graph::pathfinding::{calculate_cost, solve_graph, PathfindingAlgorithm};

fn solve(g: &Graph<Coord>, algo: PathfindingAlgorithm) -> Option<Vec<usize>> {
    solve_graph(g, &algo)
}

#[test]
fn all_walls_sampler_empty_and_no_paths() {
    // A raster with zero open cells yields an empty vertex list, and every
    // strategy reports no path on the empty graph.
    let cells: Vec<u8> = vec![0; 9];
    let vertices = create_vertices(&cells, 3, 3);
    assert_eq!(vertices.len(), 0);
    let g: Graph<Coord> = Graph { start: 0, end: 0, vertices };
    assert!(solve(&g, PathfindingAlgorithm::BreadthFirst).is_none());
    assert!(solve(&g, PathfindingAlgorithm::DepthFirst).is_none());
    assert!(solve(&g, PathfindingAlgorithm::Dijkstra).is_none());
    assert!(Graph::from_raster(&cells, 3, 3).is_none());
}

#[test]
fn sampler_row_major_order() {
    // open cells at flat indices 1, 3, 4 of a 3x2 raster
    let cells: Vec<u8> = vec![0, 255, 0, 7, 1, 0];
    let vertices = create_vertices(&cells, 3, 2);
    assert_eq!(vertices.len(), 3);
    assert_eq!((vertices[0].pos.x, vertices[0].pos.y), (1, 0));
    assert_eq!((vertices[1].pos.x, vertices[1].pos.y), (0, 1));
    assert_eq!((vertices[2].pos.x, vertices[2].pos.y), (1, 1));
    for v in &vertices {
        assert!(v.get_neighbors().is_empty());
    }
}

#[test]
fn adjacency_edges_symmetric() {
    // a plus-shaped set of open cells in a 3x3 raster
    let cells: Vec<u8> = vec![0, 1, 0, 1, 1, 1, 0, 1, 0];
    let mut vertices = create_vertices(&cells, 3, 3);
    populate_vertex_neighbors(&mut vertices);
    // center is vertex 2 at (1,1) with all four edges
    assert_eq!(vertices[2].get_neighbors().len(), 4);
    for i in 0..vertices.len() {
        for &(j, w) in vertices[i].get_neighbors() {
            assert_eq!(w, 1);
            assert!(
                vertices[j].get_neighbors().iter().any(|&(k, wk)| k == i && wk == w),
                "edge {i}->{j} has no mirror"
            );
        }
    }
}

#[test]
fn corridor_collapses_to_single_weighted_edge() {
    // a 5x5 raster whose open cells form one straight single-cell corridor
    // across the middle row; its two ends sit on the perimeter
    let mut cells: Vec<u8> = vec![0; 25];
    for x in 0..5 {
        cells[2 * 5 + x] = 255;
    }
    let mut vertices = create_vertices(&cells, 5, 5);
    populate_vertex_neighbors(&mut vertices);
    reduce_vertex_count(&mut vertices);
    // only the two endpoints keep edges: one edge each, weight = cells - 1
    assert_eq!(vertices[0].get_neighbors(), &vec![(4usize, 4u64)]);
    assert_eq!(vertices[4].get_neighbors(), &vec![(0usize, 4u64)]);
    for mid in 1..4 {
        assert!(vertices[mid].get_neighbors().is_empty());
    }
    let boundary = find_boundary_vertices(&vertices, 5, 5);
    assert_eq!(boundary, vec![0, 4]);
}

#[test]
fn reducer_is_idempotent_on_reduced_graph() {
    let mut cells: Vec<u8> = vec![0; 25];
    for x in 0..5 {
        cells[2 * 5 + x] = 255;
    }
    let mut vertices = create_vertices(&cells, 5, 5);
    populate_vertex_neighbors(&mut vertices);
    reduce_vertex_count(&mut vertices);
    let snapshot: Vec<Vec<(usize, u64)>> =
        vertices.iter().map(|v| v.get_neighbors().clone()).collect();
    reduce_vertex_count(&mut vertices);
    let again: Vec<Vec<(usize, u64)>> =
        vertices.iter().map(|v| v.get_neighbors().clone()).collect();
    assert_eq!(snapshot, again);
}

#[test]
fn corridor_maze_solved_by_all_strategies() {
    let mut cells: Vec<u8> = vec![0; 25];
    for x in 0..5 {
        cells[2 * 5 + x] = 255;
    }
    let g = Graph::from_raster(&cells, 5, 5).expect("two boundary cells");
    assert_eq!(g.start, 0);
    assert_eq!(g.end, 4);
    for algo in [
        PathfindingAlgorithm::BreadthFirst,
        PathfindingAlgorithm::DepthFirst,
        PathfindingAlgorithm::Dijkstra,
    ] {
        let p = solve(&g, algo).expect("path exists");
        assert_eq!(p.first(), Some(&g.start));
        assert_eq!(p.last(), Some(&g.end));
        assert_eq!(calculate_cost(&g, &p), 4);
    }
}

#[test]
fn disconnected_endpoints_no_path_found() {
    // open cells only at (0,0) and (0, height-1), separated by a wall row
    let cells: Vec<u8> = vec![1, 0, 1];
    let g = Graph::from_raster(&cells, 1, 3).expect("two boundary cells");
    assert!(solve(&g, PathfindingAlgorithm::BreadthFirst).is_none());
    assert!(solve(&g, PathfindingAlgorithm::Dijkstra).is_none());
    assert!(solve(&g, PathfindingAlgorithm::DepthFirst).is_none());
}

#[test]
fn open_block_with_two_perimeter_openings() {
    // a 3x3 open block in the middle of a 5x5 raster, with one opening on
    // the top edge at (1,0) and one on the bottom edge at (3,4)
    let mut cells: Vec<u8> = vec![0; 25];
    for y in 1..4 {
        for x in 1..4 {
            cells[y * 5 + x] = 255;
        }
    }
    cells[1] = 255; // (1,0)
    cells[4 * 5 + 3] = 255; // (3,4)
    let vertices = {
        let mut vs = create_vertices(&cells, 5, 5);
        populate_vertex_neighbors(&mut vs);
        reduce_vertex_count(&mut vs);
        vs
    };
    let boundary = find_boundary_vertices(&vertices, 5, 5);
    assert_eq!(boundary.len(), 2);
    let g = Graph::from_raster(&cells, 5, 5).expect("two boundary cells");
    // entry, 1 step into the block, Manhattan distance 4 across it, 1 step out
    let bfs = solve(&g, PathfindingAlgorithm::BreadthFirst).expect("path exists");
    let dfs = solve(&g, PathfindingAlgorithm::DepthFirst).expect("path exists");
    let dij = solve(&g, PathfindingAlgorithm::Dijkstra).expect("path exists");
    for p in [&bfs, &dfs, &dij] {
        assert_eq!(p.first(), Some(&g.start));
        assert_eq!(p.last(), Some(&g.end));
    }
    assert_eq!(calculate_cost(&g, &bfs), 6);
    assert_eq!(calculate_cost(&g, &dij), 6);
    assert!(calculate_cost(&g, &dij) <= calculate_cost(&g, &dfs));
}

fn diamond_graph() -> Graph<Coord> {
    // 0 -> {2, 1}; the depth-first strategy pops the last-listed neighbor
    // first, so it walks the long way 0-1-4-3 while breadth-first and the
    // weighted search find 0-2-3.
    let v = |x: u32, y: u32, nbrs: Vec<(usize, u64)>| Vertex {
        pos: Coord { x, y },
        neighbors: nbrs,
    };
    Graph {
        start: 0,
        end: 3,
        vertices: vec![
            v(0, 0, vec![(2, 1), (1, 1)]),
            v(0, 1, vec![(0, 1), (4, 1)]),
            v(1, 0, vec![(0, 1), (3, 1)]),
            v(2, 0, vec![(2, 1), (4, 1)]),
            v(0, 2, vec![(1, 1), (3, 1)]),
        ],
    }
}

#[test]
fn breadth_first_no_longer_than_depth_first() {
    let g = diamond_graph();
    let bfs = solve(&g, PathfindingAlgorithm::BreadthFirst).expect("path");
    let dfs = solve(&g, PathfindingAlgorithm::DepthFirst).expect("path");
    assert!(bfs.len() <= dfs.len());
    assert_eq!(bfs.len(), 3);
    assert_eq!(dfs.len(), 4);
}

#[test]
fn weighted_search_cost_minimal_among_strategies() {
    let g = diamond_graph();
    let bfs = solve(&g, PathfindingAlgorithm::BreadthFirst).expect("path");
    let dfs = solve(&g, PathfindingAlgorithm::DepthFirst).expect("path");
    let dij = solve(&g, PathfindingAlgorithm::Dijkstra).expect("path");
    let cd = calculate_cost(&g, &dij);
    assert!(cd <= calculate_cost(&g, &bfs));
    assert!(cd <= calculate_cost(&g, &dfs));
    assert_eq!(cd, 2);
}

#[test]
fn cost_of_missing_edge_is_zero() {
    let g = diamond_graph();
    // 0 and 3 share no stored edge, so that pair contributes nothing
    let fake = vec![0usize, 3usize];
    assert_eq!(calculate_cost(&g, &fake), 0);
    let half = vec![0usize, 1usize, 3usize];
    assert_eq!(calculate_cost(&g, &half), 1);
}

#[test]
fn start_equals_end_single_vertex_path() {
    let mut g = diamond_graph();
    g.end = 0;
    for algo in [
        PathfindingAlgorithm::BreadthFirst,
        PathfindingAlgorithm::DepthFirst,
        PathfindingAlgorithm::Dijkstra,
    ] {
        let p = solve(&g, algo).expect("trivial path");
        assert_eq!(p, vec![0]);
    }
}
