use stara::MazeError;
use stara::MazeSolver;

/// Reference flood-fill: BFS distances (edge counts) from `from` over
/// orthogonal passable moves; `None` where unreachable or impassable.
fn bfs_distances(grid: &[Vec<u8>], from: (usize, usize)) -> Vec<Vec<Option<usize>>> {
    let h = grid.len();
    let w = if h > 0 { grid[0].len() } else { 0 };
    let mut dist: Vec<Vec<Option<usize>>> = vec![vec![None; w]; h];
    if from.0 >= h || from.1 >= w || grid[from.0][from.1] != 1 {
        return dist;
    }
    dist[from.0][from.1] = Some(0);
    let mut queue = std::collections::VecDeque::new();
    queue.push_back(from);
    while let Some((r, c)) = queue.pop_front() {
        let d = dist[r][c].unwrap();
        let mut neighbors = Vec::new();
        if c + 1 < w {
            neighbors.push((r, c + 1));
        }
        if r + 1 < h {
            neighbors.push((r + 1, c));
        }
        if c > 0 {
            neighbors.push((r, c - 1));
        }
        if r > 0 {
            neighbors.push((r - 1, c));
        }
        for (nr, nc) in neighbors {
            if grid[nr][nc] == 1 && dist[nr][nc].is_none() {
                dist[nr][nc] = Some(d + 1);
                queue.push_back((nr, nc));
            }
        }
    }
    dist
}

fn loaded(grid: &[Vec<u8>]) -> MazeSolver {
    let mut s = MazeSolver::new();
    s.load(grid.to_vec()).unwrap();
    s
}

fn assert_valid_path(grid: &[Vec<u8>], path: &[(usize, usize)], start: (usize, usize), goal: (usize, usize)) {
    assert!(!path.is_empty());
    assert_eq!(path[0], start);
    assert_eq!(*path.last().unwrap(), goal);
    for &(r, c) in path {
        assert!(r < grid.len() && c < grid[0].len(), "cell out of bounds");
        assert_eq!(grid[r][c], 1, "cell not passable");
    }
    for pair in path.windows(2) {
        let (a, b) = (pair[0], pair[1]);
        let dr = a.0.abs_diff(b.0);
        let dc = a.1.abs_diff(b.1);
        assert_eq!(dr + dc, 1, "cells not orthogonally adjacent");
    }
}

fn sample_grids() -> Vec<Vec<Vec<u8>>> {
    vec![
        vec![vec![1, 1, 1], vec![0, 1, 0], vec![1, 1, 1]],
        vec![vec![1, 0], vec![0, 1]],
        vec![vec![1]],
        vec![vec![1, 1, 1, 1, 1]],
        vec![
            vec![1, 1, 0, 1, 1],
            vec![0, 1, 0, 1, 0],
            vec![1, 1, 1, 1, 1],
            vec![1, 0, 0, 0, 1],
            vec![1, 1, 1, 0, 1],
        ],
        vec![vec![0, 0], vec![0, 0]],
        vec![vec![1, 0, 1], vec![1, 0, 1], vec![1, 0, 1]],
    ]
}

#[test]
fn corridor_grid_has_length_five_path() {
    let grid = vec![vec![1, 1, 1], vec![0, 1, 0], vec![1, 1, 1]];
    let mut s = loaded(&grid);
    let path = s.search((0, 0), (2, 2)).unwrap();
    assert_eq!(path.len(), 5);
    assert_valid_path(&grid, &path, (0, 0), (2, 2));
}

#[test]
fn walled_grid_is_unreachable() {
    let grid = vec![vec![1, 0], vec![0, 1]];
    let mut s = loaded(&grid);
    let path = s.search((0, 0), (1, 1)).unwrap();
    assert!(path.is_empty());
}

#[test]
fn fresh_solver_has_no_bounds() {
    let s = MazeSolver::new();
    assert!(!s.in_bounds((0, 0)));
    assert!(!s.is_passable((0, 0)));
}

#[test]
fn search_before_load_is_not_loaded() {
    let mut s = MazeSolver::new();
    assert_eq!(s.search((0, 0), (0, 0)), Err(MazeError::NotLoaded));
}

#[test]
fn start_equals_goal_is_single_cell() {
    let grid = vec![vec![1, 1], vec![1, 1]];
    let mut s = loaded(&grid);
    assert_eq!(s.search((1, 0), (1, 0)).unwrap(), vec![(1, 0)]);
}

#[test]
fn impassable_start_or_goal_is_empty() {
    let grid = vec![vec![1, 0], vec![1, 1]];
    let mut s = loaded(&grid);
    assert!(s.search((0, 1), (1, 1)).unwrap().is_empty());
    assert!(s.search((0, 0), (0, 1)).unwrap().is_empty());
}

#[test]
fn out_of_bounds_start_or_goal_is_empty() {
    let grid = vec![vec![1, 1], vec![1, 1]];
    let mut s = loaded(&grid);
    assert!(s.search((2, 0), (1, 1)).unwrap().is_empty());
    assert!(s.search((0, 0), (0, 2)).unwrap().is_empty());
}

#[test]
fn empty_grid_is_invalid() {
    let mut s = MazeSolver::new();
    assert_eq!(s.load(vec![]), Err(MazeError::InvalidGrid));
}

#[test]
fn jagged_grid_is_invalid() {
    let mut s = MazeSolver::new();
    assert_eq!(
        s.load(vec![vec![1, 1], vec![1]]),
        Err(MazeError::InvalidGrid)
    );
}

#[test]
fn out_of_range_cell_value_is_invalid() {
    let mut s = MazeSolver::new();
    assert_eq!(
        s.load(vec![vec![1, 1], vec![1, 2]]),
        Err(MazeError::InvalidGrid)
    );
}

#[test]
fn failed_load_keeps_previous_grid() {
    let grid = vec![vec![1, 1], vec![0, 1]];
    let mut s = loaded(&grid);
    assert_eq!(s.load(vec![vec![1], vec![1, 1]]), Err(MazeError::InvalidGrid));
    assert!(s.is_passable((0, 0)));
    assert!(!s.is_passable((1, 0)));
    let path = s.search((0, 0), (1, 1)).unwrap();
    assert_eq!(path, vec![(0, 0), (0, 1), (1, 1)]);
}

#[test]
fn load_replaces_grid_wholesale() {
    let mut s = loaded(&[vec![1, 1], vec![1, 1]]);
    s.load(vec![vec![1, 0, 0], vec![1, 1, 1]]).unwrap();
    assert!(s.in_bounds((0, 2)));
    assert!(!s.in_bounds((2, 0)));
    assert!(!s.is_passable((0, 1)));
    let path = s.search((0, 0), (1, 2)).unwrap();
    assert_eq!(path.len(), 4);
}

#[test]
fn search_is_deterministic() {
    for grid in sample_grids() {
        let h = grid.len();
        let w = grid[0].len();
        let mut s = loaded(&grid);
        for sr in 0..h {
            for sc in 0..w {
                for gr in 0..h {
                    for gc in 0..w {
                        let first = s.search((sr, sc), (gr, gc)).unwrap();
                        for _ in 0..3 {
                            let again = s.search((sr, sc), (gr, gc)).unwrap();
                            assert_eq!(first, again);
                        }
                    }
                }
            }
        }
    }
}

#[test]
fn reachability_matches_flood_fill() {
    for grid in sample_grids() {
        let h = grid.len();
        let w = grid[0].len();
        let mut s = loaded(&grid);
        for sr in 0..h {
            for sc in 0..w {
                let dist = bfs_distances(&grid, (sr, sc));
                for gr in 0..h {
                    for gc in 0..w {
                        let path = s.search((sr, sc), (gr, gc)).unwrap();
                        assert_eq!(
                            !path.is_empty(),
                            dist[gr][gc].is_some(),
                            "reachability mismatch on {:?} -> {:?}",
                            (sr, sc),
                            (gr, gc)
                        );
                    }
                }
            }
        }
    }
}

#[test]
fn path_length_matches_bfs_distance() {
    for grid in sample_grids() {
        let h = grid.len();
        let w = grid[0].len();
        let mut s = loaded(&grid);
        for sr in 0..h {
            for sc in 0..w {
                let dist = bfs_distances(&grid, (sr, sc));
                for gr in 0..h {
                    for gc in 0..w {
                        let path = s.search((sr, sc), (gr, gc)).unwrap();
                        if let Some(d) = dist[gr][gc] {
                            assert_eq!(path.len(), d + 1, "suboptimal path");
                            assert_valid_path(&grid, &path, (sr, sc), (gr, gc));
                        } else {
                            assert!(path.is_empty());
                        }
                    }
                }
            }
        }
    }
}

#[test]
fn returned_paths_are_valid_routes() {
    let grid = vec![
        vec![1, 1, 1, 0, 1],
        vec![1, 0, 1, 0, 1],
        vec![1, 0, 1, 1, 1],
        vec![1, 1, 1, 0, 1],
    ];
    let mut s = loaded(&grid);
    let path = s.search((0, 0), (0, 4)).unwrap();
    assert_valid_path(&grid, &path, (0, 0), (0, 4));
    let path = s.search((3, 0), (2, 4)).unwrap();
    assert_valid_path(&grid, &path, (3, 0), (2, 4));
}

#[test]
fn manhattan_distance_values() {
    assert_eq!(stara::manhattan_distance((0, 0), (2, 3)), 5);
    assert_eq!(stara::manhattan_distance((2, 3), (0, 0)), 5);
    assert_eq!(stara::manhattan_distance((4, 4), (4, 4)), 0);
    assert_eq!(stara::manhattan_distance((7, 1), (2, 9)), 13);
}

#[test]
fn frontier_pops_in_key_order() {
    let mut fr = stara::Frontier::new();
    assert_eq!(fr.len(), 0);
    fr.push(stara::Entry { f: 9, idx: 4 });
    fr.push(stara::Entry { f: 3, idx: 7 });
    fr.push(stara::Entry { f: 3, idx: 2 });
    fr.push(stara::Entry { f: 5, idx: 0 });
    assert_eq!(fr.len(), 4);
    let a = fr.pop();
    assert_eq!((a.f, a.idx), (3, 2));
    let b = fr.pop();
    assert_eq!((b.f, b.idx), (3, 7));
    let c = fr.pop();
    assert_eq!((c.f, c.idx), (5, 0));
    let d = fr.pop();
    assert_eq!((d.f, d.idx), (9, 4));
    assert_eq!(fr.len(), 0);
}
