use mazegen::{
    generate, AlgorithmKind, CellKind, Coord, Direction, Geometry, Maze, Probe, Scale, BIAS_RANGE,
    UNVISITED,
};

fn blank(width: usize, height: usize) -> Maze {
    Maze::new(&Geometry { width, height }, BIAS_RANGE / 2, &Coord { x: 0, y: 0 }).unwrap()
}

/// A maze drawn with `#` for walls and `.` for open cells, the end at `end`.
fn drawn(rows: &[&str], end: (usize, usize)) -> Maze {
    let mut m = blank(rows[0].len(), rows.len());
    for (y, row) in rows.iter().enumerate() {
        for (x, ch) in row.chars().enumerate() {
            let c = Coord { x, y };
            match ch {
                '.' => m.set_path(&c, 7),
                _ => m.set_wall(&c),
            }
        }
    }
    m.stretch(&Coord { x: end.0, y: end.1 }, 1);
    m
}

fn numbers(m: &Maze) -> Vec<Vec<i64>> {
    let g = m.geometry();
    (0..g.height)
        .map(|y| {
            (0..g.width)
                .map(|x| match m.cell_kind(&Coord { x, y }) {
                    CellKind::PathKind(d) => d,
                    CellKind::WallKind => -9,
                    CellKind::Undefined => -8,
                })
                .collect()
        })
        .collect()
}

#[test]
fn solution_of_a_three_by_three_maze_has_the_manhattan_length() {
    let mut m = drawn(&["...", "##.", "##."], (2, 2));
    let route = m.solution_path().unwrap();
    assert_eq!(
        route,
        vec![
            (Coord { x: 0, y: 0 }, Direction::Right),
            (Coord { x: 1, y: 0 }, Direction::Right),
            (Coord { x: 2, y: 0 }, Direction::Down),
            (Coord { x: 2, y: 1 }, Direction::Down),
        ]
    );
    assert_eq!(route.len(), 2 + 2);
    // the search leaves every open cell marked as not reached
    assert_eq!(
        numbers(&m),
        vec![vec![-1, -1, -1], vec![-9, -9, -1], vec![-9, -9, -1]]
    );
    let mut other = drawn(&[".##", ".##", "..."], (2, 2));
    assert_eq!(other.solution_path().unwrap().len(), 4);
}

#[test]
fn solution_of_a_generated_maze_is_as_long_as_the_maze() {
    for kind in [AlgorithmKind::Prim, AlgorithmKind::Kruskal, AlgorithmKind::Backtracker] {
        for _ in 0..20 {
            let mut m = generate(blank(7, 5), kind);
            let len = m.len();
            let route = m.solution_path().unwrap();
            assert_eq!(route.len() as i64, len);
        }
    }
}

#[test]
fn solution_on_an_open_grid_follows_the_order_of_directions() {
    // with every cell open the walk goes down first, and winds through the grid
    let mut m = drawn(&["...", "...", "..."], (2, 2));
    let route = m.solution_path().unwrap();
    let at: Vec<(usize, usize)> = route.iter().map(|s| (s.0.x, s.0.y)).collect();
    assert_eq!(
        at,
        vec![(0, 0), (0, 1), (0, 2), (1, 2), (1, 1), (1, 0), (2, 0), (2, 1)]
    );
}

#[test]
fn solution_path_is_empty_where_the_origin_is_the_end() {
    let mut m = drawn(&["..", ".."], (0, 0));
    m.stretch(&Coord { x: 0, y: 0 }, 2);
    assert_eq!(m.end(), Coord { x: 0, y: 0 });
    assert_eq!(m.solution_path(), Some(vec![]));
}

#[test]
fn solution_path_is_none_where_no_walk_leads_to_the_end() {
    let mut m = drawn(&[".#.", ".#.", ".#."], (2, 2));
    assert_eq!(m.solution_path(), None);
    let mut m = drawn(&["#..", "...", "..."], (2, 2));
    assert_eq!(m.solution_path(), None);
    let mut m = drawn(&["...", "...", "..#"], (2, 2));
    assert_eq!(m.solution_path(), None);
}

#[test]
fn compute_solution_counts_the_steps_away_from_the_way() {
    let mut m = drawn(
        &[
            ".....",
            ".#.#.",
            ".#.#.",
            ".#...",
        ],
        (4, 3),
    );
    m.compute_solution();
    assert_eq!(
        numbers(&m),
        vec![
            vec![0, 0, 0, 1, 2],
            vec![1, -9, 0, -9, 3],
            vec![2, -9, 0, -9, 4],
            vec![3, -9, 0, 0, 0],
        ]
    );
    assert_eq!(m.scale(), Scale::Solution(4));
    assert_eq!(m.end(), Coord { x: 4, y: 3 });
    assert_eq!(m.origin(), Coord { x: 0, y: 0 });
}

#[test]
fn compute_solution_on_a_way_without_branches_gives_zero_everywhere() {
    let mut m = drawn(&["...", "##.", "##."], (2, 2));
    m.compute_solution();
    assert_eq!(
        numbers(&m),
        vec![vec![0, 0, 0], vec![-9, -9, 0], vec![-9, -9, 0]]
    );
    assert_eq!(m.scale(), Scale::Solution(0));
}

#[test]
fn compute_solution_without_a_way_leaves_the_cells_unreached() {
    let mut m = drawn(&[".#.", ".#.", ".#."], (2, 2));
    m.compute_solution();
    assert_eq!(
        numbers(&m),
        vec![vec![-1, -9, -1], vec![-1, -9, -1], vec![-1, -9, -1]]
    );
    assert_eq!(m.scale(), Scale::Solution(0));
}

#[test]
fn compute_solution_reaches_every_cell_of_a_generated_maze() {
    for kind in [AlgorithmKind::Prim, AlgorithmKind::Kruskal, AlgorithmKind::Backtracker] {
        let mut m = generate(blank(9, 7), kind);
        let (end, len) = (m.end(), m.len());
        m.compute_solution();
        let top = match m.scale() {
            Scale::Solution(t) => t,
            other => panic!("read as {:?}", other),
        };
        let all: Vec<i64> = numbers(&m).into_iter().flatten().collect();
        assert!(!all.contains(&UNVISITED));
        assert!(!all.contains(&-8));
        assert_eq!(*all.iter().max().unwrap(), top);
        assert_eq!(m.cell_kind(&m.origin()), CellKind::PathKind(0));
        assert_eq!(m.cell_kind(&end), CellKind::PathKind(0));
        assert_eq!((m.end(), m.len()), (end, len));
    }
}

#[test]
fn clear_path_marks_every_open_cell() {
    let mut m = drawn(&["..#", "#.."], (2, 1));
    m.clear_path();
    assert_eq!(numbers(&m), vec![vec![-1, -1, -9], vec![-9, -1, -1]]);
    assert_eq!(m.is_visited(&Coord { x: 0, y: 0 }), Some(false));
    assert_eq!(m.is_visited(&Coord { x: 2, y: 0 }), None);
    assert_eq!(m.is_visited(&Coord { x: 5, y: 5 }), None);
    m.set_path(&Coord { x: 0, y: 0 }, 0);
    assert_eq!(m.is_visited(&Coord { x: 0, y: 0 }), Some(true));
    assert_eq!(m.is_labelled(&Coord { x: 0, y: 0 }, 0), Some(true));
    assert_eq!(m.is_labelled(&Coord { x: 1, y: 0 }, 0), Some(false));
    assert_eq!(m.is_labelled(&Coord { x: 2, y: 0 }, 0), None);
}

#[test]
fn walk_looks_up_down_left_right() {
    let mut m = drawn(&["...", "...", "..."], (2, 2));
    m.clear_path();
    let c = Coord { x: 1, y: 1 };
    assert_eq!(m.walk(&c, &Probe::Unvisited), Some((Coord { x: 1, y: 0 }, Direction::Up)));
    m.set_path(&Coord { x: 1, y: 0 }, 0);
    assert_eq!(m.walk(&c, &Probe::Unvisited), Some((Coord { x: 1, y: 2 }, Direction::Down)));
    m.set_path(&Coord { x: 1, y: 2 }, 0);
    assert_eq!(m.walk(&c, &Probe::Unvisited), Some((Coord { x: 0, y: 1 }, Direction::Left)));
    m.set_path(&Coord { x: 0, y: 1 }, 0);
    assert_eq!(m.walk(&c, &Probe::Unvisited), Some((Coord { x: 2, y: 1 }, Direction::Right)));
    m.set_path(&Coord { x: 2, y: 1 }, 0);
    assert_eq!(m.walk(&c, &Probe::Unvisited), None);
    assert_eq!(
        m.walk(&c, &Probe::Unlabelled(0)),
        None
    );
    assert_eq!(
        m.walk(&Coord { x: 0, y: 0 }, &Probe::Unlabelled(0)),
        None
    );
    assert_eq!(
        m.walk(&Coord { x: 2, y: 2 }, &Probe::Unlabelled(-1)),
        Some((Coord { x: 2, y: 1 }, Direction::Up))
    );
}

#[test]
fn relabel_spreads_over_one_component() {
    let mut m = drawn(&["..#..", "#.#.#", "..#.."], (4, 2));
    for (x, y) in [(0, 0), (1, 0), (1, 1), (0, 2), (1, 2)] {
        m.set_path(&Coord { x, y }, 3);
    }
    m.relabel(5, &Coord { x: 1, y: 1 });
    assert_eq!(
        numbers(&m),
        vec![
            vec![5, 5, -9, 7, 7],
            vec![-9, 5, -9, 7, -9],
            vec![5, 5, -9, 7, 7],
        ]
    );
}

#[test]
fn flood_counts_from_its_start() {
    let mut m = drawn(&["....", "#.##", "#..."], (3, 2));
    m.clear_path();
    m.set_path(&Coord { x: 1, y: 0 }, 0);
    let (best, place) = m.flood(&Coord { x: 1, y: 0 }, 0, Coord { x: 0, y: 0 });
    assert_eq!(
        numbers(&m),
        vec![vec![1, 0, 1, 2], vec![-9, 1, -9, -9], vec![-9, 2, 3, 4]]
    );
    assert_eq!((best, place), (4, Coord { x: 3, y: 2 }));
    // nothing is left to reach: the greatest count and its place stay
    let (best, place) = m.flood(&Coord { x: 1, y: 0 }, 9, Coord { x: 0, y: 0 });
    assert_eq!((best, place), (9, Coord { x: 0, y: 0 }));
}
