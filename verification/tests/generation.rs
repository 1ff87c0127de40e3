use mazegen::{
    generate, Algorithm, AlgorithmKind, Backtracker, CellKind, ConfigError, Coord, Draws,
    Geometry, Kruskal, Maze, Prim, Scale, BIAS_RANGE,
};

const HALF: u64 = BIAS_RANGE / 2;

struct Replay {
    state: u64,
}

impl Replay {
    fn new(seed: u64) -> Replay {
        Replay { state: seed }
    }

    fn draw(&mut self) -> u64 {
        self.state = self
            .state
            .wrapping_mul(6364136223846793005)
            .wrapping_add(1442695040888963407);
        self.state ^ (self.state >> 29)
    }

    fn draws(&mut self) -> Draws {
        Draws {
            pick: self.draw(),
            side: self.draw(),
            turn: self.draw(),
            coin: (self.draw() >> 7) as u8,
        }
    }
}

fn blank(width: usize, height: usize, x: usize, y: usize) -> Maze {
    Maze::new(&Geometry { width, height }, HALF, &Coord { x, y }).unwrap()
}

fn prim_with(seed: u64, width: usize, height: usize, x: usize, y: usize) -> Maze {
    let mut replay = Replay::new(seed);
    let mut prim = Prim::init(blank(width, height, x, y));
    while !prim.is_done() {
        prim.step(&replay.draws());
    }
    prim.finish();
    prim.into_maze()
}

fn kruskal_with(seed: u64, width: usize, height: usize, x: usize, y: usize) -> Maze {
    let mut replay = Replay::new(seed);
    let mut kruskal = Kruskal::init(blank(width, height, x, y));
    while !kruskal.is_done() {
        kruskal.step(&replay.draws());
    }
    kruskal.finish();
    kruskal.into_maze()
}

fn backtracker_with(seed: u64, width: usize, height: usize, x: usize, y: usize) -> Maze {
    let mut replay = Replay::new(seed);
    let mut walk = Backtracker::init(blank(width, height, x, y));
    while !walk.is_closing() {
        walk.step(replay.draw());
    }
    walk.finish();
    walk.into_maze()
}

fn cells(m: &Maze) -> Vec<(usize, usize, CellKind)> {
    let g = m.geometry();
    let mut all = Vec::new();
    for y in 0..g.height {
        for x in 0..g.width {
            all.push((x, y, m.cell_kind(&Coord { x, y })));
        }
    }
    all
}

fn count_undefined(m: &Maze) -> usize {
    cells(m).iter().filter(|c| c.2 == CellKind::Undefined).count()
}

fn is_open(m: &Maze, x: usize, y: usize) -> bool {
    matches!(m.cell_kind(&Coord { x, y }), CellKind::PathKind(_))
}

fn reachable_from_origin(m: &Maze) -> usize {
    let g = m.geometry();
    let mut seen = vec![false; g.width * g.height];
    let o = m.origin();
    let mut stack = vec![(o.x, o.y)];
    let mut n = 0;
    while let Some((x, y)) = stack.pop() {
        if !is_open(m, x, y) || seen[y * g.width + x] {
            continue;
        }
        seen[y * g.width + x] = true;
        n += 1;
        if x > 0 {
            stack.push((x - 1, y));
        }
        if y > 0 {
            stack.push((x, y - 1));
        }
        if x + 1 < g.width {
            stack.push((x + 1, y));
        }
        if y + 1 < g.height {
            stack.push((x, y + 1));
        }
    }
    n
}

fn open_cells(m: &Maze) -> usize {
    cells(m).iter().filter(|c| matches!(c.2, CellKind::PathKind(_))).count()
}

fn open_rooms(m: &Maze) -> usize {
    cells(m)
        .iter()
        .filter(|c| c.0 % 2 == 0 && c.1 % 2 == 0 && matches!(c.2, CellKind::PathKind(_)))
        .count()
}

fn open_slots(m: &Maze) -> usize {
    cells(m)
        .iter()
        .filter(|c| (c.0 % 2 == 0) != (c.1 % 2 == 0) && matches!(c.2, CellKind::PathKind(_)))
        .count()
}

fn greatest(m: &Maze) -> i64 {
    cells(m)
        .iter()
        .filter_map(|c| match c.2 {
            CellKind::PathKind(d) => Some(d),
            _ => None,
        })
        .max()
        .unwrap()
}

fn check_generated(m: &Maze) {
    assert_eq!(count_undefined(m), 0);
    assert_eq!(reachable_from_origin(m), open_cells(m));
    assert_eq!(m.cell_kind(&m.origin()), CellKind::PathKind(0));
    assert_eq!(m.scale(), Scale::Length);
}

fn check_peaked(m: &Maze) {
    assert_eq!(m.cell_kind(&m.end()), CellKind::PathKind(m.len()));
    assert_eq!(greatest(m), m.len());
}

#[test]
fn new_maze_is_undefined_everywhere() {
    let m = blank(4, 3, 3, 2);
    assert_eq!(m.geometry(), Geometry { width: 4, height: 3 });
    assert_eq!(count_undefined(&m), 12);
    assert_eq!(m.origin(), Coord { x: 2, y: 2 });
    assert_eq!(m.end(), Coord { x: 3, y: 2 });
    assert_eq!(m.len(), 0);
    assert_eq!(m.scale(), Scale::Steps);
    assert_eq!(m.vertical_bias(), HALF);
}

#[test]
fn new_maze_refuses_an_empty_grid() {
    let r = Maze::new(&Geometry { width: 0, height: 5 }, HALF, &Coord { x: 0, y: 0 });
    assert_eq!(r.err(), Some(ConfigError::EmptyGrid));
    let r = Maze::new(&Geometry { width: 5, height: 0 }, HALF, &Coord { x: 0, y: 0 });
    assert_eq!(r.err(), Some(ConfigError::EmptyGrid));
}

#[test]
fn new_maze_refuses_a_grid_too_large() {
    let r = Maze::new(
        &Geometry { width: usize::MAX, height: usize::MAX },
        HALF,
        &Coord { x: 0, y: 0 },
    );
    assert_eq!(r.err(), Some(ConfigError::GridTooLarge));
}

#[test]
fn new_maze_refuses_a_bias_out_of_range() {
    let g = Geometry { width: 3, height: 3 };
    let o = Coord { x: 0, y: 0 };
    assert_eq!(Maze::new(&g, 0, &o).err(), Some(ConfigError::BiasOutOfRange));
    assert_eq!(Maze::new(&g, BIAS_RANGE, &o).err(), Some(ConfigError::BiasOutOfRange));
    assert!(Maze::new(&g, 1, &o).is_ok());
    assert!(Maze::new(&g, BIAS_RANGE - 1, &o).is_ok());
}

#[test]
fn new_maze_refuses_an_origin_off_the_grid() {
    let g = Geometry { width: 3, height: 3 };
    assert_eq!(
        Maze::new(&g, HALF, &Coord { x: 3, y: 0 }).err(),
        Some(ConfigError::OriginOutOfRange)
    );
    assert_eq!(
        Maze::new(&g, HALF, &Coord { x: 0, y: 3 }).err(),
        Some(ConfigError::OriginOutOfRange)
    );
}

#[test]
fn cell_kind_off_the_grid_is_undefined() {
    let mut m = blank(3, 3, 0, 0);
    m.set_wall(&Coord { x: 2, y: 2 });
    assert_eq!(m.cell_kind(&Coord { x: 2, y: 2 }), CellKind::WallKind);
    assert_eq!(m.cell_kind(&Coord { x: 3, y: 2 }), CellKind::Undefined);
    assert_eq!(m.cell_kind(&Coord { x: 2, y: 3 }), CellKind::Undefined);
    assert_eq!(m.cell_kind(&Coord { x: usize::MAX, y: usize::MAX }), CellKind::Undefined);
}

#[test]
fn cell_kind_twice_gives_the_same() {
    let m = prim_with(7, 7, 5, 0, 0);
    for y in 0..6 {
        for x in 0..8 {
            let c = Coord { x, y };
            assert_eq!(m.cell_kind(&c), m.cell_kind(&c));
        }
    }
}

#[test]
fn set_wall_is_idempotent() {
    let mut m = blank(3, 3, 0, 0);
    let c = Coord { x: 1, y: 1 };
    m.set_wall(&c);
    let once = cells(&m);
    m.set_wall(&c);
    assert_eq!(cells(&m), once);
    assert_eq!(m.cell_kind(&c), CellKind::WallKind);
}

#[test]
fn set_path_overwrites() {
    let mut m = blank(3, 3, 0, 0);
    let c = Coord { x: 1, y: 0 };
    m.set_path(&c, 4);
    assert_eq!(m.cell_kind(&c), CellKind::PathKind(4));
    m.set_path(&c, 9);
    assert_eq!(m.cell_kind(&c), CellKind::PathKind(9));
    m.set_wall(&c);
    assert_eq!(m.cell_kind(&c), CellKind::WallKind);
}

#[test]
fn neighbours_stop_at_the_edges() {
    let m = blank(3, 2, 0, 0);
    let c = Coord { x: 0, y: 0 };
    assert_eq!(m.get_coord_up(&c), None);
    assert_eq!(m.get_coord_left(&c), None);
    assert_eq!(m.get_coord_down(&c), Some(Coord { x: 0, y: 1 }));
    assert_eq!(m.get_coord_right(&c), Some(Coord { x: 1, y: 0 }));
    let c = Coord { x: 2, y: 1 };
    assert_eq!(m.get_coord_up(&c), Some(Coord { x: 2, y: 0 }));
    assert_eq!(m.get_coord_left(&c), Some(Coord { x: 1, y: 1 }));
    assert_eq!(m.get_coord_down(&c), None);
    assert_eq!(m.get_coord_right(&c), None);
}

#[test]
fn undefined_cells_around_come_up_down_left_right() {
    let mut m = blank(3, 3, 0, 0);
    let c = Coord { x: 1, y: 1 };
    assert_eq!(
        m.get_undefined_cells_around(&c),
        vec![
            Coord { x: 1, y: 0 },
            Coord { x: 1, y: 2 },
            Coord { x: 0, y: 1 },
            Coord { x: 2, y: 1 }
        ]
    );
    m.set_wall(&Coord { x: 1, y: 2 });
    m.set_path(&Coord { x: 0, y: 1 }, 3);
    assert_eq!(
        m.get_undefined_cells_around(&c),
        vec![Coord { x: 1, y: 0 }, Coord { x: 2, y: 1 }]
    );
    assert_eq!(
        m.get_undefined_cells_around(&Coord { x: 2, y: 0 }),
        vec![Coord { x: 2, y: 1 }, Coord { x: 1, y: 0 }]
    );
}

#[test]
fn stretch_moves_the_end_only_for_a_longer_path() {
    let mut m = blank(3, 3, 0, 0);
    m.stretch(&Coord { x: 1, y: 0 }, 3);
    assert_eq!((m.end(), m.len()), (Coord { x: 1, y: 0 }, 3));
    m.stretch(&Coord { x: 2, y: 0 }, 3);
    assert_eq!((m.end(), m.len()), (Coord { x: 1, y: 0 }, 3));
    m.stretch(&Coord { x: 2, y: 0 }, 4);
    assert_eq!((m.end(), m.len()), (Coord { x: 2, y: 0 }, 4));
}

#[test]
fn seal_closes_what_is_undecided() {
    let mut m = blank(3, 3, 0, 0);
    m.set_path(&Coord { x: 0, y: 0 }, 0);
    m.seal(true);
    assert_eq!(m.cell_kind(&Coord { x: 1, y: 1 }), CellKind::WallKind);
    assert_eq!(count_undefined(&m), 7);
    m.seal(false);
    assert_eq!(count_undefined(&m), 0);
    assert_eq!(m.cell_kind(&Coord { x: 0, y: 0 }), CellKind::PathKind(0));
}

#[test]
fn prim_starts_with_the_walls_round_the_origin() {
    let prim = Prim::init(blank(5, 5, 2, 2));
    let m = prim.maze();
    assert_eq!(m.cell_kind(&Coord { x: 2, y: 2 }), CellKind::PathKind(0));
    for c in [(2, 1), (2, 3), (1, 2), (3, 2)] {
        assert_eq!(m.cell_kind(&Coord { x: c.0, y: c.1 }), CellKind::WallKind);
    }
    assert_eq!(count_undefined(m), 20);
    assert!(!prim.is_done());
}

#[test]
fn prim_resolves_every_cell() {
    for (w, h) in [(2, 2), (3, 3), (5, 5), (6, 4), (7, 9), (2, 7), (10, 3)] {
        for seed in 0..8 {
            let m = prim_with(seed, w, h, w / 2, h / 2);
            check_generated(&m);
            check_peaked(&m);
            assert_eq!(open_rooms(&m), ((w + 1) / 2) * ((h + 1) / 2));
        }
    }
}

#[test]
fn prim_makes_a_tree_on_odd_grids() {
    for (w, h) in [(3, 3), (5, 5), (7, 9), (1, 5), (9, 1)] {
        for seed in 0..8 {
            let m = prim_with(seed, w, h, 0, 0);
            assert_eq!(open_rooms(&m), open_slots(&m) + 1);
        }
    }
}

#[test]
fn prim_is_replayed_by_its_draws() {
    let a = prim_with(42, 9, 7, 3, 3);
    let b = prim_with(42, 9, 7, 3, 3);
    assert_eq!(cells(&a), cells(&b));
    assert_eq!((a.end(), a.len()), (b.end(), b.len()));
    let c = prim_with(43, 9, 7, 3, 3);
    assert_ne!(cells(&a), cells(&c));
}

#[test]
fn prim_on_five_by_five_from_the_corner() {
    let mut prim = Prim::init(blank(5, 5, 0, 0));
    while prim.next() {}
    let m = prim.into_maze();
    assert_eq!(m.origin(), Coord { x: 0, y: 0 });
    check_generated(&m);
    check_peaked(&m);
    assert!(m.len() > 0);
    // read as a share of the length, the end stands at 1
    match m.cell_kind(&m.end()) {
        CellKind::PathKind(d) => assert_eq!(d as f64 / m.len() as f64, 1.0),
        other => panic!("the end is {:?}", other),
    }
    assert_eq!(open_rooms(&m), 9);
    assert_eq!(open_slots(&m), 8);
}

#[test]
fn single_cell_grid_completes_at_once() {
    for kind in [AlgorithmKind::Prim, AlgorithmKind::Kruskal, AlgorithmKind::Backtracker] {
        let m = generate(blank(1, 1, 0, 0), kind);
        assert_eq!(m.origin(), Coord { x: 0, y: 0 });
        assert_eq!(m.end(), Coord { x: 0, y: 0 });
        assert_eq!(m.len(), 0);
        assert_eq!(cells(&m), vec![(0, 0, CellKind::PathKind(0))]);
        assert_eq!(m.scale(), Scale::Length);
    }
    let mut prim = Prim::init(blank(1, 1, 0, 0));
    assert!(prim.is_done());
    assert!(!prim.next());
}

#[test]
fn prim_step_opens_the_wall_it_takes() {
    // on a 3 by 1 grid the only wall that waits is (1, 0)
    let mut prim = Prim::init(blank(3, 1, 0, 0));
    prim.step(&Draws { pick: 5, side: 0, turn: 0, coin: 0 });
    let m = prim.maze();
    assert_eq!(m.cell_kind(&Coord { x: 1, y: 0 }), CellKind::PathKind(1));
    assert_eq!(m.cell_kind(&Coord { x: 2, y: 0 }), CellKind::PathKind(2));
    assert_eq!((m.end(), m.len()), (Coord { x: 2, y: 0 }, 2));
    assert!(prim.is_done());
}

#[test]
fn prim_opens_a_wall_at_the_edge_without_a_room_behind() {
    let mut prim = Prim::init(blank(2, 1, 0, 0));
    prim.step(&Draws { pick: 0, side: 0, turn: 0, coin: 1 });
    let m = prim.maze();
    assert_eq!(m.cell_kind(&Coord { x: 1, y: 0 }), CellKind::PathKind(1));
    assert_eq!((m.end(), m.len()), (Coord { x: 1, y: 0 }, 1));
    assert!(prim.is_done());
}

#[test]
fn kruskal_resolves_every_cell() {
    for (w, h) in [(2, 2), (3, 3), (5, 5), (6, 4), (7, 9), (2, 7), (10, 3)] {
        for seed in 0..8 {
            let m = kruskal_with(seed, w, h, w / 2, h / 2);
            check_generated(&m);
            check_peaked(&m);
            assert_eq!(open_rooms(&m), ((w + 1) / 2) * ((h + 1) / 2));
        }
    }
}

#[test]
fn kruskal_counts_steps_from_the_origin() {
    let m = kruskal_with(3, 7, 7, 0, 0);
    // every open cell away from the origin has a neighbour one step nearer
    for (x, y, k) in cells(&m) {
        if let CellKind::PathKind(d) = k {
            if d > 0 {
                let mut near = Vec::new();
                if x > 0 {
                    near.push(m.cell_kind(&Coord { x: x - 1, y }));
                }
                if y > 0 {
                    near.push(m.cell_kind(&Coord { x, y: y - 1 }));
                }
                near.push(m.cell_kind(&Coord { x: x + 1, y }));
                near.push(m.cell_kind(&Coord { x, y: y + 1 }));
                assert!(near.contains(&CellKind::PathKind(d - 1)));
            } else {
                assert_eq!((x, y), (0, 0));
            }
        }
    }
}

#[test]
fn kruskal_is_replayed_by_its_draws() {
    let a = kruskal_with(11, 9, 7, 4, 2);
    let b = kruskal_with(11, 9, 7, 4, 2);
    assert_eq!(cells(&a), cells(&b));
    assert_eq!((a.end(), a.len()), (b.end(), b.len()));
}

#[test]
fn kruskal_lists_every_slot() {
    let mut kruskal = Kruskal::init(blank(3, 3, 0, 0));
    let mut steps = 0;
    while !kruskal.is_done() {
        kruskal.step(&Draws { pick: 0, side: 0, turn: 0, coin: 0 });
        steps += 1;
    }
    assert_eq!(steps, 4);
    assert!(!kruskal.is_closed());
    assert!(!kruskal.next());
    assert!(kruskal.is_closed());
    assert!(!kruskal.next());
}

#[test]
fn kruskal_joins_two_components_under_one_label() {
    // 5 by 1: slots (1, 0) and (3, 0); the origin (4, 0) holds the label 0
    let mut kruskal = Kruskal::init(blank(5, 1, 4, 0));
    // takes (1, 0): nothing is open on either side, a new component with the label 1
    kruskal.step(&Draws { pick: 0, side: 0, turn: 0, coin: 0 });
    {
        let m = kruskal.maze();
        assert_eq!(m.cell_kind(&Coord { x: 0, y: 0 }), CellKind::PathKind(1));
        assert_eq!(m.cell_kind(&Coord { x: 1, y: 0 }), CellKind::PathKind(1));
        assert_eq!(m.cell_kind(&Coord { x: 2, y: 0 }), CellKind::PathKind(1));
        assert_eq!(m.cell_kind(&Coord { x: 4, y: 0 }), CellKind::PathKind(0));
    }
    // takes (3, 0), looking left first: the component of the origin takes the label 1
    kruskal.step(&Draws { pick: 0, side: 0, turn: 0, coin: 0 });
    {
        let m = kruskal.maze();
        for x in 0..5 {
            assert_eq!(m.cell_kind(&Coord { x, y: 0 }), CellKind::PathKind(1));
        }
    }
    kruskal.finish();
    let m = kruskal.into_maze();
    for x in 0..5 {
        assert_eq!(m.cell_kind(&Coord { x, y: 0 }), CellKind::PathKind(4 - x as i64));
    }
    assert_eq!((m.end(), m.len()), (Coord { x: 0, y: 0 }, 4));
}

#[test]
fn backtracker_resolves_every_cell() {
    for (w, h) in [(3, 3), (5, 5), (6, 4), (7, 9), (2, 7), (10, 3)] {
        for seed in 0..8 {
            let m = backtracker_with(seed, w, h, 0, 0);
            check_generated(&m);
            check_peaked(&m);
            assert_eq!(open_rooms(&m), open_slots(&m) + 1);
        }
    }
}

#[test]
fn backtracker_cannot_move_on_a_grid_of_two_by_two() {
    let m = backtracker_with(1, 2, 2, 0, 0);
    check_generated(&m);
    assert_eq!(open_cells(&m), 1);
    assert_eq!(m.len(), 0);
    assert_eq!(m.end(), Coord { x: 1, y: 1 });
    assert_eq!(m.cell_kind(&m.end()), CellKind::WallKind);
}

#[test]
fn backtracker_moves_two_positions_at_a_time() {
    let mut walk = Backtracker::init(blank(5, 1, 0, 0));
    walk.step(0);
    {
        let m = walk.maze();
        assert_eq!(m.cell_kind(&Coord { x: 1, y: 0 }), CellKind::PathKind(1));
        assert_eq!(m.cell_kind(&Coord { x: 2, y: 0 }), CellKind::PathKind(2));
        assert_eq!(m.cell_kind(&Coord { x: 3, y: 0 }), CellKind::Undefined);
    }
    walk.step(0);
    assert!(!walk.is_closing());
    walk.step(0);
    assert!(walk.is_closing());
    walk.finish();
    let m = walk.into_maze();
    assert_eq!((m.end(), m.len()), (Coord { x: 4, y: 0 }, 4));
    for x in 0..5 {
        assert_eq!(m.cell_kind(&Coord { x, y: 0 }), CellKind::PathKind(x as i64));
    }
}

#[test]
fn backtracker_is_replayed_by_its_draws() {
    let a = backtracker_with(5, 9, 9, 4, 4);
    let b = backtracker_with(5, 9, 9, 4, 4);
    assert_eq!(cells(&a), cells(&b));
    assert_eq!((a.end(), a.len()), (b.end(), b.len()));
}

#[test]
fn backtracker_picks_among_the_rooms_two_away() {
    let walk = Backtracker::init(blank(5, 5, 2, 2));
    assert_eq!(
        walk.unvisited_cell_neighbours(),
        vec![
            Coord { x: 2, y: 0 },
            Coord { x: 2, y: 4 },
            Coord { x: 0, y: 2 },
            Coord { x: 4, y: 2 }
        ]
    );
    assert_eq!(
        walk.get_coord_twice(&Coord { x: 2, y: 2 }, &mazegen::Direction::Up),
        Some(Coord { x: 2, y: 0 })
    );
    assert_eq!(walk.get_coord_twice(&Coord { x: 1, y: 1 }, &mazegen::Direction::Up), None);
    assert_eq!(walk.get_coord_twice(&Coord { x: 3, y: 2 }, &mazegen::Direction::Right), None);
}

#[test]
fn every_algorithm_generates_at_random() {
    for kind in [AlgorithmKind::Prim, AlgorithmKind::Kruskal, AlgorithmKind::Backtracker] {
        for (w, h) in [(3, 3), (8, 5), (11, 11)] {
            let m = generate(blank(w, h, 0, 0), kind);
            check_generated(&m);
            check_peaked(&m);
            assert_eq!(m.geometry(), Geometry { width: w, height: h });
        }
    }
}

#[test]
fn generators_run_behind_one_interface() {
    for kind in [AlgorithmKind::Prim, AlgorithmKind::Kruskal, AlgorithmKind::Backtracker] {
        let mut g = mazegen::generate_algorithm(blank(7, 5, 6, 4), kind);
        let steps = mazegen::run(&mut g);
        assert!(steps > 0);
        assert!(!g.next());
        let m = g.into_maze();
        check_generated(&m);
        assert_eq!(m.origin(), Coord { x: 6, y: 4 });
    }
}
