use mazegen::{
    draw_cell_plain_gif, generate_with, invader_pixel, AlgorithmKind, CellKind, Coord, Draws,
    Geometry, Maze, RendererMosaic, Shade, BIAS_RANGE,
};

fn blank(width: usize, height: usize, x: usize, y: usize) -> Maze {
    Maze::new(&Geometry { width, height }, BIAS_RANGE / 3, &Coord { x, y }).unwrap()
}

fn draws(seed: u64, n: usize) -> Vec<Draws> {
    let mut state = seed;
    let mut next = move || {
        state ^= state << 13;
        state ^= state >> 7;
        state ^= state << 17;
        state
    };
    (0..n)
        .map(|_| Draws { pick: next(), side: next(), turn: next(), coin: next() as u8 })
        .collect()
}

fn grid(m: &Maze) -> Vec<CellKind> {
    let g = m.geometry();
    let mut all = Vec::new();
    for y in 0..g.height {
        for x in 0..g.width {
            all.push(m.cell_kind(&Coord { x, y }));
        }
    }
    all
}

#[test]
fn the_same_draws_give_the_same_maze() {
    for kind in [AlgorithmKind::Prim, AlgorithmKind::Kruskal, AlgorithmKind::Backtracker] {
        let list = draws(0x9e3779b97f4a7c15, 400);
        let a = generate_with(blank(11, 9, 5, 4), kind, &list).unwrap();
        let b = generate_with(blank(11, 9, 5, 4), kind, &list).unwrap();
        assert_eq!(grid(&a), grid(&b));
        assert_eq!((a.origin(), a.end(), a.len()), (b.origin(), b.end(), b.len()));
        assert_eq!(a.origin(), Coord { x: 4, y: 4 });
        let other = draws(0x2545f4914f6cdd1d, 400);
        let c = generate_with(blank(11, 9, 5, 4), kind, &other).unwrap();
        assert_ne!(grid(&a), grid(&c));
    }
}

#[test]
fn generation_stops_where_the_draws_run_out() {
    for kind in [AlgorithmKind::Prim, AlgorithmKind::Kruskal, AlgorithmKind::Backtracker] {
        assert!(generate_with(blank(5, 5, 0, 0), kind, &draws(1, 2)).is_none());
        assert!(generate_with(blank(5, 5, 0, 0), kind, &Vec::new()).is_none());
    }
    // a single cell needs no step of Prim or Kruskal, and one step of the backtracker
    assert!(generate_with(blank(1, 1, 0, 0), AlgorithmKind::Prim, &Vec::new()).is_some());
    assert!(generate_with(blank(1, 1, 0, 0), AlgorithmKind::Kruskal, &Vec::new()).is_some());
    assert!(generate_with(blank(1, 1, 0, 0), AlgorithmKind::Backtracker, &Vec::new()).is_none());
    assert!(generate_with(blank(1, 1, 0, 0), AlgorithmKind::Backtracker, &draws(1, 1)).is_some());
}

#[test]
fn prim_with_given_draws_on_a_corridor() {
    // 5 by 1: every wall that waits is taken in turn, whatever the draws
    let m = generate_with(blank(5, 1, 0, 0), AlgorithmKind::Prim, &draws(3, 2)).unwrap();
    assert_eq!(
        grid(&m),
        vec![
            CellKind::PathKind(0),
            CellKind::PathKind(1),
            CellKind::PathKind(2),
            CellKind::PathKind(3),
            CellKind::PathKind(4)
        ]
    );
    assert_eq!((m.end(), m.len()), (Coord { x: 4, y: 0 }, 4));
}

#[test]
fn origin_is_moved_to_a_room() {
    let m = blank(7, 7, 5, 3);
    assert_eq!(m.origin(), Coord { x: 4, y: 2 });
    assert_eq!(m.origin_to_coord(&Coord { x: 6, y: 1 }), Coord { x: 6, y: 0 });
    assert_eq!(m.origin_to_coord(&Coord { x: 0, y: 0 }), Coord { x: 0, y: 0 });
}

#[test]
fn draw_cell_plain_gif_fills_one_tile() {
    // an image of 6 by 4 pixels in tiles of 2 by 2
    let mut buffer = vec![9u8; 24];
    draw_cell_plain_gif(2, 6, &mut buffer, &Coord { x: 1, y: 1 }, 1);
    assert_eq!(
        buffer,
        vec![
            9, 9, 9, 9, 9, 9, //
            9, 9, 9, 9, 9, 9, //
            9, 9, 1, 1, 9, 9, //
            9, 9, 1, 1, 9, 9,
        ]
    );
    draw_cell_plain_gif(2, 6, &mut buffer, &Coord { x: 2, y: 0 }, 0);
    assert_eq!(
        buffer,
        vec![
            9, 9, 9, 9, 0, 0, //
            9, 9, 9, 9, 0, 0, //
            9, 9, 1, 1, 9, 9, //
            9, 9, 1, 1, 9, 9,
        ]
    );
    draw_cell_plain_gif(0, 6, &mut buffer, &Coord { x: 2, y: 0 }, 7);
    assert!(!buffer.contains(&7));
}

#[test]
fn invader_pixel_mirrors_the_left_half() {
    // bit 1 stands for the offset (1, 1), bit 6 for (2, 3) and (3, 2), bit 9 for (3, 3)
    let number: u16 = (1 << 1) | (1 << 6) | (1 << 9);
    let mut shown = Vec::new();
    for dy in 0..7 {
        for dx in 0..7 {
            if invader_pixel(number, dx, dy) {
                shown.push((dx, dy));
            }
        }
    }
    assert_eq!(
        shown,
        vec![(1, 1), (5, 1), (3, 2), (2, 3), (3, 3), (4, 3)]
    );
    for dy in 0..9 {
        for dx in 0..9 {
            assert!(!invader_pixel(0, dx, dy));
            if dx == 0 || dx >= 6 || dy == 0 || dy >= 6 {
                assert!(!invader_pixel(u16::MAX, dx, dy));
            }
        }
    }
    // bit 15 stands for (3, 5); bit 0 for no offset
    assert!(invader_pixel(1 << 15, 3, 5));
    assert!(!invader_pixel(1, 1, 1));
}

#[test]
fn mosaic_takes_light_tiles_for_open_cells() {
    let mosaic = RendererMosaic { is_inverted: false };
    assert_eq!(mosaic.tile_size(), 5);
    assert_eq!(mosaic.shade(&CellKind::PathKind(3)), Some(Shade::Light));
    assert_eq!(mosaic.shade(&CellKind::WallKind), Some(Shade::Dark));
    assert_eq!(mosaic.shade(&CellKind::Undefined), None);
    let inverted = RendererMosaic { is_inverted: true };
    assert_eq!(inverted.shade(&CellKind::PathKind(3)), Some(Shade::Dark));
    assert_eq!(inverted.shade(&CellKind::WallKind), Some(Shade::Light));
    assert_eq!(inverted.shade(&CellKind::Undefined), None);
    assert_eq!(RendererMosaic::colour_at(0, 0), 0);
    assert_eq!(RendererMosaic::colour_at(0, 4), 0);
    assert_eq!(RendererMosaic::colour_at(3, 0), 0);
    assert_eq!(RendererMosaic::colour_at(1, 1), 1);
    assert_eq!(RendererMosaic::colour_at(4, 4), 1);
}
