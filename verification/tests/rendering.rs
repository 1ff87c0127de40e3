use mazegen::{CellKind, Coord, Geometry, Maze, Rendering, BIAS_RANGE};

/// A renderer that writes down what it is handed.
struct Scribe {
    seen: Vec<(usize, usize, CellKind)>,
}

impl Rendering for Scribe {
    fn tile_size(&self) -> usize {
        1
    }
    fn draw_cell(&mut self, maze: &Maze, c: &Coord, cell_kind: CellKind) {
        assert_eq!(maze.cell_kind(c), cell_kind);
        self.seen.push((c.x, c.y, cell_kind));
    }
    fn draw_cell_gif(
        &mut self,
        maze: &Maze,
        img_geom: &Geometry,
        buffer: &mut Vec<u8>,
        c: &Coord,
        cell_kind: CellKind,
    ) {
        assert_eq!(maze.cell_kind(c), cell_kind);
        buffer[c.y * img_geom.width + c.x] = match cell_kind {
            CellKind::PathKind(_) => 1,
            _ => 0,
        };
        self.seen.push((c.x, c.y, cell_kind));
    }
    fn get_gif_palette(&self) -> Vec<u8> {
        vec![0, 0, 0, 255, 255, 255]
    }
}

fn small() -> Maze {
    let mut m =
        Maze::new(&Geometry { width: 3, height: 2 }, BIAS_RANGE / 2, &Coord { x: 0, y: 0 }).unwrap();
    m.set_path(&Coord { x: 0, y: 0 }, 0);
    m.set_path(&Coord { x: 1, y: 0 }, 1);
    m.set_wall(&Coord { x: 2, y: 1 });
    m
}

#[test]
fn draw_hands_every_cell_over_row_by_row() {
    let m = small();
    let mut scribe = Scribe { seen: Vec::new() };
    m.draw(&mut scribe);
    assert_eq!(
        scribe.seen,
        vec![
            (0, 0, CellKind::PathKind(0)),
            (1, 0, CellKind::PathKind(1)),
            (2, 0, CellKind::Undefined),
            (0, 1, CellKind::Undefined),
            (1, 1, CellKind::Undefined),
            (2, 1, CellKind::WallKind),
        ]
    );
}

#[test]
fn draw_gif_hands_every_cell_over_with_the_buffer() {
    let m = small();
    let mut scribe = Scribe { seen: Vec::new() };
    let mut buffer = vec![7u8; 6];
    m.draw_gif(&mut scribe, &Geometry { width: 3, height: 2 }, &mut buffer);
    assert_eq!(buffer, vec![1, 1, 0, 0, 0, 0]);
    assert_eq!(scribe.seen.len(), 6);
    assert_eq!(scribe.get_gif_palette().len(), 6);
    assert_eq!(scribe.tile_size(), 1);
}
