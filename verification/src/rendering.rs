//! The boundary between a maze and what draws it: a renderer is handed the
//! cells of the grid one by one, each with what the grid holds there.

use crate::geometry::{Coord, Geometry};
use crate::kruskal::positions;
use crate::maze::{lemma_row_major, CellKind, Maze, MazeView};
use vstd::prelude::*;

verus! {

/// What draws a maze, cell by cell. A renderer keeps the image it draws on.
/// What it draws is its own affair: a renderer may say for itself, in `draws`
/// and `draws_gif`, what a call makes of it; of one that does not say,
/// nothing is claimed.
pub trait Rendering {
    /// Whether drawing the cell at `c`, which holds `cell_kind`, may turn this
    /// renderer into `after`. Unless the renderer says otherwise, it may turn
    /// into anything.
    open spec fn draws(&self, maze: MazeView, c: Coord, cell_kind: CellKind, after: &Self) -> bool {
        true
    }

    /// Whether drawing the cell at `c`, which holds `cell_kind`, into
    /// `buffer` may turn this renderer into `after` and the buffer into
    /// `buffer_after`. Unless the renderer says otherwise, they may turn into
    /// anything.
    open spec fn draws_gif(
        &self,
        maze: MazeView,
        img_geom: Geometry,
        buffer: Seq<u8>,
        c: Coord,
        cell_kind: CellKind,
        after: &Self,
        buffer_after: Seq<u8>,
    ) -> bool {
        true
    }

    /// The side of the tile that stands for one cell, in pixels.
    fn tile_size(&self) -> usize;

    /// Draws the cell at `c`, which holds `cell_kind`.
    fn draw_cell(&mut self, maze: &Maze, c: &Coord, cell_kind: CellKind)
        requires
            maze.wf(),
            maze@.holds(*c),
            cell_kind == maze@.kind(*c),
        ensures
            old(self).draws(maze@, *c, cell_kind, final(self)),
    ;

    /// Draws the cell at `c`, which holds `cell_kind`, into `buffer`, which
    /// holds one colour of the palette for each pixel of an image of size
    /// `img_geom`, row by row.
    fn draw_cell_gif(
        &mut self,
        maze: &Maze,
        img_geom: &Geometry,
        buffer: &mut Vec<u8>,
        c: &Coord,
        cell_kind: CellKind,
    )
        requires
            maze.wf(),
            maze@.holds(*c),
            cell_kind == maze@.kind(*c),
        ensures
            old(self).draws_gif(
                maze@,
                *img_geom,
                old(buffer)@,
                *c,
                cell_kind,
                final(self),
                final(buffer)@,
            ),
    ;

    /// The colours of the palette: red, green and blue of each, one after the
    /// other.
    fn get_gif_palette(&self) -> Vec<u8>;
}

/// Whether `states` are the states that a renderer goes through when it
/// draws the cells of `maze` at the positions `cells`, one after the other,
/// each with what the maze holds there.
pub open spec fn draws_along<T: Rendering + ?Sized>(states: Seq<&T>, maze: MazeView, cells: Seq<Coord>) -> bool {
    &&& states.len() == cells.len() + 1
    &&& forall|i: int|
        #![trigger states[i]]
        0 <= i < cells.len() ==> states[i].draws(
            maze,
            cells[i],
            maze.kind(cells[i]),
            states[i + 1],
        )
}

/// Whether the renderer `before` may have become `after` by drawing the cells
/// of `maze` at the positions `cells`, one after the other, each with what the
/// maze holds there.
pub open spec fn drawn<T: Rendering + ?Sized>(before: &T, maze: MazeView, cells: Seq<Coord>, after: &T) -> bool {
    exists|states: Seq<&T>| #[trigger]
        draws_along(states, maze, cells) && states.first() == before && states.last() == after
}

/// Whether `states` are the states that a renderer goes through, and
/// `buffers` what the buffer holds meanwhile, when the renderer draws the
/// cells of `maze` at the positions `cells` into the buffer, one after the
/// other, each with what the maze holds there.
pub open spec fn draws_gif_along<T: Rendering + ?Sized>(
    states: Seq<&T>,
    buffers: Seq<Seq<u8>>,
    maze: MazeView,
    img_geom: Geometry,
    cells: Seq<Coord>,
) -> bool {
    &&& states.len() == cells.len() + 1
    &&& buffers.len() == cells.len() + 1
    &&& forall|i: int|
        #![trigger states[i]]
        0 <= i < cells.len() ==> states[i].draws_gif(
            maze,
            img_geom,
            buffers[i],
            cells[i],
            maze.kind(cells[i]),
            states[i + 1],
            buffers[i + 1],
        )
}

/// Whether the renderer `before` and the buffer `buffer` may have become
/// `after` and `buffer_after` by drawing the cells of `maze` at the positions
/// `cells` into the buffer, one after the other, each with what the maze holds
/// there.
pub open spec fn drawn_gif<T: Rendering + ?Sized>(
    before: &T,
    buffer: Seq<u8>,
    maze: MazeView,
    img_geom: Geometry,
    cells: Seq<Coord>,
    after: &T,
    buffer_after: Seq<u8>,
) -> bool {
    exists|states: Seq<&T>, buffers: Seq<Seq<u8>>| #[trigger]
        draws_gif_along(states, buffers, maze, img_geom, cells) && states.first() == before
            && states.last() == after && buffers.first() == buffer && buffers.last()
            == buffer_after
}

/// One more cell drawn lengthens the states that the renderer has gone
/// through.
proof fn lemma_draws_on<T: Rendering + ?Sized>(states: Seq<&T>, maze: MazeView, cells: Seq<Coord>, after: &T)
    requires
        cells.len() > 0,
        draws_along(states, maze, cells.drop_last()),
        states.last().draws(maze, cells.last(), maze.kind(cells.last()), after),
    ensures
        draws_along(states.push(after), maze, cells),
        states.push(after).first() == states.first(),
{
    let more = states.push(after);
    let rest = cells.drop_last();
    assert forall|i: int| #![trigger more[i]] 0 <= i < cells.len() implies more[i].draws(
        maze,
        cells[i],
        maze.kind(cells[i]),
        more[i + 1],
    ) by {
        if i < rest.len() {
            assert(more[i] == states[i] && more[i + 1] == states[i + 1]);
            assert(rest[i] == cells[i]);
        } else {
            assert(more[i] == states.last());
        }
    }
}

/// One more cell drawn into the buffer lengthens the states that the renderer
/// and the buffer have gone through.
proof fn lemma_draws_gif_on<T: Rendering + ?Sized>(
    states: Seq<&T>,
    buffers: Seq<Seq<u8>>,
    maze: MazeView,
    img_geom: Geometry,
    cells: Seq<Coord>,
    after: &T,
    buffer_after: Seq<u8>,
)
    requires
        cells.len() > 0,
        draws_gif_along(states, buffers, maze, img_geom, cells.drop_last()),
        states.last().draws_gif(
            maze,
            img_geom,
            buffers.last(),
            cells.last(),
            maze.kind(cells.last()),
            after,
            buffer_after,
        ),
    ensures
        draws_gif_along(states.push(after), buffers.push(buffer_after), maze, img_geom, cells),
        states.push(after).first() == states.first(),
        buffers.push(buffer_after).first() == buffers.first(),
{
    let more = states.push(after);
    let held = buffers.push(buffer_after);
    let rest = cells.drop_last();
    assert forall|i: int| #![trigger more[i]] 0 <= i < cells.len() implies more[i].draws_gif(
        maze,
        img_geom,
        held[i],
        cells[i],
        maze.kind(cells[i]),
        more[i + 1],
        held[i + 1],
    ) by {
        if i < rest.len() {
            assert(more[i] == states[i] && more[i + 1] == states[i + 1]);
            assert(held[i] == buffers[i] && held[i + 1] == buffers[i + 1]);
            assert(rest[i] == cells[i]);
        } else {
            assert(more[i] == states.last());
            assert(held[i] == buffers.last());
        }
    }
}

/// Which position comes after the first `y` rows and `x` more positions of
/// the grid.
proof fn lemma_next_position(m: MazeView, x: int, y: int)
    requires
        m.shaped(),
        m.inside(x, y),
    ensures
        0 <= y * m.width + x < m.width * m.height,
        positions(m.width, m.height)[y * m.width + x] == (Coord { x: x as usize, y: y as usize }),
        positions(m.width, m.height).take(y * m.width + x + 1).drop_last() == positions(
            m.width,
            m.height,
        ).take(y * m.width + x),
        positions(m.width, m.height).take(y * m.width + x + 1).last() == (Coord {
            x: x as usize,
            y: y as usize,
        }),
{
    let all = positions(m.width, m.height);
    let i = y * m.width + x;
    lemma_row_major(m.width, m.height, x, y);
    assert(all.take(i + 1).drop_last() =~= all.take(i));
}

impl Maze {
    /// Hands every cell of the grid to the renderer, row by row, each with
    /// what the grid holds there.
    pub fn draw<T: Rendering + ?Sized>(&self, renderer: &mut T)
        requires
            self.wf(),
        ensures
            drawn(
                &*old(renderer),
                self@,
                positions(self@.width, self@.height),
                &*final(renderer),
            ),
    {
        let g = self.geometry();
        let ghost all = positions(self@.width, self@.height);
        let ghost mut states: Seq<&T> = seq![&*renderer];
        let mut y: usize = 0;
        proof {
            assert(all.take(0) =~= Seq::<Coord>::empty());
            assert(0 * g.width == 0) by (nonlinear_arith);
        }
        while y < g.height
            invariant
                y <= g.height,
                self.wf(),
                g.width == self@.width,
                g.height == self@.height,
                all == positions(self@.width, self@.height),
                0 <= y * g.width <= g.width * g.height,
                draws_along(states, self@, all.take(y * g.width)),
                states.first() == &*old(renderer),
                states.last() == &*renderer,
            decreases g.height - y,
        {
            let mut x: usize = 0;
            while x < g.width
                invariant
                    x <= g.width,
                    y < g.height,
                    self.wf(),
                    g.width == self@.width,
                    g.height == self@.height,
                    all == positions(self@.width, self@.height),
                    0 <= y * g.width + x <= g.width * g.height,
                    draws_along(states, self@, all.take(y * g.width + x)),
                    states.first() == &*old(renderer),
                    states.last() == &*renderer,
                decreases g.width - x,
            {
                let c = Coord { x: x, y: y };
                renderer.draw_cell(self, &c, self.cell_kind(&c));
                proof {
                    lemma_next_position(self@, x as int, y as int);
                    lemma_draws_on(states, self@, all.take(y * g.width + x + 1), &*renderer);
                    states = states.push(&*renderer);
                }
                x = x + 1;
            }
            proof {
                assert((y + 1) * g.width == y * g.width + g.width) by (nonlinear_arith);
            }
            y = y + 1;
        }
        proof {
            assert(g.height * g.width == g.width * g.height) by (nonlinear_arith);
            assert(all.take(g.height * g.width) =~= all);
            assert(draws_along(states, self@, all));
        }
    }

    /// Hands every cell of the grid to the renderer, row by row, each with
    /// what the grid holds there, to be drawn into `buffer`.
    pub fn draw_gif<T: Rendering + ?Sized>(&self, renderer: &mut T, img_geom: &Geometry, buffer: &mut Vec<u8>)
        requires
            self.wf(),
        ensures
            drawn_gif(
                &*old(renderer),
                old(buffer)@,
                self@,
                *img_geom,
                positions(self@.width, self@.height),
                &*final(renderer),
                final(buffer)@,
            ),
    {
        let g = self.geometry();
        let ghost all = positions(self@.width, self@.height);
        let ghost mut states: Seq<&T> = seq![&*renderer];
        let ghost mut buffers: Seq<Seq<u8>> = seq![buffer@];
        let mut y: usize = 0;
        proof {
            assert(all.take(0) =~= Seq::<Coord>::empty());
            assert(0 * g.width == 0) by (nonlinear_arith);
        }
        while y < g.height
            invariant
                y <= g.height,
                self.wf(),
                g.width == self@.width,
                g.height == self@.height,
                all == positions(self@.width, self@.height),
                0 <= y * g.width <= g.width * g.height,
                draws_gif_along(states, buffers, self@, *img_geom, all.take(y * g.width)),
                states.first() == &*old(renderer),
                states.last() == &*renderer,
                buffers.first() == old(buffer)@,
                buffers.last() == buffer@,
            decreases g.height - y,
        {
            let mut x: usize = 0;
            while x < g.width
                invariant
                    x <= g.width,
                    y < g.height,
                    self.wf(),
                    g.width == self@.width,
                    g.height == self@.height,
                    all == positions(self@.width, self@.height),
                    0 <= y * g.width + x <= g.width * g.height,
                    draws_gif_along(states, buffers, self@, *img_geom, all.take(y * g.width + x)),
                    states.first() == &*old(renderer),
                    states.last() == &*renderer,
                    buffers.first() == old(buffer)@,
                    buffers.last() == buffer@,
                decreases g.width - x,
            {
                let c = Coord { x: x, y: y };
                renderer.draw_cell_gif(self, img_geom, buffer, &c, self.cell_kind(&c));
                proof {
                    lemma_next_position(self@, x as int, y as int);
                    lemma_draws_gif_on(
                        states,
                        buffers,
                        self@,
                        *img_geom,
                        all.take(y * g.width + x + 1),
                        &*renderer,
                        buffer@,
                    );
                    states = states.push(&*renderer);
                    buffers = buffers.push(buffer@);
                }
                x = x + 1;
            }
            proof {
                assert((y + 1) * g.width == y * g.width + g.width) by (nonlinear_arith);
            }
            y = y + 1;
        }
        proof {
            assert(g.height * g.width == g.width * g.height) by (nonlinear_arith);
            assert(all.take(g.height * g.width) =~= all);
            assert(draws_gif_along(states, buffers, self@, *img_geom, all));
        }
    }
}

} // verus!
