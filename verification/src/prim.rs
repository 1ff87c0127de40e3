//! The randomized algorithm of Prim.
//!
//! The maze grows from the origin. The walls next to the rooms reached so far
//! wait in two lists; each step takes one of them at random and, if it parts
//! a room of the maze from one that is not, opens it and takes the new room
//! in. When the lists are empty every room is in the maze.

use crate::dice::{random_u64, random_u8, spec_wall_direction, wall_direction, Draws};
use crate::frontier::{add_walls, horizontal_part, take_wall, taken, vertical_part};
use crate::geometry::{opposite, Coord};
use crate::lattice::{
    blanks, distinct, is_corner, is_path, is_room, is_slot, lemma_around, lemma_wall_all, listed,
    open_rooms, open_slots, paths, slot_ends,
};
use crate::maze::{lemma_put, CellKind, Maze, MazeView, Scale, MAX_CELLS};
use crate::prim_proof::{
    lemma_prim_opened, lemma_prim_sealed, lemma_prim_start, lemma_prim_took, lemma_room_left,
};
use crate::walks::{connected, parented};
use vstd::prelude::*;

verus! {

/// The mathematical content of a `Prim`: the maze and the two lists of walls
/// that wait.
#[verifier::ext_equal]
pub ghost struct PrimView {
    pub maze: MazeView,
    pub vwalls: Seq<Coord>,
    pub hwalls: Seq<Coord>,
}

/// What a position may hold: a room is never a wall, a corner never open, and
/// an open cell holds a count of steps that is at most the maze's length and
/// is 0 at the origin only.
pub open spec fn sound(m: MazeView, x: int, y: int) -> bool {
    m.inside(x, y) ==> match m.at(x, y) {
        CellKind::WallKind => !is_room(x, y),
        CellKind::PathKind(d) => !is_corner(x, y) && 0 <= d <= m.len && (d == 0 ==> x
            == m.origin.x && y == m.origin.y),
        CellKind::Undefined => true,
    }
}

/// Around an open room everything is decided.
pub open spec fn fenced_room(m: MazeView, x: int, y: int) -> bool {
    m.inside(x, y) && is_room(x, y) && is_path(m.at(x, y)) ==> {
        &&& m.inside(x - 1, y) ==> m.at(x - 1, y) != CellKind::Undefined
        &&& m.inside(x + 1, y) ==> m.at(x + 1, y) != CellKind::Undefined
        &&& m.inside(x, y - 1) ==> m.at(x, y - 1) != CellKind::Undefined
        &&& m.inside(x, y + 1) ==> m.at(x, y + 1) != CellKind::Undefined
    }
}

/// An open slot joins open rooms; a closed slot that does not wait in a list
/// lies between two open rooms.
pub open spec fn settled_slot(p: PrimView, x: int, y: int) -> bool {
    p.maze.inside(x, y) && is_slot(x, y) ==> {
        let (a, b) = slot_ends(x, y);
        match p.maze.at(x, y) {
            CellKind::PathKind(_) => (p.maze.inside(a.0, a.1) ==> is_path(p.maze.at(a.0, a.1)))
                && (p.maze.inside(b.0, b.1) ==> is_path(p.maze.at(b.0, b.1))),
            CellKind::WallKind => listed(p.vwalls, x, y) || listed(p.hwalls, x, y) || (is_path(
                p.maze.at(a.0, a.1),
            ) && is_path(p.maze.at(b.0, b.1))),
            CellKind::Undefined => true,
        }
    }
}

/// A wall that waits: a closed slot of the grid next to an open room.
pub open spec fn waits(m: MazeView, w: Coord) -> bool {
    let (a, b) = slot_ends(w.x as int, w.y as int);
    &&& m.holds(w)
    &&& is_slot(w.x as int, w.y as int)
    &&& m.kind(w) == CellKind::WallKind
    &&& is_path(m.at(a.0, a.1)) || is_path(m.at(b.0, b.1))
}

impl PrimView {
    /// Whether no wall waits: the maze is complete.
    pub open spec fn done(self) -> bool {
        self.vwalls.len() == 0 && self.hwalls.len() == 0
    }

    /// What bounds the number of steps still to come: every step lowers it.
    pub open spec fn fuel(self) -> nat {
        2 * self.maze.count(blanks()) + self.vwalls.len() + self.hwalls.len()
    }

    /// The state after the undecided neighbours of `c` were closed and put in
    /// the lists.
    pub open spec fn ringed(self, c: Coord) -> PrimView {
        let ws = self.maze.undefined_around(c);
        PrimView {
            maze: self.maze.wall_all(ws),
            vwalls: self.vwalls + vertical_part(ws),
            hwalls: self.hwalls + horizontal_part(ws),
        }
    }

    /// The state after `c`, open at `d` steps, was taken into the maze.
    pub open spec fn joined(self, c: Coord, d: int) -> PrimView {
        let r = self.ringed(c);
        PrimView { maze: r.maze.stretch(c, d), ..r }
    }

    /// The state after the wall `w` was opened from a room at `d` steps, and
    /// the room `far` behind it, if there is one and nothing is decided there,
    /// was taken into the maze.
    #[verifier::opaque]
    pub open spec fn connected(self, w: Coord, d: i64, far: Option<Coord>) -> PrimView {
        let s1 = PrimView { maze: self.maze.put(w, CellKind::PathKind((d + 1) as i64)), ..self };
        let s2 = match far {
            Some(c) => if s1.maze.kind(c) == CellKind::Undefined {
                (PrimView {
                    maze: s1.maze.put(c, CellKind::PathKind((d + 2) as i64)),
                    ..s1
                }).joined(c, d + 2)
            } else {
                s1
            },
            None => s1,
        };
        s2.joined(w, d + 1)
    }

    /// The state after the wall `w`, taken out of the lists, was tried, with
    /// `o1` and `o2` the positions on its two sides that the grid has.
    ///
    /// With a room of the maze on one side and none on the other, the wall is
    /// opened, and the room behind it, if the grid has one, is taken in.
    /// Between two rooms of the maze it stays closed.
    pub open spec fn tried(self, w: Coord, o1: Option<Coord>, o2: Option<Coord>) -> PrimView {
        match (o1, o2) {
            (Some(c1), Some(c2)) => match self.maze.kind(c1) {
                CellKind::PathKind(d) => if is_path(self.maze.kind(c2)) {
                    self
                } else {
                    self.connected(w, d, Some(c2))
                },
                _ => match self.maze.kind(c2) {
                    CellKind::PathKind(d) => self.connected(w, d, Some(c1)),
                    _ => self,
                },
            },
            (Some(c), None) => match self.maze.kind(c) {
                CellKind::PathKind(d) => self.connected(w, d, None),
                _ => self,
            },
            (None, Some(c)) => match self.maze.kind(c) {
                CellKind::PathKind(d) => self.connected(w, d, None),
                _ => self,
            },
            (None, None) => self,
        }
    }

    /// The state after the wall `w`, taken out of the lists, was tried along
    /// its axis, in the direction that the draws give first.
    pub open spec fn opened(self, w: Coord, turn: u64, coin: u8) -> PrimView {
        match spec_wall_direction(w, turn, coin, self.maze.bias) {
            None => self,
            Some(dir) => self.tried(w, self.maze.step(w, dir), self.maze.step(w, dir.reversed())),
        }
    }

    /// The wall that the draws take out of the lists, and the state without it.
    pub open spec fn took(self, pick: u64, side: u64) -> (Coord, PrimView) {
        let (w, v, h) = taken(self.vwalls, self.hwalls, pick, side, self.maze.bias);
        (w, PrimView { vwalls: v, hwalls: h, ..self })
    }

    /// The state after one step with the given draws.
    pub open spec fn stepped(self, draws: Draws) -> PrimView {
        let (w, s) = self.took(draws.pick, draws.side);
        s.opened(w, draws.turn, draws.coin)
    }

    /// The state after the last step: the corners that are still undecided
    /// are closed, and the counts of steps become shares of the length.
    pub open spec fn finished(self) -> PrimView {
        PrimView { maze: self.maze.sealed(true).read_as(Scale::Length), ..self }
    }

    /// The state in which generation starts on the pristine maze `m`.
    pub open spec fn start(m: MazeView) -> PrimView {
        (PrimView {
            maze: m.put(m.origin, CellKind::PathKind(0)),
            vwalls: Seq::empty(),
            hwalls: Seq::empty(),
        }).ringed(m.origin)
    }

    /// Whether the walls in the lists are walls that wait, each in its list
    /// and once.
    pub open spec fn queued_right(self) -> bool {
        &&& forall|i: int|
            0 <= i < self.vwalls.len() ==> waits(self.maze, #[trigger] self.vwalls[i])
                && self.vwalls[i].x % 2 == 0
        &&& forall|i: int|
            0 <= i < self.hwalls.len() ==> waits(self.maze, #[trigger] self.hwalls[i])
                && self.hwalls[i].x % 2 != 0
        &&& distinct(self.vwalls)
        &&& distinct(self.hwalls)
    }

    /// What holds between two steps, but for the slot `hole`, if one is given:
    /// the wall that was taken out of the lists and not tried yet.
    pub open spec fn inv_but(self, hole: Option<Coord>) -> bool {
        &&& self.maze.shaped()
        &&& self.queued_right()
        &&& forall|x: int, y: int| #[trigger] sound(self.maze, x, y)
        &&& forall|x: int, y: int| #[trigger] fenced_room(self.maze, x, y)
        &&& forall|x: int, y: int|
            #![trigger settled_slot(self, x, y)]
            hole == Some(Coord { x: x as usize, y: y as usize }) || settled_slot(self, x, y)
        &&& forall|x: int, y: int| #[trigger] parented(self.maze, x, y)
        &&& self.maze.kind(self.maze.origin) == CellKind::PathKind(0)
        &&& self.maze.len + 1 <= self.maze.count(paths())
        &&& self.maze.count(open_rooms()) <= self.maze.count(open_slots()) + 1
        &&& self.maze.width % 2 == 1 && self.maze.height % 2 == 1 ==> self.maze.count(open_rooms())
            == self.maze.count(open_slots()) + 1
        &&& self.maze.len > 0 ==> self.maze.kind(self.maze.end) == CellKind::PathKind(
            self.maze.len as i64,
        )
        &&& match hole {
            Some(w) => waits(self.maze, w) && !listed(self.vwalls, w.x as int, w.y as int)
                && !listed(self.hwalls, w.x as int, w.y as int),
            None => true,
        }
    }

    /// What holds between two steps.
    pub open spec fn inv(self) -> bool {
        self.inv_but(None)
    }
}

/// The generator: a maze under construction and the walls that wait.
pub struct Prim {
    maze: Maze,
    vwalls: Vec<Coord>,
    hwalls: Vec<Coord>,
}

impl View for Prim {
    type V = PrimView;

    closed spec fn view(&self) -> PrimView {
        PrimView { maze: self.maze@, vwalls: self.vwalls@, hwalls: self.hwalls@ }
    }
}

impl Prim {
    /// Whether the maze is stored as the view says.
    pub closed spec fn backed(&self) -> bool {
        self.maze.backed()
    }

    /// The invariant of the generator.
    pub open spec fn wf(&self) -> bool {
        self.backed() && self@.inv()
    }

    /// The maze as it stands.
    pub fn maze(&self) -> (m: &Maze)
        requires
            self.wf(),
        ensures
            m.wf(),
            m@ == self@.maze,
    {
        &self.maze
    }

    /// Whether no wall waits.
    pub fn is_done(&self) -> (b: bool)
        ensures
            b == self@.done(),
    {
        self.vwalls.len() == 0 && self.hwalls.len() == 0
    }

    /// Gives the maze back.
    pub fn into_maze(self) -> (m: Maze)
        requires
            self.wf(),
        ensures
            m.wf(),
            m@ == self@.maze,
    {
        self.maze
    }

    /// Closes the given walls.
    fn set_walls(&mut self, walls: &Vec<Coord>)
        requires
            old(self).backed(),
            old(self)@.maze.shaped(),
            forall|i: int| 0 <= i < walls.len() ==> old(self)@.maze.holds(#[trigger] walls[i]),
        ensures
            final(self).backed(),
            final(self)@ == (PrimView { maze: old(self)@.maze.wall_all(walls@), ..old(self)@ }),
    {
        proof {
            lemma_wall_all(self@.maze, walls@);
        }
        self.maze.set_walls(walls);
    }

    /// The neighbours of `c` at which nothing is decided: up, down, left, right.
    fn get_undefined_cells_around(&self, c: &Coord) -> (v: Vec<Coord>)
        requires
            self.backed(),
            self@.maze.shaped(),
        ensures
            v@ == self@.maze.undefined_around(*c),
    {
        self.maze.get_undefined_cells_around(c)
    }

    /// Closes the undecided neighbours of `c` and puts them in the lists.
    fn ring(&mut self, c: &Coord)
        requires
            old(self).backed(),
            old(self)@.maze.shaped(),
            old(self)@.maze.holds(*c),
        ensures
            final(self).backed(),
            final(self)@ == old(self)@.ringed(*c),
            final(self)@.maze.shaped(),
            final(self)@.maze.width == old(self)@.maze.width,
            final(self)@.maze.height == old(self)@.maze.height,
            old(self)@.maze.same_frame(final(self)@.maze),
    {
        let walls = self.get_undefined_cells_around(c);
        proof {
            lemma_around(self@.maze, *c);
            lemma_wall_all(self@.maze, walls@);
        }
        self.set_walls(&walls);
        add_walls(&mut self.vwalls, &mut self.hwalls, walls);
    }

    /// Takes `c`, open at `d` steps, into the maze.
    fn join(&mut self, c: &Coord, d: i64)
        requires
            old(self).backed(),
            old(self)@.maze.shaped(),
            old(self)@.maze.holds(*c),
            d <= MAX_CELLS,
        ensures
            final(self).backed(),
            final(self)@ == old(self)@.joined(*c, d as int),
            final(self)@.maze.shaped(),
            final(self)@.maze.width == old(self)@.maze.width,
            final(self)@.maze.height == old(self)@.maze.height,
    {
        self.ring(c);
        self.maze.stretch(c, d);
    }

    /// Opens the wall `w` from a room at `d` steps, and takes in the room `far`
    /// behind it if nothing is decided there.
    fn connect(&mut self, w: &Coord, d: i64, far: Option<Coord>)
        requires
            old(self).backed(),
            old(self)@.maze.shaped(),
            old(self)@.maze.holds(*w),
            far matches Some(c) ==> old(self)@.maze.holds(c),
            0 <= d,
            d + 2 <= MAX_CELLS,
        ensures
            final(self).backed(),
            final(self)@ == old(self)@.connected(*w, d, far),
    {
        proof {
            reveal(PrimView::connected);
            lemma_put(self@.maze, *w, CellKind::PathKind((d + 1) as i64));
        }
        self.maze.set_path(w, d + 1);
        if let Some(c) = far {
            if let CellKind::Undefined = self.maze.cell_kind(&c) {
                proof {
                    lemma_put(self@.maze, c, CellKind::PathKind((d + 2) as i64));
                }
                self.maze.set_path(&c, d + 2);
                self.join(&c, d + 2);
            }
        }
        self.join(w, d + 1);
    }

    /// Takes a wall out of the lists.
    fn take(&mut self, pick: u64, side: u64) -> (w: Coord)
        requires
            old(self).backed(),
            old(self)@.maze.shaped(),
            !old(self)@.done(),
        ensures
            final(self).backed(),
            (w, final(self)@) == old(self)@.took(pick, side),
    {
        let bias = self.maze.vertical_bias();
        take_wall(&mut self.vwalls, &mut self.hwalls, pick, side, bias)
    }

    /// Tries the wall `w`, which was taken out of the lists, along its axis.
    fn open(&mut self, w: &Coord, turn: u64, coin: u8)
        requires
            old(self).backed(),
            old(self)@.inv_but(Some(*w)),
        ensures
            final(self).wf(),
            final(self)@ == old(self)@.opened(*w, turn, coin),
            final(self)@.fuel() <= old(self)@.fuel(),
            old(self)@.maze.same_frame(final(self)@.maze),
            final(self)@.maze.scale == old(self)@.maze.scale,
    {
        proof {
            lemma_prim_opened(self@, *w, turn, coin);
        }
        let bias = self.maze.vertical_bias();
        if let Some(dir) = wall_direction(w, turn, coin, bias) {
            let o1 = self.maze.get_coord_next(w, &dir);
            let o2 = self.maze.get_coord_next(w, &opposite(&dir));
            self.try_wall(w, o1, o2);
        }
    }

    /// Tries the wall `w`, with `o1` and `o2` the positions on its two sides.
    fn try_wall(&mut self, w: &Coord, o1: Option<Coord>, o2: Option<Coord>)
        requires
            old(self).backed(),
            old(self)@.inv_but(Some(*w)),
            o1 matches Some(c) ==> old(self)@.maze.holds(c),
            o2 matches Some(c) ==> old(self)@.maze.holds(c),
        ensures
            final(self).backed(),
            final(self)@ == old(self)@.tried(*w, o1, o2),
    {
        proof {
            assert(waits(self@.maze, *w));
            lemma_room_left(self@.maze, *w);
        }
        match (o1, o2) {
            (Some(c1), Some(c2)) => {
                proof {
                    assert(sound(self@.maze, c1.x as int, c1.y as int));
                    assert(sound(self@.maze, c2.x as int, c2.y as int));
                }
                if let CellKind::PathKind(d) = self.maze.cell_kind(&c1) {
                    if let CellKind::PathKind(_) = self.maze.cell_kind(&c2) {
                        return ;
                    }
                    self.connect(w, d, Some(c2));
                } else if let CellKind::PathKind(d) = self.maze.cell_kind(&c2) {
                    self.connect(w, d, Some(c1));
                }
            },
            (Some(c), None) => {
                proof {
                    assert(sound(self@.maze, c.x as int, c.y as int));
                }
                if let CellKind::PathKind(d) = self.maze.cell_kind(&c) {
                    self.connect(w, d, None);
                }
            },
            (None, Some(c)) => {
                proof {
                    assert(sound(self@.maze, c.x as int, c.y as int));
                }
                if let CellKind::PathKind(d) = self.maze.cell_kind(&c) {
                    self.connect(w, d, None);
                }
            },
            (None, None) => {},
        }
    }

    /// Starts generation on a maze to which nothing has happened yet: the
    /// origin is opened at 0 steps, and the walls around it wait.
    pub fn init(maze: Maze) -> (p: Prim)
        requires
            maze.wf(),
            maze@.pristine(),
        ensures
            p.wf(),
            p@ == PrimView::start(maze@),
            maze@.same_frame(p@.maze),
    {
        let start = maze.origin();
        let mut p = Prim { maze: maze, vwalls: Vec::new(), hwalls: Vec::new() };
        proof {
            lemma_prim_start(p@.maze);
            lemma_put(p@.maze, start, CellKind::PathKind(0));
        }
        p.maze.set_path(&start, 0);
        p.ring(&start);
        p
    }

    /// One step with the given draws: a wall is taken out of the lists and
    /// tried.
    pub fn step(&mut self, draws: &Draws)
        requires
            old(self).wf(),
            !old(self)@.done(),
        ensures
            final(self).wf(),
            final(self)@ == old(self)@.stepped(*draws),
            final(self)@.fuel() < old(self)@.fuel(),
            old(self)@.maze.same_frame(final(self)@.maze),
            final(self)@.maze.scale == old(self)@.maze.scale,
    {
        proof {
            lemma_prim_took(self@, draws.pick, draws.side);
        }
        let w = self.take(draws.pick, draws.side);
        self.open(&w, draws.turn, draws.coin);
    }

    /// The last step: closes the corners at which nothing is decided, and
    /// turns the counts of steps into shares of the maze's length.
    pub fn finish(&mut self)
        requires
            old(self).wf(),
        ensures
            final(self).wf(),
            final(self)@ == old(self)@.finished(),
            old(self)@.maze.same_frame(final(self)@.maze),
    {
        proof {
            lemma_prim_sealed(self@);
        }
        self.maze.seal(true);
        self.maze.read_as(Scale::Length);
    }

    /// Advances generation by one step, drawing at random, and says whether
    /// there was a step to make. When no wall waits the maze is finished
    /// instead.
    pub fn next(&mut self) -> (more: bool)
        requires
            old(self).wf(),
        ensures
            final(self).wf(),
            more == !old(self)@.done(),
            more ==> exists|draws: Draws| final(self)@ == old(self)@.stepped(draws),
            more ==> final(self)@.fuel() < old(self)@.fuel(),
            more ==> final(self)@.maze.scale == old(self)@.maze.scale,
            !more ==> final(self)@ == old(self)@.finished(),
            old(self)@.maze.same_frame(final(self)@.maze),
    {
        if self.vwalls.len() == 0 && self.hwalls.len() == 0 {
            self.finish();
            return false;
        }
        let pick = random_u64();
        let side = if self.vwalls.len() > 0 && self.hwalls.len() > 0 {
            random_u64()
        } else {
            0
        };
        proof {
            lemma_prim_took(self@, pick, side);
        }
        let w = self.take(pick, side);
        let turn = if w.x % 2 == 1 && w.y % 2 == 1 {
            random_u64()
        } else {
            0
        };
        let coin = if w.x % 2 == 0 && w.y % 2 == 0 {
            0
        } else {
            random_u8()
        };
        self.open(&w, turn, coin);
        proof {
            let draws = Draws { pick: pick, side: side, turn: turn, coin: coin };
            assert(self@ == old(self)@.stepped(draws));
        }
        true
    }
}

} // verus!
