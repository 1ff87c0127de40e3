//! The randomized algorithm of Kruskal.
//!
//! Every slot between two rooms waits in one of two lists from the start. Each
//! step takes one of them at random. Open cells carry the label of their
//! component; a slot between two components is opened and the second component
//! takes the label of the first, a slot inside one component stays closed. When
//! the lists are empty the counts of steps from the origin are spread over the
//! maze.

use crate::dice::{random_u64, random_u8, spec_wall_direction, wall_direction, Draws};
use crate::frontier::{take_wall, taken};
use crate::geometry::{opposite, Coord};
use crate::kruskal_proof::{
    lemma_closing, lemma_kruskal_opened, lemma_kruskal_start, lemma_kruskal_took,
};
use crate::lattice::{distinct, is_corner, is_path, is_slot, listed, slot_ends};
use crate::maze::{lemma_put, lemma_row_major, CellKind, Maze, MazeView, Scale, MAX_CELLS};
use crate::walks::linked;
use vstd::prelude::*;

verus! {

/// The mathematical content of a `Kruskal`: the maze, the slots that wait, and
/// the label that was given out last.
#[verifier::ext_equal]
pub ghost struct KruskalView {
    pub maze: MazeView,
    pub vwalls: Seq<Coord>,
    pub hwalls: Seq<Coord>,
    pub label: int,
}

/// The positions of a grid, row by row.
pub open spec fn positions(width: int, height: int) -> Seq<Coord> {
    Seq::new(
        (width * height) as nat,
        |i: int| Coord { x: (i % width) as usize, y: (i / width) as usize },
    )
}

/// Whether `c` is a slot between an upper and a lower room.
pub open spec fn is_vertical_slot(c: Coord) -> bool {
    c.x % 2 == 0 && c.y % 2 == 1
}

/// Whether `c` is a slot between a left and a right room.
pub open spec fn is_horizontal_slot(c: Coord) -> bool {
    c.x % 2 == 1 && c.y % 2 == 0
}

/// The slots between an upper and a lower room, row by row.
pub open spec fn vertical_slots(width: int, height: int) -> Seq<Coord> {
    positions(width, height).filter(|c: Coord| is_vertical_slot(c))
}

/// The slots between a left and a right room, row by row.
pub open spec fn horizontal_slots(width: int, height: int) -> Seq<Coord> {
    positions(width, height).filter(|c: Coord| is_horizontal_slot(c))
}

/// What a position may hold while components are joined: no wall, a corner
/// never open, and an open cell a label that was given out.
pub open spec fn labelled(p: KruskalView, x: int, y: int) -> bool {
    p.maze.inside(x, y) ==> match p.maze.at(x, y) {
        CellKind::WallKind => false,
        CellKind::PathKind(d) => !is_corner(x, y) && 0 <= d <= p.label,
        CellKind::Undefined => true,
    }
}

/// An open slot holds the label of the rooms it joins.
pub open spec fn level_slot(m: MazeView, x: int, y: int) -> bool {
    m.inside(x, y) && is_slot(x, y) && is_path(m.at(x, y)) ==> {
        let (a, b) = slot_ends(x, y);
        &&& m.inside(a.0, a.1) ==> m.at(a.0, a.1) == m.at(x, y)
        &&& m.inside(b.0, b.1) ==> m.at(b.0, b.1) == m.at(x, y)
    }
}

/// A slot that waits is undecided. A slot that was tried lies between two
/// rooms of one component, or, at the edge of the grid, is open.
pub open spec fn handled(p: KruskalView, x: int, y: int) -> bool {
    p.maze.inside(x, y) && is_slot(x, y) ==> if listed(p.vwalls, x, y) || listed(p.hwalls, x, y) {
        p.maze.at(x, y) == CellKind::Undefined
    } else {
        let (a, b) = slot_ends(x, y);
        if p.maze.inside(a.0, a.1) && p.maze.inside(b.0, b.1) {
            is_path(p.maze.at(a.0, a.1)) && p.maze.at(a.0, a.1) == p.maze.at(b.0, b.1)
        } else {
            is_path(p.maze.at(x, y))
        }
    }
}

/// Two open cells with one label are linked by a walk.
pub open spec fn united(m: MazeView, a: (int, int), b: (int, int)) -> bool {
    is_path(m.at(a.0, a.1)) && m.at(a.0, a.1) == m.at(b.0, b.1) ==> linked(m, a, b)
}

impl KruskalView {
    /// Whether no slot waits: the components are joined.
    pub open spec fn done(self) -> bool {
        self.vwalls.len() == 0 && self.hwalls.len() == 0
    }

    /// The number of steps still to come.
    pub open spec fn fuel(self) -> nat {
        self.vwalls.len() + self.hwalls.len()
    }

    /// The state in which generation starts on the pristine maze `m`: the
    /// origin is a component of its own, with the label 0, and every slot
    /// waits.
    pub open spec fn start(m: MazeView) -> KruskalView {
        KruskalView {
            maze: m.put(m.origin, CellKind::PathKind(0)),
            vwalls: vertical_slots(m.width, m.height),
            hwalls: horizontal_slots(m.width, m.height),
            label: 0,
        }
    }

    /// The state after the slot `w` and the rooms `c1` and `c2` were given
    /// the label `d`, the last label given out being `label` from then on.
    pub open spec fn painted(self, w: Coord, c1: Coord, c2: Coord, d: int, label: int) -> KruskalView {
        let k = CellKind::PathKind(d as i64);
        KruskalView { maze: self.maze.put(w, k).put(c1, k).put(c2, k), label: label, ..self }
    }

    /// The state after the slot `w` was opened with the label `d1` and that
    /// label was spread over the component of `c2`.
    pub open spec fn merged(self, w: Coord, d1: i64, c2: Coord) -> KruskalView {
        KruskalView {
            maze: self.maze.put(w, CellKind::PathKind(d1)).spread_label(d1, c2),
            ..self
        }
    }

    /// The state after the slot `w`, taken out of the lists, was tried, with
    /// `o1` and `o2` the positions on its two sides that the grid has.
    ///
    /// Between two components the slot is opened and the second takes the
    /// label of the first; inside one component it stays closed. Next to one
    /// component it is opened and what lies behind it joins that component.
    /// Where nothing is open on either side, the slot and what lies on its
    /// sides form a new component, with the next label.
    pub open spec fn tried(self, w: Coord, o1: Option<Coord>, o2: Option<Coord>) -> KruskalView {
        match (o1, o2) {
            (Some(c1), Some(c2)) => match (self.maze.kind(c1), self.maze.kind(c2)) {
                (CellKind::PathKind(d1), CellKind::PathKind(d2)) => if d1 != d2 {
                    self.merged(w, d1, c2)
                } else {
                    self
                },
                (CellKind::PathKind(d), CellKind::Undefined) => self.painted(
                    w,
                    c1,
                    c2,
                    d as int,
                    self.label,
                ),
                (CellKind::Undefined, CellKind::PathKind(d)) => self.painted(
                    w,
                    c1,
                    c2,
                    d as int,
                    self.label,
                ),
                (CellKind::Undefined, CellKind::Undefined) => self.painted(
                    w,
                    c1,
                    c2,
                    self.label + 1,
                    self.label + 1,
                ),
                _ => self,
            },
            (Some(c), None) => self.edged(w, c),
            (None, Some(c)) => self.edged(w, c),
            (None, None) => self,
        }
    }

    /// The state after the slot `w` at the edge of the grid, with only `c`
    /// beside it, was tried.
    pub open spec fn edged(self, w: Coord, c: Coord) -> KruskalView {
        match self.maze.kind(c) {
            CellKind::PathKind(d) => KruskalView {
                maze: self.maze.put(w, CellKind::PathKind(d)),
                ..self
            },
            CellKind::Undefined => self.painted(w, c, c, self.label + 1, self.label + 1),
            _ => self,
        }
    }

    /// The state after the slot `w`, taken out of the lists, was tried along
    /// its axis, in the direction that the draws give first.
    pub open spec fn opened(self, w: Coord, turn: u64, coin: u8) -> KruskalView {
        match spec_wall_direction(w, turn, coin, self.maze.bias) {
            None => self,
            Some(dir) => self.tried(w, self.maze.step(w, dir), self.maze.step(w, dir.reversed())),
        }
    }

    /// The slot that the draws take out of the lists, and the state without it.
    pub open spec fn took(self, pick: u64, side: u64) -> (Coord, KruskalView) {
        let (w, v, h) = taken(self.vwalls, self.hwalls, pick, side, self.maze.bias);
        (w, KruskalView { vwalls: v, hwalls: h, ..self })
    }

    /// The state after one step with the given draws.
    pub open spec fn stepped(self, draws: Draws) -> KruskalView {
        let (w, s) = self.took(draws.pick, draws.side);
        s.opened(w, draws.turn, draws.coin)
    }

    /// The maze from which the counts of steps are spread: every open cell
    /// marked as not reached, but the origin, which holds 0.
    pub open spec fn cleared(self) -> MazeView {
        self.maze.cleared().put(self.maze.origin, CellKind::PathKind(0))
    }

    /// The state after the counts of steps from the origin were spread over
    /// the open cells, and the end and the length were taken from the greatest
    /// count.
    pub open spec fn measured_out(self) -> KruskalView {
        let flood = self.cleared().flood_from(self.maze.origin, self.maze.len, self.maze.end);
        KruskalView { maze: flood.maze.stretch(flood.place, flood.best), ..self }
    }

    /// The state after the last step: the counts of steps from the origin were
    /// spread over the open cells, the end and the length were taken from the
    /// greatest count, whatever was undecided was closed, and the counts
    /// became shares of the length.
    pub open spec fn finished(self) -> KruskalView {
        let s = self.measured_out();
        KruskalView { maze: s.maze.sealed(false).read_as(Scale::Length), ..s }
    }

    /// Whether the slots in the lists are slots of the grid, each in its list
    /// and once.
    pub open spec fn queued_right(self) -> bool {
        &&& forall|i: int|
            0 <= i < self.vwalls.len() ==> self.maze.holds(#[trigger] self.vwalls[i])
                && is_vertical_slot(self.vwalls[i])
        &&& forall|i: int|
            0 <= i < self.hwalls.len() ==> self.maze.holds(#[trigger] self.hwalls[i])
                && is_horizontal_slot(self.hwalls[i])
        &&& distinct(self.vwalls)
        &&& distinct(self.hwalls)
    }

    /// What holds between two steps, but for the slot `hole`, if one is given:
    /// the slot that was taken out of the lists and not tried yet.
    pub open spec fn inv_but(self, hole: Option<Coord>) -> bool {
        let m = self.maze;
        &&& m.shaped()
        &&& m.scale == Scale::Steps
        &&& m.len == 0
        &&& self.queued_right()
        &&& forall|x: int, y: int| #[trigger] labelled(self, x, y)
        &&& forall|x: int, y: int| #[trigger] level_slot(m, x, y)
        &&& forall|x: int, y: int|
            #![trigger handled(self, x, y)]
            hole == Some(Coord { x: x as usize, y: y as usize }) || handled(self, x, y)
        &&& forall|a: (int, int), b: (int, int)| #[trigger] united(m, a, b)
        &&& is_path(m.kind(m.origin))
        &&& 0 <= self.label
        &&& self.label + self.vwalls.len() + self.hwalls.len() + (if hole is Some {
            1int
        } else {
            0int
        }) <= MAX_CELLS
        &&& match hole {
            Some(w) => m.holds(w) && is_slot(w.x as int, w.y as int) && m.kind(w)
                == CellKind::Undefined && !listed(self.vwalls, w.x as int, w.y as int) && !listed(
                self.hwalls,
                w.x as int,
                w.y as int,
            ),
            None => true,
        }
    }

    /// What holds between two steps.
    pub open spec fn inv(self) -> bool {
        self.inv_but(None)
    }
}

/// The generator: a maze under construction, the slots that wait, and the
/// label given out last.
pub struct Kruskal {
    maze: Maze,
    vwalls: Vec<Coord>,
    hwalls: Vec<Coord>,
    f: i64,
    finished: bool,
}

impl View for Kruskal {
    type V = KruskalView;

    closed spec fn view(&self) -> KruskalView {
        KruskalView {
            maze: self.maze@,
            vwalls: self.vwalls@,
            hwalls: self.hwalls@,
            label: self.f as int,
        }
    }
}

impl Kruskal {
    /// Whether the maze is stored as the view says.
    pub closed spec fn backed(&self) -> bool {
        self.maze.backed()
    }

    /// Whether the last step was made.
    pub closed spec fn closed(&self) -> bool {
        self.finished
    }

    /// The invariant of the generator: while it runs, what holds between two
    /// steps; after the last step, a maze in its frame.
    pub open spec fn wf(&self) -> bool {
        self.backed() && if self.closed() {
            self@.maze.shaped() && self@.done()
        } else {
            self@.inv()
        }
    }

    /// The maze as it stands.
    pub fn maze(&self) -> (m: &Maze)
        requires
            self.wf(),
        ensures
            m.wf(),
            m@ == self@.maze,
    {
        &self.maze
    }

    /// Whether no slot waits.
    pub fn is_done(&self) -> (b: bool)
        ensures
            b == self@.done(),
    {
        self.vwalls.len() == 0 && self.hwalls.len() == 0
    }

    /// Whether the last step was made.
    pub fn is_closed(&self) -> (b: bool)
        ensures
            b == self.closed(),
    {
        self.finished
    }

    /// Gives the maze back.
    pub fn into_maze(self) -> (m: Maze)
        requires
            self.wf(),
        ensures
            m.wf(),
            m@ == self@.maze,
    {
        self.maze
    }

    /// Starts generation on a maze to which nothing has happened yet: lists
    /// every slot, row by row, and opens the origin with the label 0.
    pub fn init(maze: Maze) -> (k: Kruskal)
        requires
            maze.wf(),
            maze@.pristine(),
        ensures
            k.wf(),
            !k.closed(),
            k@ == KruskalView::start(maze@),
            maze@.same_frame(k@.maze),
    {
        let g = maze.geometry();
        let mut vwalls: Vec<Coord> = Vec::new();
        let mut hwalls: Vec<Coord> = Vec::new();
        let ghost all = positions(g.width as int, g.height as int);
        let ghost pv = |c: Coord| is_vertical_slot(c);
        let ghost ph = |c: Coord| is_horizontal_slot(c);
        let mut y: usize = 0;
        proof {
            assert(all.take(0) =~= Seq::<Coord>::empty());
            assert(0 * g.width == 0) by (nonlinear_arith);
        }
        while y < g.height
            invariant
                y <= g.height,
                g.width == maze@.width,
                g.height == maze@.height,
                maze@.shaped(),
                all == positions(g.width as int, g.height as int),
                pv == (|c: Coord| is_vertical_slot(c)),
                ph == (|c: Coord| is_horizontal_slot(c)),
                0 <= y * g.width <= g.width * g.height,
                vwalls@ == all.take(y * g.width).filter(pv),
                hwalls@ == all.take(y * g.width).filter(ph),
            decreases g.height - y,
        {
            let mut x: usize = 0;
            while x < g.width
                invariant
                    x <= g.width,
                    y < g.height,
                    g.width == maze@.width,
                    g.height == maze@.height,
                    maze@.shaped(),
                    all == positions(g.width as int, g.height as int),
                    pv == (|c: Coord| is_vertical_slot(c)),
                    ph == (|c: Coord| is_horizontal_slot(c)),
                    0 <= y * g.width + x <= g.width * g.height,
                    vwalls@ == all.take(y * g.width + x).filter(pv),
                    hwalls@ == all.take(y * g.width + x).filter(ph),
                decreases g.width - x,
            {
                proof {
                    let i = y * g.width + x;
                    lemma_row_major(g.width as int, g.height as int, x as int, y as int);
                    assert(all[i] == Coord { x: x, y: y });
                    assert(all.take(i + 1).drop_last() =~= all.take(i));
                    assert(all.take(i + 1).last() == all[i]);
                    reveal(Seq::filter);
                }
                if x % 2 == 0 && y % 2 == 1 {
                    vwalls.push(Coord { x: x, y: y });
                } else if x % 2 == 1 && y % 2 == 0 {
                    hwalls.push(Coord { x: x, y: y });
                }
                x = x + 1;
            }
            proof {
                assert((y + 1) * g.width == y * g.width + g.width) by (nonlinear_arith);
            }
            y = y + 1;
        }
        proof {
            assert(all.take(g.height * g.width) =~= all) by {
                assert(g.height * g.width == g.width * g.height) by (nonlinear_arith);
            }
        }
        let origin = maze.origin();
        let mut k = Kruskal { maze: maze, vwalls: vwalls, hwalls: hwalls, f: 0, finished: false };
        proof {
            lemma_kruskal_start(k@.maze);
            lemma_put(k@.maze, origin, CellKind::PathKind(0));
        }
        k.maze.set_path(&origin, 0);
        k
    }

    /// Spreads the label `f` from the open cell `o` over its component.
    fn set_path_value(&mut self, f: i64, o: &Coord)
        requires
            old(self).backed(),
            old(self)@.maze.shaped(),
            old(self)@.maze.holds(*o),
            is_path(old(self)@.maze.kind(*o)),
        ensures
            final(self).backed(),
            final(self).closed() == old(self).closed(),
            final(self)@ == (KruskalView { maze: old(self)@.maze.spread_label(f, *o), ..old(self)@ }),
    {
        self.maze.relabel(f, o);
    }

    /// Spreads the counts of steps from the origin over the open cells, and
    /// takes the end and the length from the greatest count.
    fn find_end(&mut self)
        requires
            old(self).backed(),
            old(self)@.maze.shaped(),
        ensures
            final(self).backed(),
            final(self).closed() == old(self).closed(),
            final(self)@.maze.shaped(),
            old(self)@.maze.same_frame(final(self)@.maze),
            final(self)@ == old(self)@.measured_out(),
    {
        let ghost before = self@;
        self.maze.clear_path();
        let origin = self.maze.origin();
        proof {
            assert forall|x: int, y: int| #[trigger]
                self@.maze.grid.dom().contains((x, y)) <==> self@.maze.inside(x, y) by {}
            lemma_put(self@.maze, origin, CellKind::PathKind(0));
        }
        self.maze.set_path(&origin, 0);
        let longest = self.maze.len();
        let farthest = self.maze.end();
        let (best, place) = self.maze.flood(&origin, longest, farthest);
        self.maze.stretch(&place, best);
    }

    /// Tries the slot `w`, with `o1` and `o2` the positions on its two sides.
    fn connect(&mut self, w: &Coord, o1: Option<Coord>, o2: Option<Coord>)
        requires
            old(self).backed(),
            !old(self).closed(),
            old(self)@.inv_but(Some(*w)),
            o1 matches Some(c) ==> old(self)@.maze.holds(c),
            o2 matches Some(c) ==> old(self)@.maze.holds(c),
        ensures
            final(self).backed(),
            !final(self).closed(),
            final(self)@ == old(self)@.tried(*w, o1, o2),
    {
        match (o1, o2) {
            (Some(c1), Some(c2)) => {
                match (self.maze.cell_kind(&c1), self.maze.cell_kind(&c2)) {
                    (CellKind::PathKind(d1), CellKind::PathKind(d2)) => {
                        if d1 != d2 {
                            proof {
                                lemma_put(self@.maze, *w, CellKind::PathKind(d1));
                            }
                            self.maze.set_path(w, d1);
                            self.set_path_value(d1, &c2);
                        }
                    },
                    (CellKind::PathKind(d), CellKind::Undefined) => {
                        self.paint(w, &c1, &c2, d);
                    },
                    (CellKind::Undefined, CellKind::PathKind(d)) => {
                        self.paint(w, &c1, &c2, d);
                    },
                    (CellKind::Undefined, CellKind::Undefined) => {
                        self.f = self.f + 1;
                        let f = self.f;
                        self.paint(w, &c1, &c2, f);
                    },
                    (_, _) => {},
                }
            },
            (Some(c), None) => {
                self.connect_edge(w, &c);
            },
            (None, Some(c)) => {
                self.connect_edge(w, &c);
            },
            (None, None) => {},
        }
    }

    /// Tries the slot `w` at the edge of the grid, with only `c` beside it.
    fn connect_edge(&mut self, w: &Coord, c: &Coord)
        requires
            old(self).backed(),
            !old(self).closed(),
            old(self)@.inv_but(Some(*w)),
            old(self)@.maze.holds(*c),
        ensures
            final(self).backed(),
            !final(self).closed(),
            final(self)@ == old(self)@.edged(*w, *c),
    {
        if let CellKind::PathKind(d) = self.maze.cell_kind(c) {
            self.maze.set_path(w, d);
        } else if let CellKind::Undefined = self.maze.cell_kind(c) {
            self.f = self.f + 1;
            let f = self.f;
            self.paint(w, c, c, f);
        }
    }

    /// Gives the slot `w` and the positions `c1` and `c2` the label `d`.
    fn paint(&mut self, w: &Coord, c1: &Coord, c2: &Coord, d: i64)
        requires
            old(self).backed(),
            old(self)@.maze.shaped(),
            old(self)@.maze.holds(*w),
            old(self)@.maze.holds(*c1),
            old(self)@.maze.holds(*c2),
        ensures
            final(self).backed(),
            final(self).closed() == old(self).closed(),
            final(self)@ == old(self)@.painted(*w, *c1, *c2, d as int, old(self)@.label),
    {
        proof {
            let k = CellKind::PathKind(d);
            lemma_put(self@.maze, *w, k);
            lemma_put(self@.maze.put(*w, k), *c1, k);
            lemma_put(self@.maze.put(*w, k).put(*c1, k), *c2, k);
        }
        self.maze.set_path(w, d);
        self.maze.set_path(c1, d);
        self.maze.set_path(c2, d);
    }

    /// Takes a slot out of the lists.
    fn take(&mut self, pick: u64, side: u64) -> (w: Coord)
        requires
            old(self).backed(),
            old(self)@.maze.shaped(),
            !old(self)@.done(),
        ensures
            final(self).backed(),
            final(self).closed() == old(self).closed(),
            (w, final(self)@) == old(self)@.took(pick, side),
    {
        let bias = self.maze.vertical_bias();
        take_wall(&mut self.vwalls, &mut self.hwalls, pick, side, bias)
    }

    /// Tries the slot `w`, which was taken out of the lists, along its axis.
    fn open(&mut self, w: &Coord, turn: u64, coin: u8)
        requires
            old(self).backed(),
            !old(self).closed(),
            old(self)@.inv_but(Some(*w)),
        ensures
            final(self).wf(),
            !final(self).closed(),
            final(self)@ == old(self)@.opened(*w, turn, coin),
            final(self)@.fuel() == old(self)@.fuel(),
            old(self)@.maze.same_frame(final(self)@.maze),
    {
        proof {
            lemma_kruskal_opened(self@, *w, turn, coin);
        }
        let bias = self.maze.vertical_bias();
        if let Some(dir) = wall_direction(w, turn, coin, bias) {
            let o1 = self.maze.get_coord_next(w, &dir);
            let o2 = self.maze.get_coord_next(w, &opposite(&dir));
            self.connect(w, o1, o2);
        }
    }

    /// One step with the given draws: a slot is taken out of the lists and
    /// tried.
    pub fn step(&mut self, draws: &Draws)
        requires
            old(self).wf(),
            !old(self).closed(),
            !old(self)@.done(),
        ensures
            final(self).wf(),
            !final(self).closed(),
            final(self)@ == old(self)@.stepped(*draws),
            final(self)@.fuel() < old(self)@.fuel(),
            old(self)@.maze.same_frame(final(self)@.maze),
    {
        proof {
            lemma_kruskal_took(self@, draws.pick, draws.side);
        }
        let w = self.take(draws.pick, draws.side);
        self.open(&w, draws.turn, draws.coin);
    }

    /// The last step: spreads the counts of steps from the origin, closes
    /// whatever is undecided, and turns the counts into shares of the maze's
    /// length.
    pub fn finish(&mut self)
        requires
            old(self).wf(),
            !old(self).closed(),
            old(self)@.done(),
        ensures
            final(self).wf(),
            final(self).closed(),
            final(self)@ == old(self)@.finished(),
            old(self)@.maze.same_frame(final(self)@.maze),
    {
        self.find_end();
        proof {
            lemma_closing(self@.maze);
        }
        self.maze.seal(false);
        self.maze.read_as(Scale::Length);
        self.finished = true;
    }

    /// Advances generation by one step, drawing at random, and says whether
    /// there was a step to make. When no slot waits, the last step is made
    /// instead; after that nothing changes any more.
    pub fn next(&mut self) -> (more: bool)
        requires
            old(self).wf(),
        ensures
            final(self).wf(),
            more == !old(self)@.done(),
            more ==> !final(self).closed() && exists|draws: Draws|
                final(self)@ == old(self)@.stepped(draws),
            more ==> final(self)@.fuel() < old(self)@.fuel(),
            !more ==> final(self).closed(),
            !more && !old(self).closed() ==> final(self)@ == old(self)@.finished(),
            !more && old(self).closed() ==> final(self)@ == old(self)@,
            old(self)@.maze.same_frame(final(self)@.maze),
    {
        if self.vwalls.len() == 0 && self.hwalls.len() == 0 {
            if !self.finished {
                self.finish();
            }
            return false;
        }
        let pick = random_u64();
        let side = if self.vwalls.len() > 0 && self.hwalls.len() > 0 {
            random_u64()
        } else {
            0
        };
        proof {
            lemma_kruskal_took(self@, pick, side);
        }
        let w = self.take(pick, side);
        let turn = if w.x % 2 == 1 && w.y % 2 == 1 {
            random_u64()
        } else {
            0
        };
        let coin = if w.x % 2 == 0 && w.y % 2 == 0 {
            0
        } else {
            random_u8()
        };
        self.open(&w, turn, coin);
        proof {
            let draws = Draws { pick: pick, side: side, turn: turn, coin: coin };
            assert(self@ == old(self)@.stepped(draws));
        }
        true
    }
}

} // verus!
