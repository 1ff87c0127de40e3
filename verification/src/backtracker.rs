//! The recursive backtracker, with a stack of its own in place of recursion.
//!
//! The walk starts at the origin. At each step it moves to a room two positions
//! away at which nothing is decided, chosen at random, and opens the slot in
//! between; where there is no such room it goes back along the stack until
//! there is. When the stack is empty the maze is complete.

use crate::dice::{pick_index, random_u64};
use crate::geometry::{Coord, Direction};
use crate::lattice::{
    blanks, is_corner, is_path, is_room, is_slot, open_rooms, open_slots, paths, slot_ends,
};
use crate::maze::{
    lemma_count_agree, lemma_count_bound, lemma_count_put, lemma_count_zero, lemma_put, CellKind,
    Maze, MazeView, Scale, MAX_CELLS,
};
use crate::walks::{
    all_rooted, connected, counts_kept, lemma_rooted_connected, parented, peaked, resolved, rooted,
    settled,
};
use vstd::prelude::*;

verus! {

/// The mathematical content of a `Backtracker`.
#[verifier::ext_equal]
pub ghost struct BacktrackerView {
    pub maze: MazeView,
    /// Where the walk stands.
    pub at: Coord,
    /// The rooms to go back to, the latest last.
    pub stack: Seq<Coord>,
    /// The count of steps of the room where the walk stands.
    pub steps: int,
    /// Whether all that is left to do is the last step.
    pub closing: bool,
}

/// The position two steps from `c` in direction `dir`, if the grid has it.
pub open spec fn twice(m: MazeView, c: Coord, dir: Direction) -> Option<Coord> {
    match m.step(c, dir) {
        Some(n) => m.step(n, dir),
        None => None,
    }
}

/// The position two steps from `c` in direction `dir`, alone in a sequence,
/// if the grid has it and nothing is decided there.
pub open spec fn unvisited_towards(m: MazeView, c: Coord, dir: Direction) -> Seq<Coord> {
    match twice(m, c, dir) {
        Some(n) => if m.kind(n) == CellKind::Undefined {
            seq![n]
        } else {
            Seq::empty()
        },
        None => Seq::empty(),
    }
}

/// The rooms next to `c` at which nothing is decided: up, down, left, right.
pub open spec fn unvisited_around(m: MazeView, c: Coord) -> Seq<Coord> {
    unvisited_towards(m, c, Direction::Up) + unvisited_towards(m, c, Direction::Down)
        + unvisited_towards(m, c, Direction::Left) + unvisited_towards(m, c, Direction::Right)
}

/// The position half way between `a` and `b`.
pub open spec fn midpoint(a: Coord, b: Coord) -> Coord {
    Coord { x: ((a.x + b.x) / 2) as usize, y: ((a.y + b.y) / 2) as usize }
}

/// What a position may hold: no wall before the last step, a corner never
/// open, and an open cell a count of steps that is at most the maze's length
/// and is 0 at the origin only.
pub open spec fn tidy(m: MazeView, x: int, y: int) -> bool {
    m.inside(x, y) ==> match m.at(x, y) {
        CellKind::WallKind => m.scale != Scale::Steps,
        CellKind::PathKind(d) => !is_corner(x, y) && 0 <= d <= m.len && (d == 0 ==> x
            == m.origin.x && y == m.origin.y),
        CellKind::Undefined => true,
    }
}

/// An open slot lies between two open rooms.
pub open spec fn bridged(m: MazeView, x: int, y: int) -> bool {
    m.inside(x, y) && is_slot(x, y) && is_path(m.at(x, y)) ==> {
        let (a, b) = slot_ends(x, y);
        is_path(m.at(a.0, a.1)) && is_path(m.at(b.0, b.1))
    }
}

/// Whether `c` is an open room of the grid.
pub open spec fn open_room(m: MazeView, c: Coord) -> bool {
    m.holds(c) && is_room(c.x as int, c.y as int) && is_path(m.kind(c))
}

impl BacktrackerView {
    /// What bounds the number of steps still to come: every step lowers it.
    pub open spec fn fuel(self) -> nat {
        2 * self.maze.count(blanks()) + self.stack.len() + if self.closing {
            0nat
        } else {
            1nat
        }
    }

    /// The state in which the walk starts on the pristine maze `m`.
    pub open spec fn start(m: MazeView) -> BacktrackerView {
        BacktrackerView {
            maze: MazeView { len: 0, ..m.put(m.origin, CellKind::PathKind(0)) },
            at: m.origin,
            stack: Seq::empty(),
            steps: 0,
            closing: false,
        }
    }

    /// The state after the walk went one room back along the stack.
    pub open spec fn popped(self) -> BacktrackerView {
        let n = self.stack.last();
        BacktrackerView {
            at: n,
            steps: match self.maze.kind(n) {
                CellKind::PathKind(d) => d as int,
                _ => self.steps,
            },
            stack: self.stack.drop_last(),
            ..self
        }
    }

    /// The state after the walk went back to the latest room from which it can
    /// go on, or to the bottom of the stack.
    pub open spec fn retreated(self) -> BacktrackerView
        decreases self.stack.len(),
    {
        if unvisited_around(self.maze, self.at).len() > 0 || self.stack.len() == 0 {
            self
        } else {
            self.popped().retreated()
        }
    }

    /// The state after the walk moved to the room `n`, opening the slot on the
    /// way.
    pub open spec fn carved(self, n: Coord) -> BacktrackerView {
        let w = midpoint(n, self.at);
        let far = self.steps + 2;
        BacktrackerView {
            maze: self.maze.put(w, CellKind::PathKind((self.steps + 1) as i64)).put(
                n,
                CellKind::PathKind(far as i64),
            ).stretch(n, far),
            at: n,
            stack: self.stack.push(n),
            steps: far,
            closing: self.closing,
        }
    }

    /// The state after one step with the given draw: the walk goes back as far
    /// as it must and then moves to the room that the draw picks; if it has come
    /// to the bottom of the stack and cannot move, only the last step is left.
    pub open spec fn stepped(self, pick: u64) -> BacktrackerView {
        let r = self.retreated();
        let rooms = unvisited_around(r.maze, r.at);
        if rooms.len() == 0 {
            BacktrackerView { closing: true, ..r }
        } else {
            r.carved(rooms[pick as int % rooms.len() as int])
        }
    }

    /// The state after the last step: whatever is undecided is closed, and the
    /// counts of steps become shares of the length.
    pub open spec fn finished(self) -> BacktrackerView {
        BacktrackerView { maze: self.maze.sealed(false).read_as(Scale::Length), ..self }
    }

    /// What holds between two steps.
    pub open spec fn inv(self) -> bool {
        let m = self.maze;
        &&& m.shaped()
        &&& open_room(m, self.at)
        &&& 0 <= self.steps <= m.len
        &&& m.kind(self.at) == CellKind::PathKind(self.steps as i64)
        &&& forall|i: int| 0 <= i < self.stack.len() ==> open_room(m, #[trigger] self.stack[i])
        &&& forall|x: int, y: int| #[trigger] tidy(m, x, y)
        &&& forall|x: int, y: int| #[trigger] bridged(m, x, y)
        &&& forall|x: int, y: int| #[trigger] parented(m, x, y)
        &&& m.kind(m.origin) == CellKind::PathKind(0)
        &&& m.len + 1 <= m.count(paths())
        &&& m.count(open_rooms()) == m.count(open_slots()) + 1
        &&& m.len > 0 ==> m.kind(m.end) == CellKind::PathKind(m.len as i64)
        &&& !self.closing ==> m.scale == Scale::Steps
        &&& self.closing ==> self.stack.len() == 0 && (m.scale == Scale::Steps ==> unvisited_around(
            m,
            self.at,
        ).len() == 0)
    }
}

/// Going back one room keeps the invariant.
pub proof fn lemma_backtracker_popped(p: BacktrackerView)
    requires
        p.inv(),
        !p.closing,
        p.stack.len() > 0,
    ensures
        p.popped().inv(),
        p.popped().fuel() + 1 == p.fuel(),
{
    let q = p.popped();
    assert(open_room(p.maze, p.stack[p.stack.len() - 1]));
    assert(tidy(p.maze, p.stack.last().x as int, p.stack.last().y as int));
    assert forall|i: int| 0 <= i < q.stack.len() implies open_room(q.maze, #[trigger] q.stack[i]) by {
        assert(q.stack[i] == p.stack[i]);
    }
}

/// Going back as far as the walk must keeps the invariant, and ends either
/// where the walk can go on or at the bottom of the stack.
pub proof fn lemma_backtracker_retreated(p: BacktrackerView)
    requires
        p.inv(),
        !p.closing,
    ensures
        p.retreated().inv(),
        !p.retreated().closing,
        p.retreated().maze == p.maze,
        p.retreated().fuel() <= p.fuel(),
        unvisited_around(p.maze, p.retreated().at).len() > 0 || p.retreated().stack.len() == 0,
    decreases p.stack.len(),
{
    if !(unvisited_around(p.maze, p.at).len() > 0 || p.stack.len() == 0) {
        lemma_backtracker_popped(p);
        lemma_backtracker_retreated(p.popped());
    }
}

/// The rooms to which the walk can move from an open room: each on the grid,
/// a room, undecided, two steps away, with the slot in between on the grid.
pub proof fn lemma_backtracker_unvisited(m: MazeView, c: Coord)
    requires
        m.shaped(),
        m.holds(c),
        is_room(c.x as int, c.y as int),
    ensures
        unvisited_around(m, c).len() <= 4,
        forall|i: int|
            0 <= i < unvisited_around(m, c).len() ==> {
                let n = #[trigger] unvisited_around(m, c)[i];
                let w = midpoint(n, c);
                &&& m.holds(n)
                &&& m.kind(n) == CellKind::Undefined
                &&& is_room(n.x as int, n.y as int)
                &&& m.holds(w)
                &&& is_slot(w.x as int, w.y as int)
                &&& n != c && w != n && w != c
                &&& (((c.x as int, c.y as int), (n.x as int, n.y as int)) == slot_ends(
                    w.x as int,
                    w.y as int,
                ) || ((n.x as int, n.y as int), (c.x as int, c.y as int)) == slot_ends(
                    w.x as int,
                    w.y as int,
                ))
            },
{
    let up = unvisited_towards(m, c, Direction::Up);
    let down = unvisited_towards(m, c, Direction::Down);
    let left = unvisited_towards(m, c, Direction::Left);
    let right = unvisited_towards(m, c, Direction::Right);
    let all = unvisited_around(m, c);
    assert forall|i: int| 0 <= i < all.len() implies {
        let n = #[trigger] all[i];
        let w = midpoint(n, c);
        &&& m.holds(n)
        &&& m.kind(n) == CellKind::Undefined
        &&& is_room(n.x as int, n.y as int)
        &&& m.holds(w)
        &&& is_slot(w.x as int, w.y as int)
        &&& n != c && w != n && w != c
        &&& (((c.x as int, c.y as int), (n.x as int, n.y as int)) == slot_ends(
            w.x as int,
            w.y as int,
        ) || ((n.x as int, n.y as int), (c.x as int, c.y as int)) == slot_ends(
            w.x as int,
            w.y as int,
        ))
    } by {
        let n = all[i];
        if i < up.len() {
            assert(n == up[i]);
        } else if i < up.len() + down.len() {
            assert(n == down[i - up.len()]);
        } else if i < up.len() + down.len() + left.len() {
            assert(n == left[i - up.len() - down.len()]);
        } else {
            assert(n == right[i - up.len() - down.len() - left.len()]);
        }
    }
}

/// Whether the walk of `p` can move to the room `n`.
pub open spec fn can_carve(p: BacktrackerView, n: Coord) -> bool {
    &&& p.inv()
    &&& !p.closing
    &&& exists|i: int|
        0 <= i < unvisited_around(p.maze, p.at).len() && #[trigger] unvisited_around(p.maze, p.at)[i]
            == n
}

/// How the state `f` after the walk moved to `n` relates to the state `p`
/// before.
pub open spec fn carve_shape(p: BacktrackerView, n: Coord, f: BacktrackerView) -> bool {
    let m = p.maze;
    let w = midpoint(n, p.at);
    let far = p.steps + 2;
    &&& f.maze.shaped()
    &&& f.maze == (MazeView { grid: f.maze.grid, len: f.maze.len, end: f.maze.end, ..m })
    &&& f.maze.len == if m.len < far {
        far
    } else {
        m.len
    }
    &&& f.maze.end == if m.len < far {
        n
    } else {
        m.end
    }
    &&& forall|x: int, y: int| #[trigger]
        f.maze.at(x, y) == if x == n.x && y == n.y {
            CellKind::PathKind(far as i64)
        } else if x == w.x && y == w.y {
            CellKind::PathKind((far - 1) as i64)
        } else {
            m.at(x, y)
        }
    &&& f.maze.count(paths()) == m.count(paths()) + 2
    &&& f.maze.count(open_rooms()) == m.count(open_rooms()) + 1
    &&& f.maze.count(open_slots()) == m.count(open_slots()) + 1
    &&& f.maze.count(blanks()) + 2 == m.count(blanks())
    &&& m.kind(w) == CellKind::Undefined
    &&& m.kind(n) == CellKind::Undefined
    &&& m.holds(w) && m.holds(n) && is_slot(w.x as int, w.y as int) && is_room(
        n.x as int,
        n.y as int,
    )
    &&& ((p.at.x as int, p.at.y as int), (n.x as int, n.y as int)) == slot_ends(
        w.x as int,
        w.y as int,
    ) || ((n.x as int, n.y as int), (p.at.x as int, p.at.y as int)) == slot_ends(
        w.x as int,
        w.y as int,
    )
    &&& 0 <= p.steps
    &&& far <= MAX_CELLS
}

/// What a move does to the grid and the counts.
pub proof fn lemma_backtracker_carve_shape(p: BacktrackerView, n: Coord)
    requires
        can_carve(p, n),
    ensures
        carve_shape(p, n, p.carved(n)),
{
    let m = p.maze;
    let c = p.at;
    let w = midpoint(n, c);
    let far = p.steps + 2;
    let f = p.carved(n);
    lemma_backtracker_unvisited(m, c);
    let i = choose|i: int|
        0 <= i < unvisited_around(m, c).len() && #[trigger] unvisited_around(m, c)[i] == n;
    assert(m.holds(n) && m.kind(n) == CellKind::Undefined && m.holds(w));
    assert(bridged(m, w.x as int, w.y as int));
    assert(tidy(m, w.x as int, w.y as int));
    assert(tidy(m, c.x as int, c.y as int));
    assert(m.kind(w) == CellKind::Undefined);
    let k1 = CellKind::PathKind((far - 1) as i64);
    let k2 = CellKind::PathKind(far as i64);
    let m1 = m.put(w, k1);
    lemma_put(m, w, k1);
    lemma_count_put(m, w, k1, paths());
    lemma_count_put(m, w, k1, open_rooms());
    lemma_count_put(m, w, k1, open_slots());
    lemma_count_put(m, w, k1, blanks());
    let m2 = m1.put(n, k2);
    lemma_put(m1, n, k2);
    lemma_count_put(m1, n, k2, paths());
    lemma_count_put(m1, n, k2, open_rooms());
    lemma_count_put(m1, n, k2, open_slots());
    lemma_count_put(m1, n, k2, blanks());
    lemma_count_bound(m2, paths());
    assert forall|x: int, y: int| #[trigger]
        f.maze.at(x, y) == if x == n.x && y == n.y {
            k2
        } else if x == w.x && y == w.y {
            k1
        } else {
            m.at(x, y)
        } by {
        let a2 = m2.at(x, y);
        let a1 = m1.at(x, y);
    }
    assert(f.maze =~= (MazeView { grid: f.maze.grid, len: f.maze.len, end: f.maze.end, ..m }));
}

/// A move keeps the invariant and lowers the fuel.
pub proof fn lemma_backtracker_carved(p: BacktrackerView, n: Coord)
    requires
        can_carve(p, n),
    ensures
        p.carved(n).inv(),
        p.carved(n).fuel() < p.fuel(),
        p.maze.same_frame(p.carved(n).maze),
        p.carved(n).maze.scale == p.maze.scale,
        settled(p.maze, p.carved(n).maze),
        counts_kept(p.maze, p.carved(n).maze),
{
    let m = p.maze;
    let c = p.at;
    let w = midpoint(n, c);
    let f = p.carved(n);
    lemma_backtracker_carve_shape(p, n);
    assert(carve_shape(p, n, f));
    assert(tidy(m, c.x as int, c.y as int));
    assert forall|i: int| 0 <= i < f.stack.len() implies open_room(f.maze, #[trigger] f.stack[i]) by {
        if i < p.stack.len() {
            assert(open_room(m, p.stack[i]));
            assert(f.stack[i] == p.stack[i]);
        }
        let k = f.maze.at(f.stack[i].x as int, f.stack[i].y as int);
    }
    assert forall|x: int, y: int| #[trigger] tidy(f.maze, x, y) by {
        assert(tidy(m, x, y));
        let k = f.maze.at(x, y);
    }
    assert forall|x: int, y: int| #[trigger] bridged(f.maze, x, y) by {
        assert(bridged(m, x, y));
        let (a, b) = slot_ends(x, y);
        let k = f.maze.at(x, y);
        let ka = f.maze.at(a.0, a.1);
        let kb = f.maze.at(b.0, b.1);
    }
    assert forall|x: int, y: int| #[trigger] parented(f.maze, x, y) by {
        assert(parented(m, x, y));
        let k = f.maze.at(x, y);
        let k1 = f.maze.at(x - 1, y);
        let k2 = f.maze.at(x + 1, y);
        let k3 = f.maze.at(x, y - 1);
        let k4 = f.maze.at(x, y + 1);
        let kc = f.maze.at(c.x as int, c.y as int);
        let kw = f.maze.at(w.x as int, w.y as int);
    }
    let ko = f.maze.at(m.origin.x as int, m.origin.y as int);
    let ke = f.maze.at(m.end.x as int, m.end.y as int);
    let kn = f.maze.at(n.x as int, n.y as int);
}

/// A step of the backtracker undoes nothing: what was decided stays decided,
/// and every open cell keeps its count of steps. The invariant holds after
/// the step, and the fuel is lower.
pub proof fn lemma_backtracker_step(p: BacktrackerView, pick: u64)
    requires
        p.inv(),
        !p.closing,
    ensures
        p.stepped(pick).inv(),
        p.stepped(pick).fuel() < p.fuel(),
        settled(p.maze, p.stepped(pick).maze),
        counts_kept(p.maze, p.stepped(pick).maze),
        p.maze.same_frame(p.stepped(pick).maze),
{
    lemma_backtracker_retreated(p);
    let r = p.retreated();
    let rooms = unvisited_around(r.maze, r.at);
    if rooms.len() > 0 {
        let n = rooms[pick as int % rooms.len() as int];
        assert(can_carve(r, n));
        lemma_backtracker_carved(r, n);
    }
}

/// The walk starts in a state that has the invariant.
pub proof fn lemma_backtracker_start(m: MazeView)
    requires
        m.shaped(),
        m.pristine(),
    ensures
        BacktrackerView::start(m).inv(),
{
    let o = m.origin;
    let k = CellKind::PathKind(0);
    let s = BacktrackerView::start(m);
    lemma_put(m, o, k);
    assert forall|x: int, y: int| m.inside(x, y) implies !#[trigger] paths()(x, y, m.at(x, y)) by {}
    assert forall|x: int, y: int| m.inside(x, y) implies !#[trigger] open_rooms()(x, y, m.at(x, y)) by {}
    assert forall|x: int, y: int| m.inside(x, y) implies !#[trigger] open_slots()(x, y, m.at(x, y)) by {}
    lemma_count_zero(m, paths());
    lemma_count_zero(m, open_rooms());
    lemma_count_zero(m, open_slots());
    lemma_count_put(m, o, k, paths());
    lemma_count_put(m, o, k, open_rooms());
    lemma_count_put(m, o, k, open_slots());
    assert forall|x: int, y: int| #[trigger]
        s.maze.at(x, y) == if x == o.x && y == o.y {
            k
        } else {
            CellKind::Undefined
        } by {
        let a = m.at(x, y);
        let b = m.put(o, k).at(x, y);
    }
    assert forall|x: int, y: int|
        #![trigger s.maze.grid.dom().contains((x, y))]
        s.maze.grid.dom().contains((x, y)) <==> s.maze.inside(x, y) by {
        assert(m.put(o, k).grid.dom().contains((x, y)) <==> m.put(o, k).inside(x, y));
    }
    assert(s.maze.shaped());
    assert(s.maze.count(paths()) == m.put(o, k).count(paths()));
    assert forall|x: int, y: int| #[trigger] tidy(s.maze, x, y) by {
        let a = s.maze.at(x, y);
    }
    assert forall|x: int, y: int| #[trigger] bridged(s.maze, x, y) by {
        let a = s.maze.at(x, y);
    }
    assert forall|x: int, y: int| #[trigger] parented(s.maze, x, y) by {
        let a = s.maze.at(x, y);
    }
}

/// The last step keeps the invariant.
pub proof fn lemma_backtracker_sealed(p: BacktrackerView)
    requires
        p.inv(),
        p.closing,
    ensures
        p.finished().inv(),
        resolved(p.finished().maze),
{
    let m = p.maze;
    let f = p.finished();
    assert forall|x: int, y: int| #[trigger]
        f.maze.at(x, y) == if m.inside(x, y) && m.at(x, y) == CellKind::Undefined {
            CellKind::WallKind
        } else {
            m.at(x, y)
        } by {
        assert(m.grid.dom().contains((x, y)) <==> m.inside(x, y));
    }
    assert forall|x: int, y: int| #[trigger]
        f.maze.grid.dom().contains((x, y)) <==> f.maze.inside(x, y) by {}
    assert(f.maze.shaped());
    assert forall|x: int, y: int| m.inside(x, y) implies #[trigger] paths()(x, y, m.at(x, y))
        == paths()(x, y, f.maze.at(x, y)) by {}
    assert forall|x: int, y: int| m.inside(x, y) implies #[trigger] open_rooms()(x, y, m.at(x, y))
        == open_rooms()(x, y, f.maze.at(x, y)) by {}
    assert forall|x: int, y: int| m.inside(x, y) implies #[trigger] open_slots()(x, y, m.at(x, y))
        == open_slots()(x, y, f.maze.at(x, y)) by {}
    lemma_count_agree(m, f.maze, paths(), paths());
    lemma_count_agree(m, f.maze, open_rooms(), open_rooms());
    lemma_count_agree(m, f.maze, open_slots(), open_slots());
    assert forall|x: int, y: int| #[trigger] tidy(f.maze, x, y) by {
        assert(tidy(m, x, y));
        let a = f.maze.at(x, y);
    }
    assert forall|x: int, y: int| #[trigger] bridged(f.maze, x, y) by {
        assert(bridged(m, x, y));
        let (a, b) = slot_ends(x, y);
        let k = f.maze.at(x, y);
        let ka = f.maze.at(a.0, a.1);
        let kb = f.maze.at(b.0, b.1);
    }
    assert forall|x: int, y: int| #[trigger] parented(f.maze, x, y) by {
        assert(parented(m, x, y));
        let a = f.maze.at(x, y);
        let k1 = f.maze.at(x - 1, y);
        let k2 = f.maze.at(x + 1, y);
        let k3 = f.maze.at(x, y - 1);
        let k4 = f.maze.at(x, y + 1);
    }
    let ko = f.maze.at(m.origin.x as int, m.origin.y as int);
    let ke = f.maze.at(m.end.x as int, m.end.y as int);
    let kc = f.maze.at(p.at.x as int, p.at.y as int);
    assert forall|x: int, y: int| f.maze.inside(x, y) implies #[trigger] f.maze.at(x, y)
        != CellKind::Undefined by {}
}

/// The invariant roots every open cell: its count of steps is one more than a
/// neighbour's, down to the origin.
pub proof fn lemma_backtracker_rooted(p: BacktrackerView)
    requires
        p.inv(),
    ensures
        all_rooted(p.maze),
{
    assert forall|x: int, y: int| #[trigger] rooted(p.maze, x, y) by {
        assert(tidy(p.maze, x, y));
        assert(parented(p.maze, x, y));
    }
}

/// What the backtracker leaves after its last step.
///
/// Nothing on the grid is undecided; a walk leads from the origin, which
/// stands at 0 steps, to every open cell; the open rooms are one more than the
/// open slots, so that no walk goes round in a circle; and the counts are to be
/// read as shares of the maze's length. Unless the grid is too small for a
/// single move (under three positions each way, and more than one position in
/// all), the end holds the greatest count of steps, which is the maze's length.
pub proof fn lemma_backtracker_finished(p: BacktrackerView)
    requires
        p.inv(),
        p.closing,
        p.maze.scale == Scale::Steps,
    ensures
        resolved(p.finished().maze),
        connected(p.finished().maze),
        p.finished().maze.kind(p.maze.origin) == CellKind::PathKind(0),
        p.finished().maze.count(open_rooms()) == p.finished().maze.count(open_slots()) + 1,
        p.finished().maze.scale == Scale::Length,
        p.maze.width >= 3 || p.maze.height >= 3 || (p.maze.width == 1 && p.maze.height == 1)
            ==> peaked(p.finished().maze),
{
    let m = p.maze;
    let f = p.finished();
    lemma_backtracker_sealed(p);
    lemma_backtracker_rooted(f);
    lemma_rooted_connected(f.maze);
    assert forall|x: int, y: int| #[trigger]
        f.maze.at(x, y) == if m.inside(x, y) && m.at(x, y) == CellKind::Undefined {
            CellKind::WallKind
        } else {
            m.at(x, y)
        } by {
        assert(m.grid.dom().contains((x, y)) <==> m.inside(x, y));
    }
    assert forall|x: int, y: int|
        #![trigger f.maze.at(x, y)]
        is_path(f.maze.at(x, y)) implies f.maze.at(x, y)->PathKind_0 <= f.maze.len by {
        assert(tidy(f.maze, x, y));
    }
    if m.len == 0 && (m.width >= 3 || m.height >= 3) {
        let c = p.at;
        let o = m.origin;
        assert(tidy(m, c.x as int, c.y as int));
        assert(c == o);
        let up = unvisited_towards(m, c, Direction::Up);
        let down = unvisited_towards(m, c, Direction::Down);
        let left = unvisited_towards(m, c, Direction::Left);
        let right = unvisited_towards(m, c, Direction::Right);
        if m.width >= 3 {
            if o.x + 2 < m.width {
                assert(tidy(m, o.x + 2, o.y as int));
                assert(right.len() == 1);
            } else {
                assert(tidy(m, o.x - 2, o.y as int));
                assert(left.len() == 1);
            }
        } else {
            if o.y + 2 < m.height {
                assert(tidy(m, o.x as int, o.y + 2));
                assert(down.len() == 1);
            } else {
                assert(tidy(m, o.x as int, o.y - 2));
                assert(up.len() == 1);
            }
        }
        assert(false);
    }
}

/// Closing what is undecided changes nothing where nothing is undecided.
pub proof fn lemma_sealed_again(m: MazeView)
    requires
        m.shaped(),
        resolved(m),
    ensures
        m.sealed(false).read_as(m.scale) == m,
{
    let f = m.sealed(false).read_as(m.scale);
    assert forall|p: (int, int)| f.grid.dom().contains(p) <==> m.grid.dom().contains(p) by {
        assert(m.grid.dom().contains((p.0, p.1)) <==> m.inside(p.0, p.1));
    }
    assert forall|p: (int, int)| f.grid.dom().contains(p) implies #[trigger] f.grid[p]
        == m.grid[p] by {
        assert(m.grid.dom().contains((p.0, p.1)) <==> m.inside(p.0, p.1));
        assert(m.at(p.0, p.1) != CellKind::Undefined);
    }
    assert(f.grid =~= m.grid);
    assert(f =~= m);
}

/// The generator: a maze under construction, the place of the walk and the
/// way back.
pub struct Backtracker {
    maze: Maze,
    c: Coord,
    stack: Vec<Coord>,
    f: i64,
    to_finish: bool,
}

impl View for Backtracker {
    type V = BacktrackerView;

    closed spec fn view(&self) -> BacktrackerView {
        BacktrackerView {
            maze: self.maze@,
            at: self.c,
            stack: self.stack@,
            steps: self.f as int,
            closing: self.to_finish,
        }
    }
}

impl Backtracker {
    /// Whether the maze is stored as the view says.
    pub closed spec fn backed(&self) -> bool {
        self.maze.backed()
    }

    /// The invariant of the generator.
    pub open spec fn wf(&self) -> bool {
        self.backed() && self@.inv()
    }

    /// The maze as it stands.
    pub fn maze(&self) -> (m: &Maze)
        requires
            self.wf(),
        ensures
            m.wf(),
            m@ == self@.maze,
    {
        &self.maze
    }

    /// Whether all that is left to do is the last step.
    pub fn is_closing(&self) -> (b: bool)
        ensures
            b == self@.closing,
    {
        self.to_finish
    }

    /// Gives the maze back.
    pub fn into_maze(self) -> (m: Maze)
        requires
            self.wf(),
        ensures
            m.wf(),
            m@ == self@.maze,
    {
        self.maze
    }

    /// Starts the walk on a maze to which nothing has happened yet: the origin
    /// is opened at 0 steps, and the walk stands there.
    pub fn init(maze: Maze) -> (b: Backtracker)
        requires
            maze.wf(),
            maze@.pristine(),
        ensures
            b.wf(),
            b@ == BacktrackerView::start(maze@),
            maze@.same_frame(b@.maze),
            b@.maze.scale == Scale::Steps,
    {
        let c = maze.origin();
        let mut b = Backtracker { maze: maze, c: c, stack: Vec::new(), f: 0, to_finish: false };
        proof {
            lemma_backtracker_start(b@.maze);
            lemma_put(b@.maze, c, CellKind::PathKind(0));
        }
        b.maze.set_path(&c, 0);
        b.maze.reset_len();
        b
    }

    /// The position two steps from `c` in direction `dir`, if the grid has it.
    pub fn get_coord_twice(&self, c: &Coord, dir: &Direction) -> (n: Option<Coord>)
        requires
            self.backed(),
            self@.maze.shaped(),
        ensures
            n == twice(self@.maze, *c, *dir),
    {
        match *dir {
            Direction::Up => match self.maze.get_coord_up(c) {
                Some(n) => self.maze.get_coord_up(&n),
                None => None,
            },
            Direction::Down => match self.maze.get_coord_down(c) {
                Some(n) => self.maze.get_coord_down(&n),
                None => None,
            },
            Direction::Left => match self.maze.get_coord_left(c) {
                Some(n) => self.maze.get_coord_left(&n),
                None => None,
            },
            Direction::Right => match self.maze.get_coord_right(c) {
                Some(n) => self.maze.get_coord_right(&n),
                None => None,
            },
        }
    }

    /// Puts the room two steps from where the walk stands in direction `dir` on
    /// `v`, if the grid has it and nothing is decided there.
    fn collect_unvisited(&self, dir: Direction, v: &mut Vec<Coord>)
        requires
            self.backed(),
            self@.maze.shaped(),
        ensures
            final(v)@ == old(v)@ + unvisited_towards(self@.maze, self@.at, dir),
    {
        if let Some(n) = self.get_coord_twice(&self.c, &dir) {
            if let CellKind::Undefined = self.maze.cell_kind(&n) {
                v.push(n);
            }
        }
    }

    /// The rooms to which the walk can move from where it stands: those two
    /// steps up, down, left and right at which nothing is decided.
    pub fn unvisited_cell_neighbours(&self) -> (v: Vec<Coord>)
        requires
            self.backed(),
            self@.maze.shaped(),
        ensures
            v@ == unvisited_around(self@.maze, self@.at),
    {
        let mut v: Vec<Coord> = Vec::new();
        self.collect_unvisited(Direction::Up, &mut v);
        self.collect_unvisited(Direction::Down, &mut v);
        self.collect_unvisited(Direction::Left, &mut v);
        self.collect_unvisited(Direction::Right, &mut v);
        v
    }

    /// One of the rooms to which the walk can move, drawn at random; none if
    /// there is none, and then nothing is drawn.
    pub fn get_random_unvisited_cell_neighbour(&mut self) -> (n: Option<Coord>)
        requires
            old(self).backed(),
            old(self)@.maze.shaped(),
        ensures
            final(self)@ == old(self)@,
            final(self).backed(),
            ({
                let rooms = unvisited_around(old(self)@.maze, old(self)@.at);
                match n {
                    None => rooms.len() == 0,
                    Some(c) => rooms.len() > 0 && exists|pick: u64|
                        c == #[trigger] rooms[pick as int % rooms.len() as int],
                }
            }),
    {
        let mut v = self.unvisited_cell_neighbours();
        if v.len() == 0 {
            None
        } else {
            let r = random_u64();
            let len = v.len();
            let i = pick_index(r, len);
            Some(v.swap_remove(i))
        }
    }

    /// Goes back along the stack to the latest room from which the walk can go
    /// on, and hands back the rooms to which it can go from there.
    fn retreat(&mut self) -> (rooms: Vec<Coord>)
        requires
            old(self).wf(),
            !old(self)@.closing,
        ensures
            final(self).wf(),
            final(self)@ == old(self)@.retreated(),
            final(self)@.maze == old(self)@.maze,
            rooms@ == unvisited_around(final(self)@.maze, final(self)@.at),
            rooms.len() > 0 || final(self)@.stack.len() == 0,
            !final(self)@.closing,
            final(self)@.fuel() <= old(self)@.fuel(),
    {
        proof {
            lemma_backtracker_retreated(self@);
        }
        loop
            invariant
                self.wf(),
                !self@.closing,
                self@.retreated() == old(self)@.retreated(),
                self@.maze == old(self)@.maze,
                self@.fuel() <= old(self)@.fuel(),
            decreases self.stack.len(),
        {
            let rooms = self.unvisited_cell_neighbours();
            if rooms.len() > 0 {
                return rooms;
            }
            proof {
                if self@.stack.len() > 0 {
                    lemma_backtracker_popped(self@);
                }
            }
            match self.stack.pop() {
                None => {
                    return rooms;
                },
                Some(n) => {
                    if let CellKind::PathKind(d) = self.maze.cell_kind(&n) {
                        self.f = d;
                    }
                    self.c = n;
                },
            }
        }
    }

    /// Moves to the room `n`, two steps away, and opens the slot on the way.
    fn carve(&mut self, n: Coord)
        requires
            old(self).backed(),
            can_carve(old(self)@, n),
        ensures
            final(self).wf(),
            final(self)@ == old(self)@.carved(n),
            final(self)@.fuel() < old(self)@.fuel(),
            old(self)@.maze.same_frame(final(self)@.maze),
            final(self)@.maze.scale == old(self)@.maze.scale,
    {
        proof {
            lemma_backtracker_carve_shape(self@, n);
            lemma_backtracker_carved(self@, n);
            lemma_backtracker_unvisited(self@.maze, self@.at);
        }
        let w = Coord { x: n.x / 2 + self.c.x / 2, y: n.y / 2 + self.c.y / 2 };
        assert(w == midpoint(n, old(self)@.at));
        proof {
            lemma_put(self@.maze, w, CellKind::PathKind((self.f + 1) as i64));
        }
        self.f = self.f + 1;
        self.maze.set_path(&w, self.f);
        self.c = n;
        self.f = self.f + 1;
        self.maze.set_path(&n, self.f);
        self.maze.stretch(&n, self.f);
        self.stack.push(n);
    }

    /// One step with the given draw: the walk goes back as far as it must, and
    /// moves on to the room that the draw picks.
    pub fn step(&mut self, pick: u64)
        requires
            old(self).wf(),
            !old(self)@.closing,
        ensures
            final(self).wf(),
            final(self)@ == old(self)@.stepped(pick),
            final(self)@.fuel() < old(self)@.fuel(),
            old(self)@.maze.same_frame(final(self)@.maze),
            final(self)@.maze.scale == old(self)@.maze.scale,
    {
        let mut rooms = self.retreat();
        if rooms.len() == 0 {
            self.to_finish = true;
        } else {
            let i = pick_index(pick, rooms.len());
            let n = rooms.swap_remove(i);
            self.carve(n);
        }
    }

    /// The last step: closes whatever is undecided, and turns the counts of
    /// steps into shares of the maze's length.
    pub fn finish(&mut self)
        requires
            old(self).wf(),
            old(self)@.closing,
        ensures
            final(self).wf(),
            final(self)@ == old(self)@.finished(),
            old(self)@.maze.same_frame(final(self)@.maze),
    {
        proof {
            lemma_backtracker_sealed(self@);
        }
        self.maze.seal(false);
        self.maze.read_as(Scale::Length);
    }

    /// Advances the walk by one step, drawing at random, and says whether
    /// there was a step to make. When only the last step is left, it is made
    /// instead.
    pub fn next(&mut self) -> (more: bool)
        requires
            old(self).wf(),
        ensures
            final(self).wf(),
            more == !old(self)@.closing,
            more ==> exists|pick: u64| final(self)@ == old(self)@.stepped(pick),
            more ==> final(self)@.fuel() < old(self)@.fuel(),
            more ==> final(self)@.maze.scale == old(self)@.maze.scale,
            !more ==> final(self)@ == old(self)@.finished(),
            old(self)@.maze.same_frame(final(self)@.maze),
    {
        if self.to_finish {
            self.finish();
            return false;
        }
        let mut rooms = self.retreat();
        if rooms.len() == 0 {
            self.to_finish = true;
            proof {
                assert(self@ == old(self)@.stepped(0));
            }
        } else {
            let pick = random_u64();
            let i = pick_index(pick, rooms.len());
            let n = rooms.swap_remove(i);
            self.carve(n);
            proof {
                assert(self@ == old(self)@.stepped(pick));
            }
        }
        true
    }
}

} // verus!
