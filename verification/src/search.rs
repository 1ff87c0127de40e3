//! Walks that spread over the open cells of a maze: what counts as a cell
//! not reached yet, where a walk can go next, and what a walk that has come to
//! its end has covered.

use crate::geometry::{Coord, Direction};
use crate::lattice::{is_path, lemma_listed_pop, lemma_listed_push, listed};
use crate::maze::{
    lemma_count_bound, lemma_count_put, lemma_put, CellKind, Maze, MazeView, MAX_CELLS, UNVISITED,
};
use crate::walks::adjacent;
use vstd::prelude::*;

verus! {

/// What makes an open cell one that a walk has still to reach.
#[derive(Debug, Clone, Copy, PartialEq, Eq, Structural)]
pub enum Probe {
    /// The cell holds `UNVISITED`.
    Unvisited,
    /// The cell holds another number than the given label.
    Unlabelled(i64),
}

/// Whether a cell with content `k` has still to be reached.
pub open spec fn fresh(probe: Probe, k: CellKind) -> bool {
    match k {
        CellKind::PathKind(d) => match probe {
            Probe::Unvisited => d == UNVISITED,
            Probe::Unlabelled(f) => d != f,
        },
        _ => false,
    }
}

/// Counts the cells that have still to be reached.
pub open spec fn freshes(probe: Probe) -> spec_fn(int, int, CellKind) -> bool {
    |x: int, y: int, k: CellKind| fresh(probe, k)
}

/// Whether no neighbour of `(x, y)` has still to be reached.
pub open spec fn sealed_in(m: MazeView, probe: Probe, x: int, y: int) -> bool {
    &&& !fresh(probe, m.at(x, y - 1))
    &&& !fresh(probe, m.at(x, y + 1))
    &&& !fresh(probe, m.at(x - 1, y))
    &&& !fresh(probe, m.at(x + 1, y))
}

/// Whether `s` is a way on which a walk can spread: from its first position
/// on, each position is one step from the one before and has still to be
/// reached.
pub open spec fn spreads(m: MazeView, probe: Probe, s: Seq<(int, int)>) -> bool {
    &&& s.len() >= 1
    &&& forall|i: int| 1 <= i < s.len() ==> fresh(probe, m.at((#[trigger] s[i]).0, s[i].1))
    &&& forall|i: int| 0 <= i < s.len() - 1 ==> adjacent(#[trigger] s[i], s[i + 1])
}

/// Whether a walk that starts at `start` can spread to `(x, y)`.
pub open spec fn reached(m: MazeView, probe: Probe, start: Coord, x: int, y: int) -> bool {
    exists|s: Seq<(int, int)>|
        spreads(m, probe, s) && #[trigger] s.first() == (start.x as int, start.y as int) && s.last()
            == (x, y)
}

/// Whether the walk still has `(x, y)` in hand: it stands there, or can come
/// back to it.
pub open spec fn in_hand(stack: Seq<Coord>, c: Coord, x: int, y: int) -> bool {
    (x == c.x && y == c.y) || listed(stack, x, y)
}

/// What holds while a walk spreads from `start` over the maze `m0`, which has
/// become `m`: only cells that had to be reached have changed, they have been
/// reached, and those that the walk no longer has in hand have no neighbour
/// left to reach.
pub open spec fn searching(
    m0: MazeView,
    m: MazeView,
    probe: Probe,
    start: Coord,
    stack: Seq<Coord>,
    c: Coord,
) -> bool {
    &&& m.shaped()
    &&& m0.shaped()
    &&& m == (MazeView { grid: m.grid, ..m0 })
    &&& forall|x: int, y: int|
        #![trigger m.at(x, y)]
        m.at(x, y) != m0.at(x, y) ==> fresh(probe, m0.at(x, y)) && !fresh(probe, m.at(x, y))
            && reached(m0, probe, start, x, y)
    &&& forall|x: int, y: int|
        #![trigger sealed_in(m, probe, x, y)]
        (m.at(x, y) != m0.at(x, y) || (x == start.x && y == start.y)) && !in_hand(stack, c, x, y)
            ==> sealed_in(m, probe, x, y)
    &&& m.holds(c)
    &&& reached(m0, probe, start, c.x as int, c.y as int)
    &&& !fresh(probe, m.kind(c))
    &&& !fresh(probe, m.kind(start))
    &&& forall|i: int|
        0 <= i < stack.len() ==> m.holds(#[trigger] stack[i]) && !fresh(probe, m.kind(stack[i]))
            && reached(m0, probe, start, stack[i].x as int, stack[i].y as int)
}

/// A way on which a walk can spread can be followed one step further.
pub proof fn lemma_reached_step(m: MazeView, probe: Probe, start: Coord, a: (int, int), b: (int, int))
    requires
        reached(m, probe, start, a.0, a.1),
        adjacent(a, b),
        fresh(probe, m.at(b.0, b.1)),
    ensures
        reached(m, probe, start, b.0, b.1),
{
    let s = choose|s: Seq<(int, int)>|
        spreads(m, probe, s) && #[trigger] s.first() == (start.x as int, start.y as int) && s.last()
            == a;
    let t = s.push(b);
    assert forall|i: int| 1 <= i < t.len() implies fresh(probe, m.at((#[trigger] t[i]).0, t[i].1)) by {
        if i < s.len() {
            assert(t[i] == s[i]);
        }
    }
    assert forall|i: int| 0 <= i < t.len() - 1 implies adjacent(#[trigger] t[i], t[i + 1]) by {
        if i + 1 < s.len() {
            assert(t[i] == s[i] && t[i + 1] == s[i + 1]);
            assert(adjacent(s[i], s[i + 1]));
        } else {
            assert(t[i] == s[s.len() - 1]);
        }
    }
    assert(t.first() == s[0]);
    assert(spreads(m, probe, t) && t.first() == (start.x as int, start.y as int) && t.last() == b);
}

/// A walk can spread to where it starts.
pub proof fn lemma_reached_start(m: MazeView, probe: Probe, start: Coord)
    ensures
        reached(m, probe, start, start.x as int, start.y as int),
{
    let s = seq![(start.x as int, start.y as int)];
    assert(spreads(m, probe, s) && s.first() == (start.x as int, start.y as int) && s.last() == (
        start.x as int,
        start.y as int,
    ));
}

/// A walk that has nothing in hand any more has changed every cell along a
/// way on which it could spread.
proof fn lemma_covered_along(
    m0: MazeView,
    m: MazeView,
    probe: Probe,
    start: Coord,
    c: Coord,
    s: Seq<(int, int)>,
    i: int,
)
    requires
        searching(m0, m, probe, start, Seq::empty(), c),
        sealed_in(m, probe, c.x as int, c.y as int),
        spreads(m0, probe, s),
        s.first() == (start.x as int, start.y as int),
        1 <= i < s.len(),
    ensures
        m.at(s[i].0, s[i].1) != m0.at(s[i].0, s[i].1),
    decreases i,
{
    let a = s[i - 1];
    let b = s[i];
    assert(adjacent(a, s[i - 1 + 1]));
    assert(fresh(probe, m0.at(b.0, b.1)));
    if i > 1 {
        lemma_covered_along(m0, m, probe, start, c, s, i - 1);
    }
    assert(m.at(a.0, a.1) != m0.at(a.0, a.1) || (a.0 == start.x && a.1 == start.y));
    if !(a.0 == c.x && a.1 == c.y) {
        assert(!in_hand(Seq::<Coord>::empty(), c, a.0, a.1));
    }
    assert(sealed_in(m, probe, a.0, a.1));
}

/// A walk that has nothing in hand any more has changed every cell that it
/// could spread to and that had to be reached.
pub proof fn lemma_covered(m0: MazeView, m: MazeView, probe: Probe, start: Coord, c: Coord)
    requires
        searching(m0, m, probe, start, Seq::empty(), c),
        sealed_in(m, probe, c.x as int, c.y as int),
    ensures
        forall|x: int, y: int|
            #![trigger m.at(x, y)]
            m.at(x, y) != m0.at(x, y) <==> fresh(probe, m0.at(x, y)) && reached(
                m0,
                probe,
                start,
                x,
                y,
            ),
{
    assert forall|x: int, y: int|
        #![trigger m.at(x, y)]
        fresh(probe, m0.at(x, y)) && reached(m0, probe, start, x, y) implies m.at(x, y) != m0.at(
        x,
        y,
    ) by {
        let s = choose|s: Seq<(int, int)>|
            spreads(m0, probe, s) && #[trigger] s.first() == (start.x as int, start.y as int)
                && s.last() == (x, y);
        if s.len() == 1 {
            assert(x == start.x && y == start.y);
        } else {
            lemma_covered_along(m0, m, probe, start, c, s, s.len() - 1);
        }
    }
}

impl MazeView {
    /// The same maze after the label `f` was spread from `o`: every open cell
    /// with another label to which a walk from `o` leads over open cells with
    /// other labels holds `f`.
    pub open spec fn spread_label(self, f: i64, o: Coord) -> MazeView {
        MazeView {
            grid: Map::new(
                |p: (int, int)| self.inside(p.0, p.1),
                |p: (int, int)|
                    if fresh(Probe::Unlabelled(f), self.grid[p]) && reached(
                        self,
                        Probe::Unlabelled(f),
                        o,
                        p.0,
                        p.1,
                    ) {
                        CellKind::PathKind(f)
                    } else {
                        self.grid[p]
                    },
            ),
            ..self
        }
    }

    /// Whether the neighbour of `c` in direction `dir` has still to be reached.
    pub open spec fn fresh_towards(self, c: Coord, dir: Direction, probe: Probe) -> bool {
        match self.step(c, dir) {
            Some(n) => fresh(probe, self.kind(n)),
            None => false,
        }
    }

    /// The first neighbour of `c` that has still to be reached, looking up,
    /// down, left and right, with the direction in which it lies.
    pub open spec fn first_fresh(self, c: Coord, probe: Probe) -> Option<(Coord, Direction)> {
        if self.fresh_towards(c, Direction::Up, probe) {
            Some((self.step(c, Direction::Up)->0, Direction::Up))
        } else if self.fresh_towards(c, Direction::Down, probe) {
            Some((self.step(c, Direction::Down)->0, Direction::Down))
        } else if self.fresh_towards(c, Direction::Left, probe) {
            Some((self.step(c, Direction::Left)->0, Direction::Left))
        } else if self.fresh_towards(c, Direction::Right, probe) {
            Some((self.step(c, Direction::Right)->0, Direction::Right))
        } else {
            None
        }
    }

    /// The same maze with every open cell marked as not reached.
    pub open spec fn cleared(self) -> MazeView {
        MazeView {
            grid: Map::new(
                |p: (int, int)| self.inside(p.0, p.1),
                |p: (int, int)|
                    if is_path(self.grid[p]) {
                        CellKind::PathKind(UNVISITED)
                    } else {
                        self.grid[p]
                    },
            ),
            ..self
        }
    }
}

/// What `first_fresh` finds is a neighbour on the grid, one step away, that
/// has still to be reached; where it finds nothing, no neighbour has.
pub proof fn lemma_first_fresh(m: MazeView, c: Coord, probe: Probe)
    requires
        m.shaped(),
        m.holds(c),
    ensures
        match m.first_fresh(c, probe) {
            Some((n, dir)) => m.holds(n) && fresh(probe, m.kind(n)) && adjacent(
                (c.x as int, c.y as int),
                (n.x as int, n.y as int),
            ) && m.step(c, dir) == Some(n),
            None => sealed_in(m, probe, c.x as int, c.y as int),
        },
{
}

impl Maze {
    /// Whether a walk has been at `c`: `None` where `c` is not open.
    pub fn is_visited(&self, c: &Coord) -> (r: Option<bool>)
        requires
            self.wf(),
        ensures
            r == match self@.kind(*c) {
                CellKind::PathKind(d) => Some(d != UNVISITED),
                _ => None::<bool>,
            },
    {
        if let CellKind::PathKind(f) = self.cell_kind(c) {
            if f == UNVISITED {
                Some(false)
            } else {
                Some(true)
            }
        } else {
            None
        }
    }

    /// Whether `c` holds the label `f`: `None` where `c` is not open.
    pub fn is_labelled(&self, c: &Coord, f: i64) -> (r: Option<bool>)
        requires
            self.wf(),
        ensures
            r == match self@.kind(*c) {
                CellKind::PathKind(d) => Some(d == f),
                _ => None::<bool>,
            },
    {
        if let CellKind::PathKind(d) = self.cell_kind(c) {
            if d == f {
                Some(true)
            } else {
                Some(false)
            }
        } else {
            None
        }
    }

    /// Whether `c` has still to be reached.
    fn is_fresh(&self, c: &Coord, probe: &Probe) -> (r: bool)
        requires
            self.wf(),
        ensures
            r == fresh(*probe, self@.kind(*c)),
    {
        let seen = match *probe {
            Probe::Unvisited => self.is_visited(c),
            Probe::Unlabelled(f) => self.is_labelled(c, f),
        };
        match seen {
            Some(b) => !b,
            None => false,
        }
    }

    /// The neighbour of `start` in direction `dir`, if it has still to be reached.
    fn look(&self, start: &Coord, dir: Direction, probe: &Probe) -> (r: Option<Coord>)
        requires
            self.wf(),
        ensures
            r == if self@.fresh_towards(*start, dir, *probe) {
                self@.step(*start, dir)
            } else {
                None
            },
    {
        if let Some(c) = self.get_coord_next(start, &dir) {
            if self.is_fresh(&c, probe) {
                return Some(c);
            }
        }
        None
    }

    /// The first neighbour of `start` that has still to be reached, looking
    /// up, down, left and right, with the direction in which it lies.
    pub fn walk(&self, start: &Coord, probe: &Probe) -> (r: Option<(Coord, Direction)>)
        requires
            self.wf(),
        ensures
            r == self@.first_fresh(*start, *probe),
    {
        if let Some(c) = self.look(start, Direction::Up, probe) {
            return Some((c, Direction::Up));
        }
        if let Some(c) = self.look(start, Direction::Down, probe) {
            return Some((c, Direction::Down));
        }
        if let Some(c) = self.look(start, Direction::Left, probe) {
            return Some((c, Direction::Left));
        }
        if let Some(c) = self.look(start, Direction::Right, probe) {
            return Some((c, Direction::Right));
        }
        None
    }

    /// Marks every open cell as not reached.
    pub fn clear_path(&mut self)
        requires
            old(self).wf(),
        ensures
            final(self).wf(),
            final(self)@ == old(self)@.cleared(),
    {
        let ghost before = self@;
        let ghost goal = self@.cleared();
        let g = self.geometry();
        let width = g.width;
        let height = g.height;
        let mut y: usize = 0;
        while y < height
            invariant
                y <= height,
                width == before.width,
                height == before.height,
                before.shaped(),
                goal == before.cleared(),
                self.wf(),
                self@ == (MazeView { grid: self@.grid, ..before }),
                forall|i: int, j: int|
                    before.inside(i, j) ==> #[trigger] self@.at(i, j) == if j < y {
                        goal.at(i, j)
                    } else {
                        before.at(i, j)
                    },
            decreases height - y,
        {
            let mut x: usize = 0;
            while x < width
                invariant
                    x <= width,
                    y < height,
                    width == before.width,
                    height == before.height,
                    before.shaped(),
                    goal == before.cleared(),
                    self.wf(),
                    self@ == (MazeView { grid: self@.grid, ..before }),
                    forall|i: int, j: int|
                        before.inside(i, j) ==> #[trigger] self@.at(i, j) == if j < y || (j == y && i
                            < x) {
                            goal.at(i, j)
                        } else {
                            before.at(i, j)
                        },
                decreases width - x,
            {
                let c = Coord { x: x, y: y };
                let ghost prev = self@;
                if let CellKind::PathKind(_) = self.cell_kind(&c) {
                    proof {
                        lemma_put(prev, c, CellKind::PathKind(UNVISITED));
                    }
                    self.set_path(&c, UNVISITED);
                }
                proof {
                    assert(self@ =~= (MazeView { grid: self@.grid, ..before }));
                }
                x = x + 1;
            }
            y = y + 1;
        }
        proof {
            assert forall|p: (int, int)| self@.grid.dom().contains(p) implies #[trigger] self@.grid[p]
                == goal.grid[p] by {
                assert(self@.grid.dom().contains((p.0, p.1)));
                assert(self@.at(p.0, p.1) == goal.at(p.0, p.1));
            }
            assert forall|p: (int, int)| self@.grid.dom().contains(p) <==> goal.grid.dom().contains(
                p,
            ) by {
                assert(self@.grid.dom().contains((p.0, p.1)) <==> self@.inside(p.0, p.1));
            }
            assert(self@.grid =~= goal.grid);
            assert(self@ =~= goal);
        }
    }
}

/// Moving on to a neighbour that had to be reached, and writing `k` there,
/// keeps what holds of the walk.
pub proof fn lemma_search_forward(
    m0: MazeView,
    m: MazeView,
    probe: Probe,
    start: Coord,
    stack: Seq<Coord>,
    c: Coord,
    next: Coord,
    k: CellKind,
)
    requires
        searching(m0, m, probe, start, stack, c),
        m.first_fresh(c, probe) matches Some((n, _)) && n == next,
        !fresh(probe, k),
        k != m.kind(next),
    ensures
        searching(m0, m.put(next, k), probe, start, stack.push(c), next),
        m0.kind(next) == m.kind(next),
        fresh(probe, m.kind(next)),
        m.holds(next),
        adjacent((c.x as int, c.y as int), (next.x as int, next.y as int)),
        m.put(next, k).count(freshes(probe)) + 1 == m.count(freshes(probe)),
{
    let m2 = m.put(next, k);
    let stack2 = stack.push(c);
    lemma_first_fresh(m, c, probe);
    lemma_put(m, next, k);
    lemma_count_put(m, next, k, freshes(probe));
    let a0 = m.at(next.x as int, next.y as int);
    assert(m0.kind(next) == m.kind(next));
    lemma_reached_step(m0, probe, start, (c.x as int, c.y as int), (next.x as int, next.y as int));
    lemma_listed_push(stack, c);
    assert forall|x: int, y: int|
        #![trigger m2.at(x, y)]
        m2.at(x, y) != m0.at(x, y) implies fresh(probe, m0.at(x, y)) && !fresh(probe, m2.at(x, y))
        && reached(m0, probe, start, x, y) by {
        let a = m.at(x, y);
    }
    assert forall|x: int, y: int|
        #![trigger sealed_in(m2, probe, x, y)]
        (m2.at(x, y) != m0.at(x, y) || (x == start.x && y == start.y)) && !in_hand(
            stack2,
            next,
            x,
            y,
        ) implies sealed_in(m2, probe, x, y) by {
        assert(listed(stack2, x, y) <==> listed(stack, x, y) || (x == c.x && y == c.y));
        let a = m.at(x, y);
        assert(!in_hand(stack, c, x, y));
        assert(sealed_in(m, probe, x, y));
        let k1 = m2.at(x, y - 1);
        let k2 = m2.at(x, y + 1);
        let k3 = m2.at(x - 1, y);
        let k4 = m2.at(x + 1, y);
    }
    assert forall|i: int| 0 <= i < stack2.len() implies m2.holds(#[trigger] stack2[i]) && !fresh(
        probe,
        m2.kind(stack2[i]),
    ) && reached(m0, probe, start, stack2[i].x as int, stack2[i].y as int) by {
        if i < stack.len() {
            assert(stack2[i] == stack[i]);
            let a = m.at(stack[i].x as int, stack[i].y as int);
        }
    }
    let ks = m.at(start.x as int, start.y as int);
    assert(m2 =~= (MazeView { grid: m2.grid, ..m0 }));
}

/// Going back to the position last put aside, when no neighbour is left to
/// reach, keeps what holds of the walk.
pub proof fn lemma_search_back(
    m0: MazeView,
    m: MazeView,
    probe: Probe,
    start: Coord,
    stack: Seq<Coord>,
    c: Coord,
)
    requires
        searching(m0, m, probe, start, stack, c),
        m.first_fresh(c, probe) is None,
        stack.len() > 0,
    ensures
        searching(m0, m, probe, start, stack.drop_last(), stack.last()),
{
    let stack2 = stack.drop_last();
    let n = stack.last();
    lemma_first_fresh(m, c, probe);
    lemma_listed_pop(stack);
    assert forall|x: int, y: int|
        #![trigger sealed_in(m, probe, x, y)]
        (m.at(x, y) != m0.at(x, y) || (x == start.x && y == start.y)) && !in_hand(stack2, n, x, y)
        implies sealed_in(m, probe, x, y) by {
        assert(listed(stack, x, y) <==> listed(stack2, x, y) || (x == n.x && y == n.y));
        if !(x == c.x && y == c.y) {
            assert(!in_hand(stack, c, x, y));
        }
    }
    assert forall|i: int| 0 <= i < stack2.len() implies m.holds(#[trigger] stack2[i]) && !fresh(
        probe,
        m.kind(stack2[i]),
    ) && reached(m0, probe, start, stack2[i].x as int, stack2[i].y as int) by {
        assert(stack2[i] == stack[i]);
    }
    assert(stack[stack.len() - 1] == n);
}

/// Whether `m` is the maze `m0` after the label `f` was spread from `o`: every
/// open cell with another label to which a walk from `o` leads over open cells
/// with other labels holds `f`, and nothing else has changed.
pub open spec fn relabelled(m0: MazeView, f: i64, o: Coord, m: MazeView) -> bool {
    let probe = Probe::Unlabelled(f);
    &&& m.shaped()
    &&& m == (MazeView { grid: m.grid, ..m0 })
    &&& forall|x: int, y: int|
        #![trigger m.at(x, y)]
        m.at(x, y) == if fresh(probe, m0.at(x, y)) && reached(m0, probe, o, x, y) {
            CellKind::PathKind(f)
        } else {
            m0.at(x, y)
        }
}

/// There is one maze that is `m0` after the label `f` was spread from `o`.
pub proof fn lemma_relabelled(m0: MazeView, f: i64, o: Coord, m: MazeView)
    requires
        m0.shaped(),
        relabelled(m0, f, o, m),
    ensures
        m == m0.spread_label(f, o),
{
    let goal = m0.spread_label(f, o);
    assert forall|p: (int, int)| m.grid.dom().contains(p) <==> goal.grid.dom().contains(p) by {
        assert(m.grid.dom().contains((p.0, p.1)) <==> m.inside(p.0, p.1));
    }
    assert forall|p: (int, int)| m.grid.dom().contains(p) implies #[trigger] m.grid[p]
        == goal.grid[p] by {
        assert(m.grid.dom().contains((p.0, p.1)));
        let a = m.at(p.0, p.1);
        let b = m0.at(p.0, p.1);
    }
    assert(m.grid =~= goal.grid);
    assert(m =~= goal);
}

/// Whether one of the neighbours of `(x, y)` holds the count `d`.
pub open spec fn next_to(m: MazeView, x: int, y: int, d: int) -> bool {
    let k = CellKind::PathKind(d as i64);
    m.at(x - 1, y) == k || m.at(x + 1, y) == k || m.at(x, y - 1) == k || m.at(x, y + 1) == k
}

/// Whether `m` is the maze `m0` after counts of steps were spread from
/// `start`: every cell not reached before to which a walk from `start` leads
/// over such cells holds a count of at least 1, one more than that of a
/// neighbour, and nothing else has changed.
pub open spec fn flooded(m0: MazeView, start: Coord, m: MazeView) -> bool {
    let probe = Probe::Unvisited;
    &&& m.shaped()
    &&& m == (MazeView { grid: m.grid, ..m0 })
    &&& forall|x: int, y: int|
        #![trigger m.at(x, y)]
        if fresh(probe, m0.at(x, y)) && reached(m0, probe, start, x, y) {
            let d = m.at(x, y)->PathKind_0;
            is_path(m.at(x, y)) && 1 <= d <= MAX_CELLS && next_to(m, x, y, d - 1)
        } else {
            m.at(x, y) == m0.at(x, y)
        }
}

/// Whether the walk that spread from `start` over `m0`, which has become `m`,
/// has left nothing to reach next to where it started and next to the cells
/// it has changed.
pub open spec fn closed_off(m0: MazeView, start: Coord, m: MazeView) -> bool {
    forall|x: int, y: int|
        #![trigger sealed_in(m, Probe::Unvisited, x, y)]
        m.at(x, y) != m0.at(x, y) || (x == start.x && y == start.y) ==> sealed_in(
            m,
            Probe::Unvisited,
            x,
            y,
        )
}

/// Whether `best` is the greatest of `longest` and the counts that were given
/// when `m0` became `m`, and `place` is where it was given, or `farthest` if
/// none was greater than `longest`.
pub open spec fn measured(
    m0: MazeView,
    m: MazeView,
    longest: int,
    farthest: Coord,
    best: int,
    place: Coord,
) -> bool {
    &&& longest <= best <= MAX_CELLS
    &&& forall|x: int, y: int|
        #![trigger m.at(x, y)]
        m.at(x, y) != m0.at(x, y) ==> m.at(x, y)->PathKind_0 <= best
    &&& best > longest ==> m.holds(place) && m.kind(place) == CellKind::PathKind(best as i64)
        && m0.kind(place) != m.kind(place)
    &&& best == longest ==> place == farthest
}

/// What a walk that spreads counts of steps leaves: the maze, the greatest
/// count, and where it was given first.
pub ghost struct Flood {
    pub maze: MazeView,
    pub best: int,
    pub place: Coord,
}

/// What is left when the walk that stands at `c`, which holds the count `d`,
/// with `stack` to go back to, has spread over `m` as far as it can: it moves
/// to the first neighbour not reached yet, which gets the count `d + 1`, or,
/// where there is none, goes back to the position last put aside.
pub open spec fn flood_run(
    m: MazeView,
    stack: Seq<Coord>,
    c: Coord,
    d: int,
    best: int,
    place: Coord,
) -> Flood
    decreases m.count(freshes(Probe::Unvisited)), stack.len(),
    when m.shaped() && m.holds(c) && 0 <= d <= MAX_CELLS
    via flood_run_decreases
{
    match m.first_fresh(c, Probe::Unvisited) {
        Some((next, _)) => flood_run(
            m.put(next, CellKind::PathKind((d + 1) as i64)),
            stack.push(c),
            next,
            d + 1,
            if d + 1 > best {
                d + 1
            } else {
                best
            },
            if d + 1 > best {
                next
            } else {
                place
            },
        ),
        None => if stack.len() == 0 {
            Flood { maze: m, best: best, place: place }
        } else {
            flood_run(
                m,
                stack.drop_last(),
                stack.last(),
                match m.kind(stack.last()) {
                    CellKind::PathKind(f) => f as int,
                    _ => d,
                },
                best,
                place,
            )
        },
    }
}

impl MazeView {
    /// What a walk that spreads counts of steps from `start` leaves, `longest`
    /// being the greatest count known before and `farthest` where it stands.
    pub open spec fn flood_from(self, start: Coord, longest: int, farthest: Coord) -> Flood {
        flood_run(self, Seq::empty(), start, 0, longest, farthest)
    }
}

/// Each move takes one from the cells still to be reached, and each step back
/// one from the stack.
#[via_fn]
proof fn flood_run_decreases(m: MazeView, stack: Seq<Coord>, c: Coord, d: int, best: int, place: Coord) {
    let probe = Probe::Unvisited;
    lemma_first_fresh(m, c, probe);
    match m.first_fresh(c, probe) {
        Some((next, _)) => {
            lemma_count_put(m, next, CellKind::PathKind((d + 1) as i64), freshes(probe));
        },
        None => {},
    }
}

/// What holds while counts of steps are spread from `start` over the maze
/// `m0`, which has become `m`.
pub open spec fn flooding(
    m0: MazeView,
    m: MazeView,
    start: Coord,
    stack: Seq<Coord>,
    c: Coord,
    d: int,
    longest: int,
    farthest: Coord,
    best: int,
    place: Coord,
) -> bool {
    let probe = Probe::Unvisited;
    &&& searching(m0, m, probe, start, stack, c)
    &&& forall|x: int, y: int| #[trigger] counting(m0, m, best, x, y)
    &&& m.kind(c) == CellKind::PathKind(d as i64)
    &&& 0 <= d
    &&& d + m.count(freshes(probe)) <= m0.count(freshes(probe))
    &&& m0.count(freshes(probe)) <= MAX_CELLS
    &&& m0.kind(start) == CellKind::PathKind(0)
    &&& m.kind(c) != m0.kind(c) || c == start
    &&& forall|i: int|
        0 <= i < stack.len() ==> m.kind(#[trigger] stack[i]) != m0.kind(stack[i]) || stack[i]
            == start
    &&& longest <= best <= MAX_CELLS
    &&& best > longest ==> m.holds(place) && m.kind(place) == CellKind::PathKind(best as i64)
        && m0.kind(place) != m.kind(place)
    &&& best == longest ==> place == farthest
}

/// Counts of steps start to spread in a state in which all this holds.
pub proof fn lemma_flooding_start(m0: MazeView, start: Coord, longest: int, farthest: Coord)
    requires
        m0.shaped(),
        m0.holds(start),
        m0.kind(start) == CellKind::PathKind(0),
        0 <= longest <= MAX_CELLS,
    ensures
        flooding(m0, m0, start, Seq::empty(), start, 0, longest, farthest, longest, farthest),
{
    let probe = Probe::Unvisited;
    lemma_reached_start(m0, probe, start);
    lemma_count_bound(m0, freshes(probe));
    assert(m0 =~= (MazeView { grid: m0.grid, ..m0 }));
}

/// Moving on to a neighbour not reached yet, and giving it the next count,
/// keeps what holds of the spreading.
pub proof fn lemma_flooding_forward(
    m0: MazeView,
    m: MazeView,
    start: Coord,
    stack: Seq<Coord>,
    c: Coord,
    d: int,
    longest: int,
    farthest: Coord,
    best: int,
    place: Coord,
)
    requires
        flooding(m0, m, start, stack, c, d, longest, farthest, best, place),
        m.first_fresh(c, Probe::Unvisited) is Some,
    ensures
        ({
            let next = (m.first_fresh(c, Probe::Unvisited)->0).0;
            let far = d + 1;
            &&& m.holds(next)
            &&& far <= MAX_CELLS
            &&& flooding(
                m0,
                m.put(next, CellKind::PathKind(far as i64)),
                start,
                stack.push(c),
                next,
                far,
                longest,
                farthest,
                if far > best {
                    far
                } else {
                    best
                },
                if far > best {
                    next
                } else {
                    place
                },
            )
            &&& m.put(next, CellKind::PathKind(far as i64)).count(freshes(Probe::Unvisited)) + 1
                == m.count(freshes(Probe::Unvisited))
        }),
{
    let probe = Probe::Unvisited;
    let next = (m.first_fresh(c, probe)->0).0;
    let far = d + 1;
    let k = CellKind::PathKind(far as i64);
    let m2 = m.put(next, k);
    let best2 = if far > best {
        far
    } else {
        best
    };
    lemma_search_forward(m0, m, probe, start, stack, c, next, k);
    lemma_put(m, next, k);
    lemma_count_bound(m2, freshes(probe));
    assert forall|x: int, y: int| #[trigger] counting(m0, m2, best2, x, y) by {
        assert(counting(m0, m, best, x, y));
        let a = m2.at(x, y);
        let k1 = m2.at(x - 1, y);
        let k2 = m2.at(x + 1, y);
        let k3 = m2.at(x, y - 1);
        let k4 = m2.at(x, y + 1);
        let kc = m2.at(c.x as int, c.y as int);
    }
    let kp = m.at(place.x as int, place.y as int);
    let stack2 = stack.push(c);
    assert forall|i: int| 0 <= i < stack2.len() implies m2.kind(#[trigger] stack2[i]) != m0.kind(
        stack2[i],
    ) || stack2[i] == start by {
        if i < stack.len() {
            assert(stack2[i] == stack[i]);
            let a = m.at(stack[i].x as int, stack[i].y as int);
        }
    }
}

/// Going back to the position last put aside keeps what holds of the
/// spreading.
pub proof fn lemma_flooding_back(
    m0: MazeView,
    m: MazeView,
    start: Coord,
    stack: Seq<Coord>,
    c: Coord,
    d: int,
    longest: int,
    farthest: Coord,
    best: int,
    place: Coord,
)
    requires
        flooding(m0, m, start, stack, c, d, longest, farthest, best, place),
        m.first_fresh(c, Probe::Unvisited) is None,
        stack.len() > 0,
    ensures
        ({
            let n = stack.last();
            &&& m.holds(n)
            &&& is_path(m.kind(n))
            &&& flooding(
                m0,
                m,
                start,
                stack.drop_last(),
                n,
                m.kind(n)->PathKind_0 as int,
                longest,
                farthest,
                best,
                place,
            )
        }),
{
    let probe = Probe::Unvisited;
    let n = stack.last();
    let stack2 = stack.drop_last();
    lemma_search_back(m0, m, probe, start, stack, c);
    assert(stack[stack.len() - 1] == n);
    assert(counting(m0, m, best, n.x as int, n.y as int));
    assert forall|i: int| 0 <= i < stack2.len() implies m.kind(#[trigger] stack2[i]) != m0.kind(
        stack2[i],
    ) || stack2[i] == start by {
        assert(stack2[i] == stack[i]);
    }
}

/// What a walk that spreads counts of steps leaves, from any state on the
/// way: every cell that had to be reached and could be reached holds a count
/// of at least 1, one more than a neighbour's; nothing else has changed; and
/// the greatest count is known, with the place where it stands.
pub proof fn lemma_flood_run(
    m0: MazeView,
    m: MazeView,
    start: Coord,
    stack: Seq<Coord>,
    c: Coord,
    d: int,
    longest: int,
    farthest: Coord,
    best: int,
    place: Coord,
)
    requires
        flooding(m0, m, start, stack, c, d, longest, farthest, best, place),
    ensures
        flooded(m0, start, flood_run(m, stack, c, d, best, place).maze),
        closed_off(m0, start, flood_run(m, stack, c, d, best, place).maze),
        measured(
            m0,
            flood_run(m, stack, c, d, best, place).maze,
            longest,
            farthest,
            flood_run(m, stack, c, d, best, place).best,
            flood_run(m, stack, c, d, best, place).place,
        ),
    decreases m.count(freshes(Probe::Unvisited)), stack.len(),
{
    let probe = Probe::Unvisited;
    lemma_count_bound(m, freshes(probe));
    match m.first_fresh(c, probe) {
        Some((next, _)) => {
            lemma_flooding_forward(m0, m, start, stack, c, d, longest, farthest, best, place);
            let far = d + 1;
            lemma_flood_run(
                m0,
                m.put(next, CellKind::PathKind(far as i64)),
                start,
                stack.push(c),
                next,
                far,
                longest,
                farthest,
                if far > best {
                    far
                } else {
                    best
                },
                if far > best {
                    next
                } else {
                    place
                },
            );
        },
        None => {
            if stack.len() == 0 {
                lemma_first_fresh(m, c, probe);
                assert(stack =~= Seq::<Coord>::empty());
                lemma_covered(m0, m, probe, start, c);
                assert forall|x: int, y: int|
                    #![trigger m.at(x, y)]
                    if fresh(probe, m0.at(x, y)) && reached(m0, probe, start, x, y) {
                        let k = m.at(x, y)->PathKind_0;
                        is_path(m.at(x, y)) && 1 <= k <= MAX_CELLS && next_to(m, x, y, k - 1)
                    } else {
                        m.at(x, y) == m0.at(x, y)
                    } by {
                    assert(counting(m0, m, best, x, y));
                }
                assert forall|x: int, y: int|
                    #![trigger m.at(x, y)]
                    m.at(x, y) != m0.at(x, y) implies m.at(x, y)->PathKind_0 <= best by {
                    assert(counting(m0, m, best, x, y));
                }
                assert forall|x: int, y: int|
                    #![trigger sealed_in(m, probe, x, y)]
                    m.at(x, y) != m0.at(x, y) || (x == start.x && y == start.y) implies sealed_in(
                    m,
                    probe,
                    x,
                    y,
                ) by {
                    if !(x == c.x && y == c.y) {
                        assert(!in_hand(stack, c, x, y));
                    }
                }
            } else {
                lemma_flooding_back(m0, m, start, stack, c, d, longest, farthest, best, place);
                let n = stack.last();
                lemma_flood_run(
                    m0,
                    m,
                    start,
                    stack.drop_last(),
                    n,
                    m.kind(n)->PathKind_0 as int,
                    longest,
                    farthest,
                    best,
                    place,
                );
            }
        },
    }
}

/// What holds of the counts while they are spread: each cell that has changed
/// holds a count of at least 1, one more than that of a neighbour, and low
/// enough for the cells still to be reached to be counted on top of it.
pub open spec fn counting(m0: MazeView, m: MazeView, best: int, x: int, y: int) -> bool {
    m.at(x, y) != m0.at(x, y) ==> ({
        let d = m.at(x, y)->PathKind_0;
        &&& is_path(m.at(x, y))
        &&& 1 <= d <= best
        &&& d + m.count(freshes(Probe::Unvisited)) <= m0.count(freshes(Probe::Unvisited))
        &&& next_to(m, x, y, d - 1)
    })
}

impl Maze {
    /// Spreads the label `f` from the open cell `o` over the open cells that
    /// hold another label, as far as one can walk over such cells.
    pub fn relabel(&mut self, f: i64, o: &Coord)
        requires
            old(self).wf(),
            old(self)@.holds(*o),
            is_path(old(self)@.kind(*o)),
        ensures
            final(self).wf(),
            relabelled(old(self)@, f, *o, final(self)@),
            final(self)@ == old(self)@.spread_label(f, *o),
            final(self)@.kind(*o) == CellKind::PathKind(f),
    {
        let ghost m0 = self@;
        let probe = Probe::Unlabelled(f);
        let mut stack: Vec<Coord> = Vec::new();
        let mut c = *o;
        proof {
            lemma_put(m0, c, CellKind::PathKind(f));
            lemma_reached_start(m0, probe, *o);
        }
        self.set_path(&c, f);
        stack.push(c);
        proof {
            let m = self@;
            assert forall|x: int, y: int|
                #![trigger m.at(x, y)]
                m.at(x, y) != m0.at(x, y) implies fresh(probe, m0.at(x, y)) && !fresh(
                probe,
                m.at(x, y),
            ) && reached(m0, probe, *o, x, y) by {}
            assert(m =~= (MazeView { grid: m.grid, ..m0 }));
        }
        loop
            invariant
                self.wf(),
                probe == Probe::Unlabelled(f),
                searching(m0, self@, probe, *o, stack@, c),
                forall|x: int, y: int|
                    #![trigger self@.at(x, y)]
                    self@.at(x, y) != m0.at(x, y) ==> self@.at(x, y) == CellKind::PathKind(f),
                self@.kind(*o) == CellKind::PathKind(f),
            ensures
                self.wf(),
                relabelled(m0, f, *o, self@),
                self@.kind(*o) == CellKind::PathKind(f),
            decreases self@.count(freshes(probe)), stack.len(),
        {
            let ghost m = self@;
            let ghost stack0 = stack@;
            match self.walk(&c, &probe) {
                Some((next, _)) => {
                    proof {
                        lemma_search_forward(
                            m0,
                            m,
                            probe,
                            *o,
                            stack@,
                            c,
                            next,
                            CellKind::PathKind(f),
                        );
                        lemma_put(m, next, CellKind::PathKind(f));
                    }
                    self.set_path(&next, f);
                    stack.push(c);
                    c = next;
                },
                None => match stack.pop() {
                    Some(n) => {
                        proof {
                            lemma_search_back(m0, m, probe, *o, stack0, c);
                        }
                        c = n;
                    },
                    None => {
                        proof {
                            lemma_first_fresh(m, c, probe);
                            assert(stack@ =~= Seq::<Coord>::empty());
                            lemma_covered(m0, m, probe, *o, c);
                        }
                        break ;
                    },
                },
            }
        }
        proof {
            lemma_relabelled(m0, f, *o, self@);
        }
    }

    /// Spreads counts of steps from the cell `start`, which holds 0, over the
    /// cells not reached yet, as far as one can walk over such cells: each one
    /// gets the count of the cell from which the walk came to it, and one more.
    /// Hands back the greatest of `longest` and the counts given, and where
    /// that was given first, or `farthest`.
    pub fn flood(&mut self, start: &Coord, longest: i64, farthest: Coord) -> (r: (i64, Coord))
        requires
            old(self).wf(),
            old(self)@.holds(*start),
            old(self)@.kind(*start) == CellKind::PathKind(0),
            0 <= longest <= MAX_CELLS,
        ensures
            final(self).wf(),
            (Flood { maze: final(self)@, best: r.0 as int, place: r.1 }) == old(self)@.flood_from(
                *start,
                longest as int,
                farthest,
            ),
            flooded(old(self)@, *start, final(self)@),
            closed_off(old(self)@, *start, final(self)@),
            measured(old(self)@, final(self)@, longest as int, farthest, r.0 as int, r.1),
    {
        let ghost m0 = self@;
        let probe = Probe::Unvisited;
        let mut stack: Vec<Coord> = Vec::new();
        let mut c = *start;
        let mut d: i64 = 0;
        let mut best = longest;
        let mut place = farthest;
        proof {
            lemma_flooding_start(m0, *start, longest as int, farthest);
            lemma_flood_run(
                m0,
                m0,
                *start,
                Seq::empty(),
                *start,
                0,
                longest as int,
                farthest,
                longest as int,
                farthest,
            );
        }
        loop
            invariant
                self.wf(),
                probe == Probe::Unvisited,
                flooding(
                    m0,
                    self@,
                    *start,
                    stack@,
                    c,
                    d as int,
                    longest as int,
                    farthest,
                    best as int,
                    place,
                ),
                flood_run(self@, stack@, c, d as int, best as int, place) == m0.flood_from(
                    *start,
                    longest as int,
                    farthest,
                ),
            ensures
                self.wf(),
                (Flood { maze: self@, best: best as int, place: place }) == m0.flood_from(
                    *start,
                    longest as int,
                    farthest,
                ),
            decreases self@.count(freshes(probe)), stack.len(),
        {
            let ghost m = self@;
            let ghost stack0 = stack@;
            match self.walk(&c, &probe) {
                Some((next, _)) => {
                    proof {
                        lemma_flooding_forward(
                            m0,
                            m,
                            *start,
                            stack0,
                            c,
                            d as int,
                            longest as int,
                            farthest,
                            best as int,
                            place,
                        );
                        lemma_put(m, next, CellKind::PathKind((d + 1) as i64));
                    }
                    d = d + 1;
                    if d > best {
                        best = d;
                        place = next;
                    }
                    self.set_path(&next, d);
                    stack.push(c);
                    c = next;
                },
                None => match stack.pop() {
                    Some(n) => {
                        proof {
                            lemma_flooding_back(
                                m0,
                                m,
                                *start,
                                stack0,
                                c,
                                d as int,
                                longest as int,
                                farthest,
                                best as int,
                                place,
                            );
                        }
                        c = n;
                        if let CellKind::PathKind(f) = self.cell_kind(&c) {
                            d = f;
                        }
                    },
                    None => {
                        proof {
                            assert(stack@ =~= Seq::<Coord>::empty());
                        }
                        break ;
                    },
                },
            }
        }
        (best, place)
    }
}

} // verus!
