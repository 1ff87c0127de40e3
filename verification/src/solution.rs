//! The way from the origin to the end, and how far every other open cell lies
//! from it.

use crate::geometry::{Coord, Direction};
use crate::lattice::{is_path, lemma_listed_pop, listed};
use crate::maze::{
    lemma_count_put, lemma_put, CellKind, Maze, MazeView, Scale, MAX_CELLS, UNVISITED,
};
use crate::search::{
    closed_off, flooded, fresh, freshes, lemma_covered, lemma_first_fresh, lemma_flood_run,
    lemma_flooding_start, lemma_reached_start, lemma_search_back, lemma_search_forward, measured,
    next_to, reached, sealed_in, searching, spreads, Flood, Probe,
};
use crate::walks::{adjacent, connected, is_walk, lemma_walk_trim, linked};
use vstd::prelude::*;

verus! {

/// The positions of a sequence of steps.
pub open spec fn places(steps: Seq<(Coord, Direction)>) -> Seq<Coord> {
    Seq::new(steps.len(), |i: int| steps[i].0)
}

/// The way that the walk which stands at `c`, with the steps `stack` behind
/// it, finds to `goal` over the cells of `m` not reached yet: it moves to the
/// first neighbour not reached yet, which it marks, or, where there is none,
/// goes one step back; it has arrived when the neighbour is `goal`.
pub open spec fn seek_run(m: MazeView, stack: Seq<(Coord, Direction)>, c: Coord, goal: Coord) -> Option<
    Seq<(Coord, Direction)>,
>
    decreases m.count(freshes(Probe::Unvisited)), stack.len(),
    when m.shaped() && m.holds(c)
    via seek_run_decreases
{
    match m.first_fresh(c, Probe::Unvisited) {
        Some((next, dir)) => if next == goal {
            Some(stack.push((c, dir)))
        } else {
            seek_run(m.put(next, CellKind::PathKind(0)), stack.push((c, dir)), next, goal)
        },
        None => if stack.len() == 0 {
            None
        } else {
            seek_run(m, stack.drop_last(), stack.last().0, goal)
        },
    }
}

/// Each move takes one from the cells still to be reached, and each step back
/// one from the stack.
#[via_fn]
proof fn seek_run_decreases(m: MazeView, stack: Seq<(Coord, Direction)>, c: Coord, goal: Coord) {
    let probe = Probe::Unvisited;
    lemma_first_fresh(m, c, probe);
    match m.first_fresh(c, probe) {
        Some((next, _)) => {
            lemma_count_put(m, next, CellKind::PathKind(0), freshes(probe));
        },
        None => {},
    }
}

/// Whether the steps `stack` lead from `start` to `c`, each from its position
/// to the next.
pub open spec fn chained(m: MazeView, stack: Seq<(Coord, Direction)>, start: Coord, c: Coord) -> bool {
    if stack.len() == 0 {
        c == start
    } else {
        &&& stack[0].0 == start
        &&& forall|i: int|
            0 <= i < stack.len() - 1 ==> m.step((#[trigger] stack[i]).0, stack[i].1) == Some(
                stack[i + 1].0,
            )
        &&& m.step(stack.last().0, stack.last().1) == Some(c)
    }
}

/// Whether `route` is a way from `start` to `goal` over open cells: it starts
/// at `start`, each step leads to the position of the next, and the last step
/// leads to `goal`.
pub open spec fn is_route(m: MazeView, route: Seq<(Coord, Direction)>, start: Coord, goal: Coord) -> bool {
    &&& route.len() > 0
    &&& chained(m, route, start, goal)
    &&& forall|i: int|
        0 <= i < route.len() ==> m.holds((#[trigger] route[i]).0) && is_path(m.kind(route[i].0))
    &&& m.holds(goal)
    &&& is_path(m.kind(goal))
}

/// What holds while the walk seeks `goal` from `start` over the maze `m0`,
/// which has become `m`.
pub open spec fn seeking(
    m0: MazeView,
    m: MazeView,
    start: Coord,
    goal: Coord,
    stack: Seq<(Coord, Direction)>,
    c: Coord,
) -> bool {
    let probe = Probe::Unvisited;
    &&& searching(m0, m, probe, start, places(stack), c)
    &&& chained(m0, stack, start, c)
    &&& m.kind(goal) == m0.kind(goal)
    &&& is_path(m0.kind(start))
    &&& goal != start
    &&& forall|x: int, y: int|
        #![trigger m.at(x, y)]
        m.at(x, y) != m0.at(x, y) ==> m.at(x, y) == CellKind::PathKind(0)
}

/// Moving on to a neighbour not reached yet keeps what holds of the seeking,
/// unless the neighbour is the goal: then the steps made are a way to it.
pub proof fn lemma_seeking_forward(
    m0: MazeView,
    m: MazeView,
    start: Coord,
    goal: Coord,
    stack: Seq<(Coord, Direction)>,
    c: Coord,
)
    requires
        seeking(m0, m, start, goal, stack, c),
        m.first_fresh(c, Probe::Unvisited) is Some,
    ensures
        ({
            let (next, dir) = m.first_fresh(c, Probe::Unvisited)->0;
            let m2 = m.put(next, CellKind::PathKind(0));
            &&& m.holds(next)
            &&& m2.count(freshes(Probe::Unvisited)) + 1 == m.count(freshes(Probe::Unvisited))
            &&& if next == goal {
                is_route(m0, stack.push((c, dir)), start, goal)
            } else {
                seeking(m0, m2, start, goal, stack.push((c, dir)), next)
            }
        }),
{
    let probe = Probe::Unvisited;
    let (next, dir) = m.first_fresh(c, probe)->0;
    let k = CellKind::PathKind(0);
    lemma_first_fresh(m, c, probe);
    lemma_search_forward(m0, m, probe, start, places(stack), c, next, k);
    lemma_chained_push(m0, stack, start, c, dir, next);
    lemma_put(m, next, k);
    if next == goal {
        let route = stack.push((c, dir));
        assert forall|i: int| 0 <= i < route.len() implies m0.holds((#[trigger] route[i]).0)
            && is_path(m0.kind(route[i].0)) by {
            let p = route[i].0;
            if i < stack.len() {
                assert(route[i] == stack[i]);
                assert(places(stack)[i] == p);
                assert(m.holds(places(stack)[i]));
            }
            lemma_open_in_hand(m0, m, start, p);
        }
    } else {
        let m2 = m.put(next, k);
        let kg = m.at(goal.x as int, goal.y as int);
        assert forall|x: int, y: int|
            #![trigger m2.at(x, y)]
            m2.at(x, y) != m0.at(x, y) implies m2.at(x, y) == k by {
            let a = m.at(x, y);
        }
    }
}

/// Going one step back keeps what holds of the seeking.
pub proof fn lemma_seeking_back(
    m0: MazeView,
    m: MazeView,
    start: Coord,
    goal: Coord,
    stack: Seq<(Coord, Direction)>,
    c: Coord,
)
    requires
        seeking(m0, m, start, goal, stack, c),
        m.first_fresh(c, Probe::Unvisited) is None,
        stack.len() > 0,
    ensures
        seeking(m0, m, start, goal, stack.drop_last(), stack.last().0),
{
    lemma_chained_pop(m0, stack, start, c);
    lemma_search_back(m0, m, Probe::Unvisited, start, places(stack), c);
}

/// A step that `chained` steps can be followed by keeps them chained.
proof fn lemma_chained_push(m: MazeView, stack: Seq<(Coord, Direction)>, start: Coord, c: Coord, dir: Direction, next: Coord)
    requires
        chained(m, stack, start, c),
        m.step(c, dir) == Some(next),
    ensures
        chained(m, stack.push((c, dir)), start, next),
        places(stack.push((c, dir))) == places(stack).push(c),
{
    let t = stack.push((c, dir));
    assert(places(t) =~= places(stack).push(c));
    assert forall|i: int| 0 <= i < t.len() - 1 implies m.step((#[trigger] t[i]).0, t[i].1) == Some(
        t[i + 1].0,
    ) by {
        if i < stack.len() - 1 {
            assert(t[i] == stack[i] && t[i + 1] == stack[i + 1]);
        } else {
            assert(t[i] == stack[stack.len() - 1]);
        }
    }
    if stack.len() > 0 {
        assert(t[0] == stack[0]);
    }
}

/// Steps that are chained are still chained without the last.
proof fn lemma_chained_pop(m: MazeView, stack: Seq<(Coord, Direction)>, start: Coord, c: Coord)
    requires
        chained(m, stack, start, c),
        stack.len() > 0,
    ensures
        chained(m, stack.drop_last(), start, stack.last().0),
        places(stack.drop_last()) == places(stack).drop_last(),
        places(stack).last() == stack.last().0,
        places(stack).len() > 0,
{
    let t = stack.drop_last();
    assert(places(t) =~= places(stack).drop_last());
    if t.len() > 0 {
        assert(t[0] == stack[0]);
        assert forall|i: int| 0 <= i < t.len() - 1 implies m.step((#[trigger] t[i]).0, t[i].1)
            == Some(t[i + 1].0) by {
            assert(t[i] == stack[i] && t[i + 1] == stack[i + 1]);
        }
        assert(t.last() == stack[stack.len() - 2]);
        assert(stack[stack.len() - 2 + 1] == stack.last());
    }
}

/// What the walk that seeks `goal` finds, from any state on the way: a way
/// from `start` to `goal` over open cells if it finds one, and if it finds
/// none, no walk could spread from `start` to `goal`.
pub proof fn lemma_seek_run(
    m0: MazeView,
    m: MazeView,
    start: Coord,
    goal: Coord,
    stack: Seq<(Coord, Direction)>,
    c: Coord,
)
    requires
        seeking(m0, m, start, goal, stack, c),
    ensures
        match seek_run(m, stack, c, goal) {
            Some(route) => is_route(m0, route, start, goal),
            None => !(fresh(Probe::Unvisited, m0.kind(goal)) && reached(
                m0,
                Probe::Unvisited,
                start,
                goal.x as int,
                goal.y as int,
            )),
        },
    decreases m.count(freshes(Probe::Unvisited)), stack.len(),
{
    let probe = Probe::Unvisited;
    match m.first_fresh(c, probe) {
        Some((next, dir)) => {
            lemma_seeking_forward(m0, m, start, goal, stack, c);
            if next != goal {
                lemma_seek_run(
                    m0,
                    m.put(next, CellKind::PathKind(0)),
                    start,
                    goal,
                    stack.push((c, dir)),
                    next,
                );
            }
        },
        None => {
            if stack.len() == 0 {
                lemma_first_fresh(m, c, probe);
                assert(places(stack) =~= Seq::<Coord>::empty());
                lemma_covered(m0, m, probe, start, c);
                let kg = m.at(goal.x as int, goal.y as int);
            } else {
                lemma_seeking_back(m0, m, start, goal, stack, c);
                lemma_seek_run(m0, m, start, goal, stack.drop_last(), stack.last().0);
            }
        },
    }
}

/// A position that the walk has in hand is an open cell of the maze it
/// started on.
proof fn lemma_open_in_hand(m0: MazeView, m: MazeView, start: Coord, p: Coord)
    requires
        m.shaped(),
        m0.shaped(),
        m == (MazeView { grid: m.grid, ..m0 }),
        is_path(m0.kind(start)),
        m.holds(p),
        reached(m0, Probe::Unvisited, start, p.x as int, p.y as int),
    ensures
        m0.holds(p),
        is_path(m0.kind(p)),
{
    let probe = Probe::Unvisited;
    let s = choose|s: Seq<(int, int)>|
        spreads(m0, probe, s) && #[trigger] s.first() == (start.x as int, start.y as int) && s.last()
            == (p.x as int, p.y as int);
    if s.len() > 1 {
        assert(fresh(probe, m0.at(s[s.len() - 1].0, s[s.len() - 1].1)));
    }
}

impl MazeView {
    /// The maze on which the way to the end is sought: every open cell marked
    /// as not reached, but the origin.
    pub open spec fn at_start(self) -> MazeView {
        self.cleared().put(self.origin, CellKind::PathKind(0))
    }

    /// The way from the origin to the end that the walk finds, step by step:
    /// none where the origin is not open or no walk leads to the end, no step
    /// where the origin is the end.
    pub open spec fn solution(self) -> Option<Seq<(Coord, Direction)>> {
        if !is_path(self.kind(self.origin)) {
            None
        } else if self.origin == self.end {
            Some(Seq::empty())
        } else {
            seek_run(self.at_start(), Seq::empty(), self.origin, self.end)
        }
    }
}

/// What the cleared maze holds.
pub proof fn lemma_cleared(m: MazeView)
    requires
        m.shaped(),
    ensures
        m.cleared().shaped(),
        m.cleared() == (MazeView { grid: m.cleared().grid, ..m }),
        forall|x: int, y: int| #[trigger]
            m.cleared().at(x, y) == if is_path(m.at(x, y)) {
                CellKind::PathKind(UNVISITED)
            } else {
                m.at(x, y)
            },
{
    let c = m.cleared();
    assert forall|x: int, y: int| #[trigger] c.grid.dom().contains((x, y)) <==> c.inside(x, y) by {}
    assert forall|x: int, y: int| #[trigger]
        c.at(x, y) == if is_path(m.at(x, y)) {
            CellKind::PathKind(UNVISITED)
        } else {
            m.at(x, y)
        } by {
        assert(m.grid.dom().contains((x, y)) <==> m.inside(x, y));
    }
    assert(c =~= (MazeView { grid: c.grid, ..m }));
}

/// Clearing a maze gives the same whatever numbers its open cells held.
pub proof fn lemma_cleared_again(m: MazeView, n: MazeView)
    requires
        m.shaped(),
        n.shaped(),
        n == (MazeView { grid: n.grid, ..m }),
        forall|x: int, y: int|
            #![trigger n.at(x, y)]
            if is_path(m.at(x, y)) {
                is_path(n.at(x, y))
            } else {
                n.at(x, y) == m.at(x, y)
            },
    ensures
        n.cleared() == m.cleared(),
{
    let a = n.cleared();
    let b = m.cleared();
    assert forall|p: (int, int)| a.grid.dom().contains(p) <==> b.grid.dom().contains(p) by {}
    assert forall|p: (int, int)| a.grid.dom().contains(p) implies #[trigger] a.grid[p]
        == b.grid[p] by {
        assert(m.grid.dom().contains((p.0, p.1)) <==> m.inside(p.0, p.1));
        assert(n.grid.dom().contains((p.0, p.1)) <==> n.inside(p.0, p.1));
        let x = n.at(p.0, p.1);
        let y = m.at(p.0, p.1);
    }
    assert(a.grid =~= b.grid);
    assert(a =~= b);
}

/// The walk that seeks the end starts in a state in which `seeking` holds.
proof fn lemma_seeking_start(m: MazeView)
    requires
        m.shaped(),
        is_path(m.kind(m.origin)),
        m.origin != m.end,
    ensures
        m.at_start().shaped(),
        seeking(m.at_start(), m.at_start(), m.origin, m.end, Seq::empty(), m.origin),
        forall|x: int, y: int| #[trigger]
            m.at_start().at(x, y) == if x == m.origin.x && y == m.origin.y {
                CellKind::PathKind(0)
            } else if is_path(m.at(x, y)) {
                CellKind::PathKind(UNVISITED)
            } else {
                m.at(x, y)
            },
{
    let m0 = m.at_start();
    lemma_cleared(m);
    lemma_put(m.cleared(), m.origin, CellKind::PathKind(0));
    lemma_reached_start(m0, Probe::Unvisited, m.origin);
    assert(places(Seq::<(Coord, Direction)>::empty()) =~= Seq::<Coord>::empty());
    assert(m0 =~= (MazeView { grid: m0.grid, ..m0 }));
    assert forall|x: int, y: int| #[trigger]
        m0.at(x, y) == if x == m.origin.x && y == m.origin.y {
            CellKind::PathKind(0)
        } else if is_path(m.at(x, y)) {
            CellKind::PathKind(UNVISITED)
        } else {
            m.at(x, y)
        } by {
        let a = m.cleared().at(x, y);
    }
}

/// The positions of a way, with the position it leads to, as a walk.
pub open spec fn trail(route: Seq<(Coord, Direction)>, goal: Coord) -> Seq<(int, int)> {
    Seq::new(
        (route.len() + 1) as nat,
        |i: int|
            if i < route.len() {
                (route[i].0.x as int, route[i].0.y as int)
            } else {
                (goal.x as int, goal.y as int)
            },
    )
}

/// A way over open cells is a walk.
pub proof fn lemma_route_walk(m: MazeView, route: Seq<(Coord, Direction)>, start: Coord, goal: Coord)
    requires
        m.shaped(),
        is_route(m, route, start, goal),
    ensures
        is_walk(m, trail(route, goal)),
        trail(route, goal).first() == (start.x as int, start.y as int),
        trail(route, goal).last() == (goal.x as int, goal.y as int),
{
    let t = trail(route, goal);
    assert forall|i: int| 0 <= i < t.len() implies is_path(m.at((#[trigger] t[i]).0, t[i].1)) by {
        if i < route.len() {
            assert(m.holds(route[i].0));
        }
    }
    assert forall|i: int| 0 <= i < t.len() - 1 implies adjacent(#[trigger] t[i], t[i + 1]) by {
        assert(m.holds(route[i].0));
        if i < route.len() - 1 {
            assert(m.step(route[i].0, route[i].1) == Some(route[i + 1].0));
        } else {
            assert(route[i] == route.last());
        }
    }
}

/// The walk finds a way from the origin to the end where there is one, and
/// only there; and what it finds is a way over open cells, from the origin to
/// the end.
pub proof fn lemma_solution(m: MazeView)
    requires
        m.shaped(),
    ensures
        m.solution() is Some <==> linked(
            m,
            (m.origin.x as int, m.origin.y as int),
            (m.end.x as int, m.end.y as int),
        ),
        m.solution() matches Some(route) ==> if m.origin == m.end {
            route.len() == 0
        } else {
            is_route(m, route, m.origin, m.end)
        },
{
    let o = (m.origin.x as int, m.origin.y as int);
    let e = (m.end.x as int, m.end.y as int);
    let probe = Probe::Unvisited;
    if !is_path(m.kind(m.origin)) {
        if linked(m, o, e) {
            let s = choose|s: Seq<(int, int)>| is_walk(m, s) && #[trigger] s.first() == o && s.last() == e;
            assert(is_path(m.at(s[0].0, s[0].1)));
        }
    } else if m.origin == m.end {
        let s = seq![o];
        assert(is_walk(m, s) && s.first() == o && s.last() == e);
    } else {
        let m0 = m.at_start();
        lemma_seeking_start(m);
        lemma_seek_run(m0, m0, m.origin, m.end, Seq::empty(), m.origin);
        match m.solution() {
            Some(route) => {
                assert(is_route(m0, route, m.origin, m.end));
                assert forall|i: int| 0 <= i < route.len() implies m.holds((#[trigger] route[i]).0)
                    && is_path(m.kind(route[i].0)) by {
                    let a = m0.at(route[i].0.x as int, route[i].0.y as int);
                }
                let ae = m0.at(e.0, e.1);
                assert(is_route(m, route, m.origin, m.end));
                lemma_route_walk(m, route, m.origin, m.end);
            },
            None => {
                if linked(m, o, e) {
                    let s = choose|s: Seq<(int, int)>|
                        is_walk(m, s) && #[trigger] s.first() == o && s.last() == e;
                    let t = lemma_walk_trim(m, s, o);
                    assert forall|i: int| 1 <= i < t.len() implies fresh(
                        probe,
                        m0.at((#[trigger] t[i]).0, t[i].1),
                    ) by {
                        assert(is_path(m.at(t[i].0, t[i].1)));
                        assert(t[i] != o);
                    }
                    assert(spreads(m0, probe, t) && t.first() == o && t.last() == e);
                    assert(is_path(m.at(t[t.len() - 1].0, t[t.len() - 1].1)));
                    let ae = m0.at(e.0, e.1);
                    assert(false);
                }
            },
        }
    }
}

impl Maze {
    /// Seeks the way from the origin to the end: the steps of the walk that
    /// goes, from the origin, to the first neighbour it has not been at,
    /// looking up, down, left and right, and one step back where there is
    /// none, until a step leads to the end. Leaves every open cell marked as
    /// not reached.
    pub fn solution_path(&mut self) -> (r: Option<Vec<(Coord, Direction)>>)
        requires
            old(self).wf(),
        ensures
            final(self).wf(),
            final(self)@ == old(self)@.cleared(),
            match r {
                Some(route) => old(self)@.solution() == Some(route@),
                None => old(self)@.solution() is None,
            },
    {
        let ghost before = self@;
        let origin = self.origin();
        let end = self.end();
        proof {
            lemma_cleared(before);
        }
        let found: Option<Vec<(Coord, Direction)>> = if let CellKind::PathKind(_) = self.cell_kind(
            &origin,
        ) {
            if origin.x == end.x && origin.y == end.y {
                Some(Vec::new())
            } else {
                self.clear_path();
                proof {
                    lemma_put(self@, origin, CellKind::PathKind(0));
                    lemma_seeking_start(before);
                }
                self.set_path(&origin, 0);
                self.seek(&origin, &end)
            }
        } else {
            None
        };
        proof {
            lemma_cleared_again(before, self@);
        }
        self.clear_path();
        found
    }

    /// Seeks `goal` from `start`, step by step.
    fn seek(&mut self, start: &Coord, goal: &Coord) -> (r: Option<Vec<(Coord, Direction)>>)
        requires
            old(self).wf(),
            seeking(old(self)@, old(self)@, *start, *goal, Seq::empty(), *start),
        ensures
            final(self).wf(),
            final(self)@ == (MazeView { grid: final(self)@.grid, ..old(self)@ }),
            forall|x: int, y: int|
                #![trigger final(self)@.at(x, y)]
                if is_path(old(self)@.at(x, y)) {
                    is_path(final(self)@.at(x, y))
                } else {
                    final(self)@.at(x, y) == old(self)@.at(x, y)
                },
            match r {
                Some(route) => seek_run(old(self)@, Seq::empty(), *start, *goal) == Some(route@),
                None => seek_run(old(self)@, Seq::empty(), *start, *goal) is None,
            },
    {
        let ghost m0 = self@;
        let probe = Probe::Unvisited;
        let mut sol: Vec<(Coord, Direction)> = Vec::new();
        let mut c = *start;
        loop
            invariant
                self.wf(),
                probe == Probe::Unvisited,
                m0 == old(self)@,
                seeking(m0, self@, *start, *goal, sol@, c),
                seek_run(self@, sol@, c, *goal) == seek_run(m0, Seq::empty(), *start, *goal),
            decreases self@.count(freshes(probe)), sol.len(),
        {
            let ghost m = self@;
            let ghost stack0 = sol@;
            match self.walk(&c, &probe) {
                Some((next, direction)) => {
                    proof {
                        lemma_seeking_forward(m0, m, *start, *goal, stack0, c);
                    }
                    sol.push((c, direction));
                    if next.x == goal.x && next.y == goal.y {
                        proof {
                            lemma_seek_frame(m0, m);
                        }
                        return Some(sol);
                    }
                    self.set_path(&next, 0);
                    c = next;
                },
                None => match sol.pop() {
                    Some((back, _)) => {
                        proof {
                            lemma_seeking_back(m0, m, *start, *goal, stack0, c);
                        }
                        c = back;
                    },
                    None => {
                        proof {
                            lemma_seek_frame(m0, m);
                        }
                        return None;
                    },
                },
            }
        }
    }
}

/// The walk leaves open what was open and changes nothing else.
proof fn lemma_seek_frame(m0: MazeView, m: MazeView)
    requires
        m.shaped(),
        m0.shaped(),
        m == (MazeView { grid: m.grid, ..m0 }),
        forall|x: int, y: int|
            #![trigger m.at(x, y)]
            m.at(x, y) != m0.at(x, y) ==> fresh(Probe::Unvisited, m0.at(x, y)) && m.at(x, y)
                == CellKind::PathKind(0),
    ensures
        forall|x: int, y: int|
            #![trigger m.at(x, y)]
            if is_path(m0.at(x, y)) {
                is_path(m.at(x, y))
            } else {
                m.at(x, y) == m0.at(x, y)
            },
{
}

/// The positions of a way, with the position it leads to.
pub open spec fn route_cells(route: Seq<(Coord, Direction)>, goal: Coord) -> Seq<Coord> {
    places(route).push(goal)
}

/// What is left when counts of steps were spread from each of `cells`, from
/// the one at place `i` on, one after the other, `best` being the greatest
/// count given before.
pub open spec fn flood_each(m: MazeView, cells: Seq<Coord>, i: int, best: int, spare: Coord) -> Flood
    decreases cells.len() - i,
{
    if 0 <= i < cells.len() {
        let f = m.flood_from(cells[i], best, spare);
        flood_each(f.maze, cells, i + 1, f.best, spare)
    } else {
        Flood { maze: m, best: best, place: spare }
    }
}

impl MazeView {
    /// The same maze with the count 0 at each position of `cells`.
    pub open spec fn zeroed(self, cells: Seq<Coord>) -> MazeView
        decreases cells.len(),
    {
        if cells.len() == 0 {
            self
        } else {
            self.zeroed(cells.drop_last()).put(cells.last(), CellKind::PathKind(0))
        }
    }

    /// The maze graded by the solution: the cells of the way from the origin
    /// to the end hold 0, every other open cell that a walk reaches from the
    /// way holds its count of steps away from it, and the numbers are to be read
    /// on a logarithmic scale whose top is the greatest count. Where there is
    /// no way, every open cell is marked as not reached.
    pub open spec fn solved(self) -> MazeView {
        match self.solution() {
            None => self.cleared().read_as(Scale::Solution(0)),
            Some(route) => {
                let cells = route_cells(route, self.end);
                let f = flood_each(self.cleared().zeroed(cells), cells, 0, 0, self.origin);
                f.maze.read_as(Scale::Solution(f.best as i64))
            },
        }
    }
}

/// The count 0 written at positions of the grid is seen at those positions
/// and nowhere else.
pub proof fn lemma_zeroed(m: MazeView, cells: Seq<Coord>)
    requires
        m.shaped(),
        forall|i: int| 0 <= i < cells.len() ==> m.holds(#[trigger] cells[i]),
    ensures
        m.zeroed(cells).shaped(),
        m.zeroed(cells) == (MazeView { grid: m.zeroed(cells).grid, ..m }),
        forall|x: int, y: int| #[trigger]
            m.zeroed(cells).at(x, y) == if listed(cells, x, y) {
                CellKind::PathKind(0)
            } else {
                m.at(x, y)
            },
    decreases cells.len(),
{
    if cells.len() > 0 {
        let rest = cells.drop_last();
        let last = cells.last();
        lemma_zeroed(m, rest);
        let r = m.zeroed(rest);
        assert(m.holds(cells[cells.len() - 1]));
        lemma_put(r, last, CellKind::PathKind(0));
        lemma_listed_pop(cells);
        assert forall|x: int, y: int| #[trigger]
            m.zeroed(cells).at(x, y) == if listed(cells, x, y) {
                CellKind::PathKind(0)
            } else {
                m.at(x, y)
            } by {
            let a = r.at(x, y);
            assert(listed(cells, x, y) <==> listed(rest, x, y) || (x == last.x && y == last.y));
        }
    } else {
        assert(m.zeroed(cells) =~= (MazeView { grid: m.zeroed(cells).grid, ..m }));
    }
}

/// What a cell holds while counts are spread from one cell of the way after
/// another: what it held, or, where it had to be reached, a count of at least
/// 1, one more than a neighbour's.
pub open spec fn marked(mz: MazeView, m: MazeView, best: int, x: int, y: int) -> bool {
    m.at(x, y) != mz.at(x, y) ==> ({
        let d = m.at(x, y)->PathKind_0;
        &&& mz.at(x, y) == CellKind::PathKind(UNVISITED)
        &&& is_path(m.at(x, y))
        &&& 1 <= d <= best
        &&& next_to(m, x, y, d - 1)
    })
}

/// What holds when counts were spread from the first `i` of `cells` over the
/// maze `mz`, which has become `m`.
pub open spec fn grading(mz: MazeView, m: MazeView, cells: Seq<Coord>, i: int, best: int) -> bool {
    &&& m.shaped()
    &&& mz.shaped()
    &&& m == (MazeView { grid: m.grid, ..mz })
    &&& 0 <= i <= cells.len()
    &&& forall|j: int|
        0 <= j < cells.len() ==> mz.holds(#[trigger] cells[j]) && mz.kind(cells[j])
            == CellKind::PathKind(0)
    &&& forall|x: int, y: int| #[trigger] marked(mz, m, best, x, y)
    &&& forall|x: int, y: int|
        #![trigger sealed_in(m, Probe::Unvisited, x, y)]
        m.at(x, y) != mz.at(x, y) || listed(cells.take(i), x, y) ==> sealed_in(
            m,
            Probe::Unvisited,
            x,
            y,
        )
    &&& 0 <= best <= MAX_CELLS
    &&& best > 0 ==> exists|x: int, y: int| #[trigger] m.at(x, y) == CellKind::PathKind(best as i64)
}

/// Spreading counts from the next cell of the way keeps what holds of the
/// grading.
pub proof fn lemma_grading_step(mz: MazeView, m: MazeView, cells: Seq<Coord>, i: int, best: int, spare: Coord)
    requires
        grading(mz, m, cells, i, best),
        i < cells.len(),
    ensures
        m.holds(cells[i]),
        m.kind(cells[i]) == CellKind::PathKind(0),
        grading(
            mz,
            m.flood_from(cells[i], best, spare).maze,
            cells,
            i + 1,
            m.flood_from(cells[i], best, spare).best,
        ),
{
    let probe = Probe::Unvisited;
    let start = cells[i];
    assert(marked(mz, m, best, start.x as int, start.y as int));
    let f = m.flood_from(start, best, spare);
    let n = f.maze;
    lemma_flooding_start(m, start, best, spare);
    lemma_flood_run(m, m, start, Seq::empty(), start, 0, best, spare, best, spare);
    assert(flooded(m, start, n) && closed_off(m, start, n) && measured(
        m,
        n,
        best,
        spare,
        f.best,
        f.place,
    ));
    assert(n =~= (MazeView { grid: n.grid, ..mz }));
    assert forall|x: int, y: int| #[trigger] marked(mz, n, f.best, x, y) by {
        assert(marked(mz, m, best, x, y));
        let a = n.at(x, y);
        let b = m.at(x, y);
        let k1 = n.at(x - 1, y);
        let k2 = n.at(x + 1, y);
        let k3 = n.at(x, y - 1);
        let k4 = n.at(x, y + 1);
        let j1 = m.at(x - 1, y);
        let j2 = m.at(x + 1, y);
        let j3 = m.at(x, y - 1);
        let j4 = m.at(x, y + 1);
    }
    lemma_listed_pop(cells.take(i + 1));
    assert(cells.take(i + 1).drop_last() =~= cells.take(i));
    assert(cells.take(i + 1).last() == start);
    assert forall|x: int, y: int|
        #![trigger sealed_in(n, probe, x, y)]
        n.at(x, y) != mz.at(x, y) || listed(cells.take(i + 1), x, y) implies sealed_in(
        n,
        probe,
        x,
        y,
    ) by {
        let a = n.at(x, y);
        let b = m.at(x, y);
        let k1 = n.at(x - 1, y);
        let k2 = n.at(x + 1, y);
        let k3 = n.at(x, y - 1);
        let k4 = n.at(x, y + 1);
        let j1 = m.at(x - 1, y);
        let j2 = m.at(x + 1, y);
        let j3 = m.at(x, y - 1);
        let j4 = m.at(x, y + 1);
        if a != b || (x == start.x && y == start.y) {
            assert(sealed_in(n, probe, x, y));
        } else {
            assert(sealed_in(m, probe, x, y));
        }
    }
    if f.best > 0 {
        if f.best > best {
            assert(n.at(f.place.x as int, f.place.y as int) == CellKind::PathKind(f.best as i64));
        } else {
            let (x, y) = choose|x: int, y: int| #[trigger]
                m.at(x, y) == CellKind::PathKind(best as i64);
            let a = n.at(x, y);
            assert(n.at(x, y) == CellKind::PathKind(f.best as i64));
        }
    }
}

/// What spreading counts from each cell of the way leaves.
pub proof fn lemma_flood_each(mz: MazeView, m: MazeView, cells: Seq<Coord>, i: int, best: int, spare: Coord)
    requires
        grading(mz, m, cells, i, best),
    ensures
        grading(
            mz,
            flood_each(m, cells, i, best, spare).maze,
            cells,
            cells.len() as int,
            flood_each(m, cells, i, best, spare).best,
        ),
        flood_each(m, cells, i, best, spare).place == spare,
    decreases cells.len() - i,
{
    if i < cells.len() {
        lemma_grading_step(mz, m, cells, i, best, spare);
        let f = m.flood_from(cells[i], best, spare);
        lemma_flood_each(mz, f.maze, cells, i + 1, f.best, spare);
    }
}

/// Whether `r` is the maze `m` graded by the way through `cells`, with `top`
/// the greatest count: the cells of the way hold 0; every other open cell
/// holds a count of at least 1 and at most `top`, one more than a neighbour's,
/// or is marked as not reached; no cell that holds a count lies next to one
/// marked as not reached; and nothing else has changed.
pub open spec fn graded(m: MazeView, cells: Seq<Coord>, top: int, r: MazeView) -> bool {
    &&& r.shaped()
    &&& r == (MazeView { grid: r.grid, scale: r.scale, ..m })
    &&& r.scale == Scale::Solution(top as i64)
    &&& 0 <= top <= MAX_CELLS
    &&& forall|x: int, y: int|
        #![trigger r.at(x, y)]
        if listed(cells, x, y) {
            r.at(x, y) == CellKind::PathKind(0)
        } else if is_path(m.at(x, y)) {
            let d = r.at(x, y)->PathKind_0;
            is_path(r.at(x, y)) && (d == UNVISITED || (1 <= d <= top && next_to(r, x, y, d - 1)))
        } else {
            r.at(x, y) == m.at(x, y)
        }
    &&& forall|x: int, y: int|
        #![trigger sealed_in(r, Probe::Unvisited, x, y)]
        is_path(r.at(x, y)) && !fresh(Probe::Unvisited, r.at(x, y)) ==> sealed_in(
            r,
            Probe::Unvisited,
            x,
            y,
        )
    &&& top > 0 ==> exists|x: int, y: int| #[trigger] r.at(x, y) == CellKind::PathKind(top as i64)
}

/// The top of the scale on which a maze is read, if it is read by the
/// solution.
pub open spec fn top_of(m: MazeView) -> int {
    match m.scale {
        Scale::Solution(t) => t as int,
        _ => 0,
    }
}

/// What grading by the solution leaves: where a walk leads from the origin to
/// the end, the maze graded by the way that was found; where none does, every
/// open cell marked as not reached.
pub proof fn lemma_solved(m: MazeView)
    requires
        m.shaped(),
    ensures
        m.solved().shaped(),
        match m.solution() {
            Some(route) => graded(m, route_cells(route, m.end), top_of(m.solved()), m.solved()),
            None => m.solved() == m.cleared().read_as(Scale::Solution(0)),
        },
{
    let probe = Probe::Unvisited;
    lemma_solution(m);
    lemma_cleared(m);
    match m.solution() {
        None => {},
        Some(route) => {
            let cells = route_cells(route, m.end);
            lemma_route_cells(m, route);
            let mc = m.cleared();
            let mz = mc.zeroed(cells);
            lemma_zeroed(mc, cells);
            assert(mz =~= (MazeView { grid: mz.grid, ..mz }));
            assert forall|j: int| 0 <= j < cells.len() implies mz.holds(#[trigger] cells[j])
                && mz.kind(cells[j]) == CellKind::PathKind(0) by {
                assert(listed(cells, cells[j].x as int, cells[j].y as int));
            }
            assert(cells.take(0) =~= Seq::<Coord>::empty());
            assert(grading(mz, mz, cells, 0, 0));
            lemma_flood_each(mz, mz, cells, 0, 0, m.origin);
            let f = flood_each(mz, cells, 0, 0, m.origin);
            let r = m.solved();
            assert(cells.take(cells.len() as int) =~= cells);
            assert(r =~= (MazeView { grid: r.grid, scale: r.scale, ..m }));
            assert forall|x: int, y: int|
                #![trigger r.at(x, y)]
                if listed(cells, x, y) {
                    r.at(x, y) == CellKind::PathKind(0)
                } else if is_path(m.at(x, y)) {
                    let d = r.at(x, y)->PathKind_0;
                    is_path(r.at(x, y)) && (d == UNVISITED || (1 <= d <= f.best && next_to(
                        r,
                        x,
                        y,
                        d - 1,
                    )))
                } else {
                    r.at(x, y) == m.at(x, y)
                } by {
                assert(marked(mz, f.maze, f.best, x, y));
                let a = mz.at(x, y);
                let b = mc.at(x, y);
                let k1 = f.maze.at(x - 1, y);
                let k2 = f.maze.at(x + 1, y);
                let k3 = f.maze.at(x, y - 1);
                let k4 = f.maze.at(x, y + 1);
            }
            assert forall|x: int, y: int|
                #![trigger sealed_in(r, probe, x, y)]
                is_path(r.at(x, y)) && !fresh(probe, r.at(x, y)) implies sealed_in(r, probe, x, y) by {
                let a = mz.at(x, y);
                let b = mc.at(x, y);
                let c = f.maze.at(x, y);
                assert(sealed_in(f.maze, probe, x, y));
                let k1 = f.maze.at(x - 1, y);
                let k2 = f.maze.at(x + 1, y);
                let k3 = f.maze.at(x, y - 1);
                let k4 = f.maze.at(x, y + 1);
            }
            if f.best > 0 {
                let (x, y) = choose|x: int, y: int| #[trigger]
                    f.maze.at(x, y) == CellKind::PathKind(f.best as i64);
                assert(r.at(x, y) == CellKind::PathKind(f.best as i64));
            }
        },
    }
}

/// The cells of the way that was found are cells of the grid, and open.
pub proof fn lemma_route_cells(m: MazeView, route: Seq<(Coord, Direction)>)
    requires
        m.shaped(),
        m.solution() == Some(route),
    ensures
        forall|i: int|
            0 <= i < route_cells(route, m.end).len() ==> m.holds(
                #[trigger] route_cells(route, m.end)[i],
            ) && is_path(m.kind(route_cells(route, m.end)[i])),
{
    lemma_solution(m);
    let cells = route_cells(route, m.end);
    assert forall|i: int| 0 <= i < cells.len() implies m.holds(#[trigger] cells[i]) && is_path(
        m.kind(cells[i]),
    ) by {
        if i < route.len() {
            assert(cells[i] == route[i].0);
            assert(m.holds(route[i].0));
        }
    }
}

/// In a maze in one piece, grading by the solution leaves no open cell
/// unreached.
pub proof fn lemma_solved_connected(m: MazeView, x: int, y: int)
    requires
        m.shaped(),
        connected(m),
        is_path(m.kind(m.origin)),
        is_path(m.kind(m.end)),
        is_path(m.at(x, y)),
    ensures
        m.solution() is Some,
        is_path(m.solved().at(x, y)),
        m.solved().at(x, y) != CellKind::PathKind(UNVISITED),
{
    let probe = Probe::Unvisited;
    let o = (m.origin.x as int, m.origin.y as int);
    let e = (m.end.x as int, m.end.y as int);
    let ke = m.at(e.0, e.1);
    lemma_solution(m);
    lemma_solved(m);
    let route = m.solution()->0;
    let cells = route_cells(route, m.end);
    let r = m.solved();
    let kp = m.at(x, y);
    let s = choose|s: Seq<(int, int)>| is_walk(m, s) && #[trigger] s.first() == o && s.last() == (x, y);
    // the origin is the first cell of the way
    assert(cells[0] == m.origin) by {
        if route.len() > 0 {
            assert(cells[0] == route[0].0);
        }
    }
    assert(listed(cells, o.0, o.1));
    lemma_walk_reached(m, r, cells, s, s.len() - 1);
}

/// In a graded maze every cell of a walk that starts on the way holds a
/// count.
proof fn lemma_walk_reached(m: MazeView, r: MazeView, cells: Seq<Coord>, s: Seq<(int, int)>, i: int)
    requires
        is_walk(m, s),
        graded(m, cells, top_of(r), r),
        listed(cells, s[0].0, s[0].1),
        0 <= i < s.len(),
    ensures
        is_path(r.at(s[i].0, s[i].1)),
        !fresh(Probe::Unvisited, r.at(s[i].0, s[i].1)),
    decreases i,
{
    let probe = Probe::Unvisited;
    let a = r.at(s[i].0, s[i].1);
    assert(is_path(m.at(s[i].0, s[i].1)));
    if i > 0 {
        lemma_walk_reached(m, r, cells, s, i - 1);
        assert(adjacent(s[i - 1], s[i - 1 + 1]));
        assert(sealed_in(r, probe, s[i - 1].0, s[i - 1].1));
    }
}

impl Maze {
    /// Gives each position of `cells` the count 0.
    fn zero(&mut self, cells: &Vec<Coord>)
        requires
            old(self).wf(),
            forall|i: int| 0 <= i < cells.len() ==> old(self)@.holds(#[trigger] cells[i]),
        ensures
            final(self).wf(),
            final(self)@ == old(self)@.zeroed(cells@),
    {
        let mut i: usize = 0;
        while i < cells.len()
            invariant
                i <= cells.len(),
                self.wf(),
                self@ == old(self)@.zeroed(cells@.take(i as int)),
                self@.width == old(self)@.width,
                self@.height == old(self)@.height,
                forall|j: int| 0 <= j < cells.len() ==> old(self)@.holds(#[trigger] cells[j]),
            decreases cells.len() - i,
        {
            let c = cells[i];
            self.set_path(&c, 0);
            proof {
                assert(cells@.take(i + 1).drop_last() =~= cells@.take(i as int));
            }
            i = i + 1;
        }
        proof {
            assert(cells@.take(cells.len() as int) =~= cells@);
        }
    }

    /// Spreads counts of steps from each of `cells`, one after the other, and
    /// hands back the greatest.
    fn flood_all(&mut self, cells: &Vec<Coord>, spare: Coord, Ghost(mz): Ghost<MazeView>) -> (top: i64)
        requires
            old(self).wf(),
            grading(mz, old(self)@, cells@, 0, 0),
        ensures
            final(self).wf(),
            (Flood { maze: final(self)@, best: top as int, place: spare }) == flood_each(
                old(self)@,
                cells@,
                0,
                0,
                spare,
            ),
            0 <= top <= MAX_CELLS,
    {
        let mut len: i64 = 0;
        let mut i: usize = 0;
        while i < cells.len()
            invariant
                i <= cells.len(),
                self.wf(),
                grading(mz, self@, cells@, i as int, len as int),
                flood_each(self@, cells@, i as int, len as int, spare) == flood_each(
                    old(self)@,
                    cells@,
                    0,
                    0,
                    spare,
                ),
            decreases cells.len() - i,
        {
            let c = cells[i];
            proof {
                lemma_grading_step(mz, self@, cells@, i as int, len as int, spare);
            }
            let (best, _) = self.flood(&c, len, spare);
            len = best;
            i = i + 1;
        }
        len
    }

    /// Grades the maze by the solution: seeks the way from the origin to the
    /// end, gives its cells the count 0, spreads from each of them, one after
    /// the other, the counts of steps away from the way, and has the numbers
    /// read on a logarithmic scale whose top is the greatest count.
    pub fn compute_solution(&mut self)
        requires
            old(self).wf(),
        ensures
            final(self).wf(),
            final(self)@ == old(self)@.solved(),
    {
        let ghost before = self@;
        let origin = self.origin();
        let end = self.end();
        proof {
            lemma_solution(before);
            lemma_cleared(before);
        }
        match self.solution_path() {
            None => {
                self.read_as(Scale::Solution(0));
            },
            Some(sol) => {
                let mut cells: Vec<Coord> = Vec::new();
                let mut i: usize = 0;
                while i < sol.len()
                    invariant
                        i <= sol.len(),
                        cells@ == places(sol@).take(i as int),
                    decreases sol.len() - i,
                {
                    cells.push(sol[i].0);
                    proof {
                        assert(places(sol@).take(i + 1) =~= places(sol@).take(i as int).push(
                            sol@[i as int].0,
                        ));
                    }
                    i = i + 1;
                }
                cells.push(end);
                proof {
                    assert(places(sol@).take(sol.len() as int) =~= places(sol@));
                    assert(cells@ == route_cells(sol@, end));
                    lemma_route_cells(before, sol@);
                    lemma_zeroed(self@, cells@);
                }
                self.zero(&cells);
                let ghost mz = self@;
                proof {
                    assert(mz =~= (MazeView { grid: mz.grid, ..mz }));
                    assert forall|j: int| 0 <= j < cells.len() implies mz.holds(#[trigger] cells[j])
                        && mz.kind(cells[j]) == CellKind::PathKind(0) by {
                        assert(listed(cells@, cells[j].x as int, cells[j].y as int));
                    }
                    assert(cells@.take(0) =~= Seq::<Coord>::empty());
                    assert(grading(mz, mz, cells@, 0, 0));
                }
                let top = self.flood_all(&cells, origin, Ghost(mz));
                self.read_as(Scale::Solution(top));
            },
        }
    }
}

} // verus!
