//! Facts about positions, lists of positions and writing walls on the grid,
//! which the generators' invariants rest on.

use crate::frontier::{horizontal_part, swap_removed, vertical_part};
use crate::geometry::{Coord, Direction};
use crate::maze::{lemma_count_put, lemma_put, CellKind, MazeView};
use vstd::prelude::*;

verus! {

/// Whether `(x, y)` is a room: both coordinates even.
pub open spec fn is_room(x: int, y: int) -> bool {
    x % 2 == 0 && y % 2 == 0
}

/// Whether `(x, y)` is a corner: both coordinates odd.
pub open spec fn is_corner(x: int, y: int) -> bool {
    x % 2 != 0 && y % 2 != 0
}

/// Whether `(x, y)` is a slot between two rooms: exactly one coordinate odd.
pub open spec fn is_slot(x: int, y: int) -> bool {
    (x % 2 == 0) != (y % 2 == 0)
}

/// Whether `(x, y)` is one step away from `c`.
pub open spec fn near(x: int, y: int, c: Coord) -> bool {
    (x == c.x && (y == c.y - 1 || y == c.y + 1)) || (y == c.y && (x == c.x - 1 || x == c.x + 1))
}

/// Whether `(x, y)` is in the list `s`.
pub open spec fn listed(s: Seq<Coord>, x: int, y: int) -> bool {
    exists|i: int| 0 <= i < s.len() && (#[trigger] s[i]).x == x && s[i].y == y
}

/// Whether no position is twice in the list `s`.
pub open spec fn distinct(s: Seq<Coord>) -> bool {
    forall|i: int, j: int| 0 <= i < j < s.len() ==> #[trigger] s[i] != #[trigger] s[j]
}

/// Whether a cell is open.
pub open spec fn is_path(k: CellKind) -> bool {
    k is PathKind
}

/// Counts the open cells.
pub open spec fn paths() -> spec_fn(int, int, CellKind) -> bool {
    |x: int, y: int, k: CellKind| k is PathKind
}

/// Counts the cells at which nothing is decided.
pub open spec fn blanks() -> spec_fn(int, int, CellKind) -> bool {
    |x: int, y: int, k: CellKind| k == CellKind::Undefined
}

/// Counts the open rooms.
pub open spec fn open_rooms() -> spec_fn(int, int, CellKind) -> bool {
    |x: int, y: int, k: CellKind| k is PathKind && is_room(x, y)
}

/// Counts the open slots.
pub open spec fn open_slots() -> spec_fn(int, int, CellKind) -> bool {
    |x: int, y: int, k: CellKind| k is PathKind && is_slot(x, y)
}

/// Walls written at positions of the grid keep the maze's frame and are seen
/// at those positions and nowhere else.
pub proof fn lemma_wall_all(m: MazeView, walls: Seq<Coord>)
    requires
        m.shaped(),
        forall|i: int| 0 <= i < walls.len() ==> m.holds(#[trigger] walls[i]),
    ensures
        m.wall_all(walls).shaped(),
        m.wall_all(walls) == (MazeView { grid: m.wall_all(walls).grid, ..m }),
        forall|x: int, y: int| #[trigger]
            m.wall_all(walls).at(x, y) == if listed(walls, x, y) {
                CellKind::WallKind
            } else {
                m.at(x, y)
            },
    decreases walls.len(),
{
    if walls.len() > 0 {
        let rest = walls.drop_last();
        let last = walls.last();
        lemma_wall_all(m, rest);
        let r = m.wall_all(rest);
        assert(m.holds(walls[walls.len() - 1]));
        lemma_put(r, last, CellKind::WallKind);
        assert forall|x: int, y: int| #[trigger]
            m.wall_all(walls).at(x, y) == if listed(walls, x, y) {
                CellKind::WallKind
            } else {
                m.at(x, y)
            } by {
            if listed(rest, x, y) {
                let i = choose|i: int| 0 <= i < rest.len() && (#[trigger] rest[i]).x == x && rest[i].y == y;
                assert(walls[i] == rest[i]);
            }
            if listed(walls, x, y) {
                let i = choose|i: int| 0 <= i < walls.len() && (#[trigger] walls[i]).x == x && walls[i].y == y;
                if i < rest.len() {
                    assert(rest[i] == walls[i]);
                }
            }
            if x == last.x && y == last.y {
                assert(walls[walls.len() - 1].x == x);
            }
        }
    } else {
        assert(m.wall_all(walls) =~= (MazeView { grid: m.wall_all(walls).grid, ..m }));
    }
}

/// Walls written where the old content weighs as much as a wall change no count.
pub proof fn lemma_wall_all_keeps(
    m: MazeView,
    walls: Seq<Coord>,
    p: spec_fn(int, int, CellKind) -> bool,
)
    requires
        m.shaped(),
        forall|i: int| 0 <= i < walls.len() ==> m.holds(#[trigger] walls[i]),
        forall|i: int|
            0 <= i < walls.len() ==> p(
                (#[trigger] walls[i]).x as int,
                walls[i].y as int,
                m.kind(walls[i]),
            ) == p(walls[i].x as int, walls[i].y as int, CellKind::WallKind),
    ensures
        m.wall_all(walls).count(p) == m.count(p),
    decreases walls.len(),
{
    if walls.len() > 0 {
        let rest = walls.drop_last();
        let last = walls.last();
        assert forall|i: int| 0 <= i < rest.len() implies p(
            (#[trigger] rest[i]).x as int,
            rest[i].y as int,
            m.kind(rest[i]),
        ) == p(rest[i].x as int, rest[i].y as int, CellKind::WallKind) by {
            assert(rest[i] == walls[i]);
        }
        lemma_wall_all_keeps(m, rest, p);
        lemma_wall_all(m, rest);
        let r = m.wall_all(rest);
        assert(m.holds(walls[walls.len() - 1]));
        lemma_count_put(r, last, CellKind::WallKind, p);
        assert(r.at(last.x as int, last.y as int) == CellKind::WallKind || r.kind(last) == m.kind(
            last,
        ));
    }
}

/// Walls written at distinct undecided positions take as many from the count of
/// undecided positions.
pub proof fn lemma_wall_all_fills(m: MazeView, walls: Seq<Coord>)
    requires
        m.shaped(),
        distinct(walls),
        forall|i: int|
            0 <= i < walls.len() ==> m.holds(#[trigger] walls[i]) && m.kind(walls[i])
                == CellKind::Undefined,
    ensures
        m.wall_all(walls).count(blanks()) + walls.len() == m.count(blanks()),
    decreases walls.len(),
{
    if walls.len() > 0 {
        let rest = walls.drop_last();
        let last = walls.last();
        assert forall|i: int| 0 <= i < rest.len() implies m.holds(#[trigger] rest[i]) && m.kind(
            rest[i],
        ) == CellKind::Undefined by {
            assert(rest[i] == walls[i]);
        }
        assert forall|i: int, j: int| 0 <= i < j < rest.len() implies #[trigger] rest[i]
            != #[trigger] rest[j] by {
            assert(rest[i] == walls[i] && rest[j] == walls[j]);
        }
        lemma_wall_all_fills(m, rest);
        lemma_wall_all(m, rest);
        let r = m.wall_all(rest);
        assert(m.holds(walls[walls.len() - 1]));
        lemma_count_put(r, last, CellKind::WallKind, blanks());
        if listed(rest, last.x as int, last.y as int) {
            let i = choose|i: int|
                0 <= i < rest.len() && (#[trigger] rest[i]).x == last.x && rest[i].y == last.y;
            assert(walls[i] == rest[i]);
            assert(walls[i] == walls[walls.len() - 1]);
        }
        assert(r.kind(last) == CellKind::Undefined);
    }
}

/// The undecided neighbours of a position of the grid: at most four, each once,
/// each on the grid, one step away and undecided; and every such position is
/// among them.
pub proof fn lemma_around(m: MazeView, c: Coord)
    requires
        m.shaped(),
        m.holds(c),
    ensures
        m.undefined_around(c).len() <= 4,
        distinct(m.undefined_around(c)),
        forall|i: int|
            0 <= i < m.undefined_around(c).len() ==> {
                let n = #[trigger] m.undefined_around(c)[i];
                m.holds(n) && m.kind(n) == CellKind::Undefined && near(n.x as int, n.y as int, c)
            },
        forall|x: int, y: int|
            m.inside(x, y) && near(x, y, c) && m.at(x, y) == CellKind::Undefined ==> #[trigger] listed(
                m.undefined_around(c),
                x,
                y,
            ),
{
    let up = m.undefined_towards(c, Direction::Up);
    let down = m.undefined_towards(c, Direction::Down);
    let left = m.undefined_towards(c, Direction::Left);
    let right = m.undefined_towards(c, Direction::Right);
    let ws = m.undefined_around(c);
    assert(ws =~= up + down + left + right);
    assert forall|x: int, y: int|
        m.inside(x, y) && near(x, y, c) && m.at(x, y) == CellKind::Undefined implies #[trigger] listed(
        ws,
        x,
        y,
    ) by {
        if x == c.x && y == c.y - 1 {
            assert(ws[0].x == x && ws[0].y == y);
        } else if x == c.x && y == c.y + 1 {
            assert(ws[up.len() as int].x == x && ws[up.len() as int].y == y);
        } else if y == c.y && x == c.x - 1 {
            let i = (up.len() + down.len()) as int;
            assert(ws[i].x == x && ws[i].y == y);
        } else {
            let i = (up.len() + down.len() + left.len()) as int;
            assert(ws[i].x == x && ws[i].y == y);
        }
    }
}

/// How a list of walls parts into vertical and horizontal candidates: each
/// part holds the walls of its kind and no others, once each if the list had
/// them once each, and the two parts are no longer than the list.
pub proof fn lemma_parts(ws: Seq<Coord>)
    ensures
        forall|x: int, y: int| #[trigger]
            listed(vertical_part(ws), x, y) <==> listed(ws, x, y) && x % 2 == 0,
        forall|x: int, y: int| #[trigger]
            listed(horizontal_part(ws), x, y) <==> listed(ws, x, y) && x % 2 != 0 && y % 2 == 0,
        distinct(ws) ==> distinct(vertical_part(ws)) && distinct(horizontal_part(ws)),
        vertical_part(ws).len() + horizontal_part(ws).len() <= ws.len(),
    decreases ws.len(),
{
    if ws.len() > 0 {
        let rest = ws.drop_last();
        let last = ws.last();
        lemma_parts(rest);
        let v = vertical_part(ws);
        let h = horizontal_part(ws);
        let rv = vertical_part(rest);
        let rh = horizontal_part(rest);
        reveal(Seq::filter);
        assert(v == if last.x % 2 == 0 {
            rv.push(last)
        } else {
            rv
        });
        assert(h == if last.x % 2 != 0 && last.y % 2 == 0 {
            rh.push(last)
        } else {
            rh
        });
        assert forall|x: int, y: int| #[trigger]
            listed(ws, x, y) <==> listed(rest, x, y) || (x == last.x && y == last.y) by {
            if listed(ws, x, y) {
                let i = choose|i: int| 0 <= i < ws.len() && (#[trigger] ws[i]).x == x && ws[i].y == y;
                if i < rest.len() {
                    assert(rest[i] == ws[i]);
                }
            }
            if listed(rest, x, y) {
                let i = choose|i: int|
                    0 <= i < rest.len() && (#[trigger] rest[i]).x == x && rest[i].y == y;
                assert(ws[i] == rest[i]);
            }
            if x == last.x && y == last.y {
                assert(ws[ws.len() - 1].x == x);
            }
        }
        assert forall|x: int, y: int| #[trigger]
            listed(v, x, y) <==> listed(ws, x, y) && x % 2 == 0 by {
            assert(listed(rv, x, y) <==> listed(rest, x, y) && x % 2 == 0);
            if listed(v, x, y) {
                let i = choose|i: int| 0 <= i < v.len() && (#[trigger] v[i]).x == x && v[i].y == y;
                if i < rv.len() {
                    assert(rv[i] == v[i]);
                }
            }
            if listed(rv, x, y) {
                let i = choose|i: int| 0 <= i < rv.len() && (#[trigger] rv[i]).x == x && rv[i].y == y;
                assert(v[i] == rv[i]);
            }
            if x == last.x && y == last.y && x % 2 == 0 {
                assert(v[v.len() - 1].x == x);
            }
        }
        assert forall|x: int, y: int| #[trigger]
            listed(h, x, y) <==> listed(ws, x, y) && x % 2 != 0 && y % 2 == 0 by {
            assert(listed(rh, x, y) <==> listed(rest, x, y) && x % 2 != 0 && y % 2 == 0);
            if listed(h, x, y) {
                let i = choose|i: int| 0 <= i < h.len() && (#[trigger] h[i]).x == x && h[i].y == y;
                if i < rh.len() {
                    assert(rh[i] == h[i]);
                }
            }
            if listed(rh, x, y) {
                let i = choose|i: int| 0 <= i < rh.len() && (#[trigger] rh[i]).x == x && rh[i].y == y;
                assert(h[i] == rh[i]);
            }
            if x == last.x && y == last.y && x % 2 != 0 && y % 2 == 0 {
                assert(h[h.len() - 1].x == x);
            }
        }
        if distinct(ws) {
            assert forall|i: int, j: int| 0 <= i < j < rest.len() implies #[trigger] rest[i]
                != #[trigger] rest[j] by {
                assert(rest[i] == ws[i] && rest[j] == ws[j]);
            }
            assert(!listed(rest, last.x as int, last.y as int)) by {
                if listed(rest, last.x as int, last.y as int) {
                    let i = choose|i: int|
                        0 <= i < rest.len() && (#[trigger] rest[i]).x == last.x && rest[i].y
                            == last.y;
                    assert(ws[i] == rest[i]);
                    assert(ws[i] == ws[ws.len() - 1]);
                }
            }
            assert forall|i: int, j: int| 0 <= i < j < v.len() implies #[trigger] v[i]
                != #[trigger] v[j] by {
                if j < rv.len() {
                    assert(rv[i] == v[i] && rv[j] == v[j]);
                } else {
                    assert(rv[i] == v[i]);
                    assert(listed(rv, v[i].x as int, v[i].y as int));
                }
            }
            assert forall|i: int, j: int| 0 <= i < j < h.len() implies #[trigger] h[i]
                != #[trigger] h[j] by {
                if j < rh.len() {
                    assert(rh[i] == h[i] && rh[j] == h[j]);
                } else {
                    assert(rh[i] == h[i]);
                    assert(listed(rh, h[i].x as int, h[i].y as int));
                }
            }
        }
    }
}

/// What a list holds after one more position was appended.
pub proof fn lemma_listed_add(a: Seq<Coord>, b: Seq<Coord>)
    ensures
        forall|x: int, y: int| #[trigger] listed(a + b, x, y) <==> listed(a, x, y) || listed(b, x, y),
        distinct(a) && distinct(b) && (forall|i: int|
            0 <= i < b.len() ==> !listed(a, (#[trigger] b[i]).x as int, b[i].y as int)) ==> distinct(
            a + b,
        ),
{
    let s = a + b;
    assert forall|x: int, y: int| #[trigger] listed(s, x, y) <==> listed(a, x, y) || listed(b, x, y) by {
        if listed(s, x, y) {
            let i = choose|i: int| 0 <= i < s.len() && (#[trigger] s[i]).x == x && s[i].y == y;
            if i < a.len() {
                assert(a[i] == s[i]);
            } else {
                assert(b[i - a.len()] == s[i]);
            }
        }
        if listed(a, x, y) {
            let i = choose|i: int| 0 <= i < a.len() && (#[trigger] a[i]).x == x && a[i].y == y;
            assert(s[i] == a[i]);
        }
        if listed(b, x, y) {
            let i = choose|i: int| 0 <= i < b.len() && (#[trigger] b[i]).x == x && b[i].y == y;
            assert(s[i + a.len()] == b[i]);
        }
    }
    if distinct(a) && distinct(b) && (forall|i: int|
        0 <= i < b.len() ==> !listed(a, (#[trigger] b[i]).x as int, b[i].y as int)) {
        assert forall|i: int, j: int| 0 <= i < j < s.len() implies #[trigger] s[i] != #[trigger] s[j] by {
            if j < a.len() {
                assert(a[i] == s[i] && a[j] == s[j]);
            } else if i >= a.len() {
                assert(b[i - a.len()] == s[i] && b[j - a.len()] == s[j]);
            } else {
                assert(a[i] == s[i] && b[j - a.len()] == s[j]);
                assert(!listed(a, b[j - a.len()].x as int, b[j - a.len()].y as int));
            }
        }
    }
}

/// The two positions that the slot `(x, y)` lies between.
pub open spec fn slot_ends(x: int, y: int) -> ((int, int), (int, int)) {
    if x % 2 == 0 {
        ((x, y - 1), (x, y + 1))
    } else {
        ((x - 1, y), (x + 1, y))
    }
}

/// The position `e` if the grid has it.
pub open spec fn toward(m: MazeView, e: (int, int)) -> Option<Coord> {
    if m.inside(e.0, e.1) {
        Some(Coord { x: e.0 as usize, y: e.1 as usize })
    } else {
        None
    }
}

/// A list without one of its items: what it still holds.
pub proof fn lemma_swap_removed(s: Seq<Coord>, i: int)
    requires
        0 <= i < s.len(),
        distinct(s),
    ensures
        swap_removed(s, i).len() + 1 == s.len(),
        distinct(swap_removed(s, i)),
        forall|j: int|
            0 <= j < swap_removed(s, i).len() ==> listed(
                s,
                (#[trigger] swap_removed(s, i)[j]).x as int,
                swap_removed(s, i)[j].y as int,
            ),
        forall|x: int, y: int| #[trigger]
            listed(swap_removed(s, i), x, y) <==> listed(s, x, y) && !(x == s[i].x && y == s[i].y),
{
    let t = swap_removed(s, i);
    let last = s.len() - 1;
    assert forall|j: int| 0 <= j < t.len() implies listed(
        s,
        (#[trigger] t[j]).x as int,
        t[j].y as int,
    ) by {
        if j == i {
            assert(s[last] == t[j]);
        } else {
            assert(s[j] == t[j]);
        }
    }
    assert forall|x: int, y: int| #[trigger]
        listed(t, x, y) <==> listed(s, x, y) && !(x == s[i].x && y == s[i].y) by {
        if listed(t, x, y) {
            let j = choose|j: int| 0 <= j < t.len() && (#[trigger] t[j]).x == x && t[j].y == y;
            if j == i {
                assert(s[last] == t[j]);
                assert(s[last] != s[i]);
            } else {
                assert(s[j] == t[j]);
                assert(s[j] != s[i]);
            }
        }
        if listed(s, x, y) && !(x == s[i].x && y == s[i].y) {
            let j = choose|j: int| 0 <= j < s.len() && (#[trigger] s[j]).x == x && s[j].y == y;
            if j == last {
                assert(t[i] == s[j]);
            } else {
                assert(t[j] == s[j]);
            }
        }
    }
    assert forall|j: int, k: int| 0 <= j < k < t.len() implies #[trigger] t[j] != #[trigger] t[k] by {
        let a = if j == i {
            last
        } else {
            j
        };
        let b = if k == i {
            last
        } else {
            k
        };
        assert(t[j] == s[a] && t[k] == s[b]);
        if a < b {
            assert(s[a] != s[b]);
        } else {
            assert(s[b] != s[a]);
        }
    }
}

/// What a list holds after one more position was put on it.
pub proof fn lemma_listed_push(s: Seq<Coord>, c: Coord)
    ensures
        forall|x: int, y: int| #[trigger]
            listed(s.push(c), x, y) <==> listed(s, x, y) || (x == c.x && y == c.y),
{
    let t = s.push(c);
    assert forall|x: int, y: int| #[trigger]
        listed(t, x, y) <==> listed(s, x, y) || (x == c.x && y == c.y) by {
        if listed(t, x, y) {
            let i = choose|i: int| 0 <= i < t.len() && (#[trigger] t[i]).x == x && t[i].y == y;
            if i < s.len() {
                assert(s[i] == t[i]);
            }
        }
        if listed(s, x, y) {
            let i = choose|i: int| 0 <= i < s.len() && (#[trigger] s[i]).x == x && s[i].y == y;
            assert(t[i] == s[i]);
        }
        if x == c.x && y == c.y {
            assert(t[t.len() - 1].x == x);
        }
    }
}

/// What a list holds before its last position is taken off.
pub proof fn lemma_listed_pop(s: Seq<Coord>)
    requires
        s.len() > 0,
    ensures
        forall|x: int, y: int| #[trigger]
            listed(s, x, y) <==> listed(s.drop_last(), x, y) || (x == s.last().x && y == s.last().y),
{
    assert(s =~= s.drop_last().push(s.last()));
    lemma_listed_push(s.drop_last(), s.last());
}

} // verus!
