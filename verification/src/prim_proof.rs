//! Why each step of Prim's algorithm keeps its invariant, and what the
//! invariant gives when no wall waits.
//!
//! In the proofs a `let` that names what a position holds has no other use
//! than to bring that position to the prover's notice.

use crate::dice::{spec_wall_direction, Draws};
use crate::frontier::{horizontal_part, takes_vertical, vertical_part};
use crate::geometry::Coord;
use crate::lattice::{
    blanks, distinct, is_corner, is_path, is_room, is_slot, lemma_around, lemma_listed_add,
    lemma_parts, lemma_swap_removed, lemma_wall_all, lemma_wall_all_fills, lemma_wall_all_keeps,
    listed, near, open_rooms, open_slots, paths, slot_ends, toward,
};
use crate::maze::{
    lemma_count_agree, lemma_count_bound, lemma_count_put, lemma_count_zero, lemma_put, CellKind,
    MazeView, Scale, MAX_CELLS,
};
use crate::prim::{fenced_room, settled_slot, sound, waits, PrimView};
use crate::walks::{
    all_rooted, connected, counts_kept, lemma_rooted_connected, parented, peaked, resolved, rooted,
    settled,
};
use vstd::prelude::*;

verus! {

/// How the state `r` after the neighbours of `c` were closed and queued
/// relates to the state `p` before.
pub open spec fn ring_shape(p: PrimView, c: Coord, r: PrimView) -> bool {
    &&& r.maze.shaped()
    &&& r.maze == (MazeView { grid: r.maze.grid, ..p.maze })
    &&& forall|x: int, y: int| #[trigger]
        r.maze.at(x, y) == if p.maze.inside(x, y) && near(x, y, c) && p.maze.at(x, y)
            == CellKind::Undefined {
            CellKind::WallKind
        } else {
            p.maze.at(x, y)
        }
    &&& forall|x: int, y: int| #[trigger]
        listed(r.vwalls, x, y) <==> listed(p.vwalls, x, y) || (p.maze.inside(x, y) && near(x, y, c)
            && p.maze.at(x, y) == CellKind::Undefined && x % 2 == 0)
    &&& forall|x: int, y: int| #[trigger]
        listed(r.hwalls, x, y) <==> listed(p.hwalls, x, y) || (p.maze.inside(x, y) && near(x, y, c)
            && p.maze.at(x, y) == CellKind::Undefined && x % 2 != 0 && y % 2 == 0)
    &&& r.maze.count(paths()) == p.maze.count(paths())
    &&& r.maze.count(open_rooms()) == p.maze.count(open_rooms())
    &&& r.maze.count(open_slots()) == p.maze.count(open_slots())
    &&& r.fuel() <= p.fuel()
}

/// Whether nothing in the list `s` is undecided in `m`.
pub open spec fn all_decided(m: MazeView, s: Seq<Coord>) -> bool {
    forall|i: int| 0 <= i < s.len() ==> m.kind(#[trigger] s[i]) != CellKind::Undefined
}

/// Closing and queueing the undecided neighbours of a position changes the
/// grid at those neighbours only, opens nothing, and does not raise the fuel.
pub proof fn lemma_prim_ringed(p: PrimView, c: Coord)
    requires
        p.maze.shaped(),
        p.maze.holds(c),
    ensures
        ring_shape(p, c, p.ringed(c)),
        distinct(p.vwalls) && all_decided(p.maze, p.vwalls) ==> distinct(p.ringed(c).vwalls),
        distinct(p.hwalls) && all_decided(p.maze, p.hwalls) ==> distinct(p.ringed(c).hwalls),
{
    let m = p.maze;
    let ws = m.undefined_around(c);
    let r = p.ringed(c);
    lemma_around(m, c);
    lemma_wall_all(m, ws);
    lemma_parts(ws);
    lemma_listed_add(p.vwalls, vertical_part(ws));
    lemma_listed_add(p.hwalls, horizontal_part(ws));
    lemma_wall_all_keeps(m, ws, paths());
    lemma_wall_all_keeps(m, ws, open_rooms());
    lemma_wall_all_keeps(m, ws, open_slots());
    lemma_wall_all_fills(m, ws);
    assert forall|x: int, y: int| listed(ws, x, y) <==> m.inside(x, y) && near(x, y, c) && m.at(x, y)
        == CellKind::Undefined by {
        if listed(ws, x, y) {
            let i = choose|i: int| 0 <= i < ws.len() && (#[trigger] ws[i]).x == x && ws[i].y == y;
            assert(m.holds(ws[i]));
        }
    }
    assert forall|x: int, y: int| #[trigger]
        r.maze.at(x, y) == if m.inside(x, y) && near(x, y, c) && m.at(x, y) == CellKind::Undefined {
            CellKind::WallKind
        } else {
            m.at(x, y)
        } by {
        assert(listed(ws, x, y) <==> m.inside(x, y) && near(x, y, c) && m.at(x, y)
            == CellKind::Undefined);
    }
    assert forall|x: int, y: int| #[trigger]
        listed(r.vwalls, x, y) <==> listed(p.vwalls, x, y) || (m.inside(x, y) && near(x, y, c)
            && m.at(x, y) == CellKind::Undefined && x % 2 == 0) by {
        assert(listed(ws, x, y) <==> m.inside(x, y) && near(x, y, c) && m.at(x, y)
            == CellKind::Undefined);
        assert(listed(vertical_part(ws), x, y) <==> listed(ws, x, y) && x % 2 == 0);
    }
    assert forall|x: int, y: int| #[trigger]
        listed(r.hwalls, x, y) <==> listed(p.hwalls, x, y) || (m.inside(x, y) && near(x, y, c)
            && m.at(x, y) == CellKind::Undefined && x % 2 != 0 && y % 2 == 0) by {
        assert(listed(ws, x, y) <==> m.inside(x, y) && near(x, y, c) && m.at(x, y)
            == CellKind::Undefined);
        assert(listed(horizontal_part(ws), x, y) <==> listed(ws, x, y) && x % 2 != 0 && y % 2 == 0);
    }
    if distinct(p.vwalls) && all_decided(p.maze, p.vwalls) {
        let part = vertical_part(ws);
        assert forall|i: int| 0 <= i < part.len() implies !listed(
            p.vwalls,
            (#[trigger] part[i]).x as int,
            part[i].y as int,
        ) by {
            let n = part[i];
            assert(listed(part, n.x as int, n.y as int));
            assert(listed(ws, n.x as int, n.y as int));
            if listed(p.vwalls, n.x as int, n.y as int) {
                let j = choose|j: int|
                    0 <= j < p.vwalls.len() && (#[trigger] p.vwalls[j]).x == n.x && p.vwalls[j].y
                        == n.y;
                assert(m.kind(p.vwalls[j]) != CellKind::Undefined);
            }
        }
    }
    if distinct(p.hwalls) && all_decided(p.maze, p.hwalls) {
        let part = horizontal_part(ws);
        assert forall|i: int| 0 <= i < part.len() implies !listed(
            p.hwalls,
            (#[trigger] part[i]).x as int,
            part[i].y as int,
        ) by {
            let n = part[i];
            assert(listed(part, n.x as int, n.y as int));
            assert(listed(ws, n.x as int, n.y as int));
            if listed(p.hwalls, n.x as int, n.y as int) {
                let j = choose|j: int|
                    0 <= j < p.hwalls.len() && (#[trigger] p.hwalls[j]).x == n.x && p.hwalls[j].y
                        == n.y;
                assert(m.kind(p.hwalls[j]) != CellKind::Undefined);
            }
        }
    }
}

/// Taking a wall out of the lists leaves the invariant but for that wall, and
/// lowers the fuel by one.
pub proof fn lemma_prim_took(p: PrimView, pick: u64, side: u64)
    requires
        p.inv(),
        !p.done(),
    ensures
        p.took(pick, side).1.inv_but(Some(p.took(pick, side).0)),
        p.took(pick, side).1.fuel() + 1 == p.fuel(),
        p.took(pick, side).1.maze == p.maze,
{
    let (w, q) = p.took(pick, side);
    let v = p.vwalls;
    let h = p.hwalls;
    let vertical = takes_vertical(v.len(), h.len(), side, p.maze.bias);
    if vertical {
        let i = pick as int % v.len() as int;
        lemma_swap_removed(v, i);
        assert(waits(p.maze, v[i]));
        assert forall|j: int| 0 <= j < q.vwalls.len() implies waits(p.maze, #[trigger] q.vwalls[j])
            && q.vwalls[j].x % 2 == 0 by {
            let n = q.vwalls[j];
            assert(listed(v, n.x as int, n.y as int));
            let k = choose|k: int| 0 <= k < v.len() && (#[trigger] v[k]).x == n.x && v[k].y == n.y;
            assert(v[k] == n);
        }
        assert(!listed(h, w.x as int, w.y as int)) by {
            if listed(h, w.x as int, w.y as int) {
                let k = choose|k: int| 0 <= k < h.len() && (#[trigger] h[k]).x == w.x && h[k].y == w.y;
                assert(h[k].x % 2 != 0);
            }
        }
    } else {
        let i = pick as int % h.len() as int;
        lemma_swap_removed(h, i);
        assert(waits(p.maze, h[i]));
        assert forall|j: int| 0 <= j < q.hwalls.len() implies waits(p.maze, #[trigger] q.hwalls[j])
            && q.hwalls[j].x % 2 != 0 by {
            let n = q.hwalls[j];
            assert(listed(h, n.x as int, n.y as int));
            let k = choose|k: int| 0 <= k < h.len() && (#[trigger] h[k]).x == n.x && h[k].y == n.y;
            assert(h[k] == n);
        }
        assert(!listed(v, w.x as int, w.y as int)) by {
            if listed(v, w.x as int, w.y as int) {
                let k = choose|k: int| 0 <= k < v.len() && (#[trigger] v[k]).x == w.x && v[k].y == w.y;
                assert(v[k].x % 2 == 0);
            }
        }
    }
    assert forall|x: int, y: int|
        #![trigger settled_slot(q, x, y)]
        Some(w) == Some(Coord { x: x as usize, y: y as usize }) || settled_slot(q, x, y) by {
        assert(settled_slot(p, x, y));
        if q.maze.inside(x, y) && !(x == w.x && y == w.y) {
            assert(listed(q.vwalls, x, y) <==> listed(v, x, y));
            assert(listed(q.hwalls, x, y) <==> listed(h, x, y));
        }
    }
}

/// A grid with a position that is not open has fewer open cells than cells.
pub proof fn lemma_room_left(m: MazeView, w: Coord)
    requires
        m.shaped(),
        m.holds(w),
        !is_path(m.kind(w)),
    ensures
        m.count(paths()) + 1 <= m.width * m.height,
        m.count(paths()) + 1 <= MAX_CELLS,
{
    let n = m.put(w, CellKind::PathKind(0));
    lemma_put(m, w, CellKind::PathKind(0));
    lemma_count_put(m, w, CellKind::PathKind(0), paths());
    lemma_count_bound(n, paths());
}

/// Whether `far` names what lies at `e`: the position itself, undecided, if
/// the grid has it, and nothing if not.
pub open spec fn behind(m: MazeView, e: (int, int), far: Option<Coord>) -> bool {
    if m.inside(e.0, e.1) {
        far == Some(Coord { x: e.0 as usize, y: e.1 as usize }) && m.at(e.0, e.1)
            == CellKind::Undefined
    } else {
        far is None
    }
}

/// Whether every wall in the list `s` is closed and is not `w`.
pub open spec fn all_closed_but(m: MazeView, s: Seq<Coord>, w: Coord) -> bool {
    forall|i: int| 0 <= i < s.len() ==> m.kind(#[trigger] s[i]) == CellKind::WallKind && s[i] != w
}

/// What opening the wall `w` from a room at `d` steps, with `far` behind it,
/// needs of the state before.
pub open spec fn connect_ready(p: PrimView, w: Coord, d: i64, far: Option<Coord>) -> bool {
    let m = p.maze;
    let (a, b) = slot_ends(w.x as int, w.y as int);
    &&& m.shaped()
    &&& m.holds(w)
    &&& is_slot(w.x as int, w.y as int)
    &&& m.kind(w) == CellKind::WallKind
    &&& 0 <= d
    &&& d + 2 <= MAX_CELLS
    &&& distinct(p.vwalls)
    &&& distinct(p.hwalls)
    &&& all_closed_but(m, p.vwalls, w)
    &&& all_closed_but(m, p.hwalls, w)
    &&& (is_path(m.at(a.0, a.1)) && behind(m, b, far)) || (is_path(m.at(b.0, b.1)) && behind(
        m,
        a,
        far,
    ))
}

/// Whether the wall `w`, taken out of the lists, has a room of the maze at `d`
/// steps on one side and `far` on the other.
pub open spec fn can_connect(p: PrimView, w: Coord, d: i64, far: Option<Coord>) -> bool {
    let (a, b) = slot_ends(w.x as int, w.y as int);
    &&& p.inv_but(Some(w))
    &&& (p.maze.at(a.0, a.1) == CellKind::PathKind(d) && behind(p.maze, b, far)) || (p.maze.at(
        b.0,
        b.1,
    ) == CellKind::PathKind(d) && behind(p.maze, a, far))
}

/// A wall that can be opened by the invariant's lights is ready to be opened.
pub proof fn lemma_can_connect(p: PrimView, w: Coord, d: i64, far: Option<Coord>)
    requires
        can_connect(p, w, d, far),
    ensures
        connect_ready(p, w, d, far),
        d <= p.maze.len,
{
    let m = p.maze;
    let (a, b) = slot_ends(w.x as int, w.y as int);
    assert(waits(m, w));
    assert(sound(m, a.0, a.1));
    assert(sound(m, b.0, b.1));
    lemma_room_left(m, w);
    assert forall|i: int| 0 <= i < p.vwalls.len() implies m.kind(#[trigger] p.vwalls[i])
        == CellKind::WallKind && p.vwalls[i] != w by {
        assert(waits(m, p.vwalls[i]));
        assert(!listed(p.vwalls, w.x as int, w.y as int));
    }
    assert forall|i: int| 0 <= i < p.hwalls.len() implies m.kind(#[trigger] p.hwalls[i])
        == CellKind::WallKind && p.hwalls[i] != w by {
        assert(waits(m, p.hwalls[i]));
        assert(!listed(p.hwalls, w.x as int, w.y as int));
    }
}

/// How many cells a connection opens: the wall, and the room behind it if
/// there is one.
pub open spec fn gain(far: Option<Coord>) -> int {
    if far is Some {
        2
    } else {
        1
    }
}

/// How the state `f` after the wall `w` was opened relates to the state `p`
/// before.
pub open spec fn connect_shape(p: PrimView, w: Coord, d: i64, far: Option<Coord>, f: PrimView) -> bool {
    let m = p.maze;
    let reach = d + gain(far);
    &&& f.maze.shaped()
    &&& f.maze == (MazeView { grid: f.maze.grid, len: f.maze.len, end: f.maze.end, ..m })
    &&& f.maze.len == if m.len < reach {
        reach
    } else {
        m.len
    }
    &&& f.maze.end == if m.len < reach {
        match far {
            Some(c) => c,
            None => w,
        }
    } else {
        m.end
    }
    &&& forall|x: int, y: int| #[trigger]
        f.maze.at(x, y) == if x == w.x && y == w.y {
            CellKind::PathKind((d + 1) as i64)
        } else if far == Some(Coord { x: x as usize, y: y as usize }) && m.inside(x, y) {
            CellKind::PathKind((d + 2) as i64)
        } else if m.inside(x, y) && m.at(x, y) == CellKind::Undefined && (near(x, y, w) || (
        far matches Some(c) && near(x, y, c))) {
            CellKind::WallKind
        } else {
            m.at(x, y)
        }
    &&& forall|x: int, y: int| #[trigger]
        listed(f.vwalls, x, y) <==> listed(p.vwalls, x, y) || (far matches Some(c) && m.inside(x, y)
            && near(x, y, c) && m.at(x, y) == CellKind::Undefined && x % 2 == 0)
    &&& forall|x: int, y: int| #[trigger]
        listed(f.hwalls, x, y) <==> listed(p.hwalls, x, y) || (far matches Some(c) && m.inside(x, y)
            && near(x, y, c) && m.at(x, y) == CellKind::Undefined && x % 2 != 0)
    &&& distinct(f.vwalls)
    &&& distinct(f.hwalls)
    &&& f.maze.count(paths()) == m.count(paths()) + gain(far)
    &&& f.maze.count(open_rooms()) == m.count(open_rooms()) + gain(far) - 1
    &&& f.maze.count(open_slots()) == m.count(open_slots()) + 1
    &&& f.fuel() <= p.fuel()
}

/// How the state `t` after the position `c` was opened with `k` and taken
/// into the maze at `d` steps relates to the state `s` before.
pub open spec fn join_shape(s: PrimView, c: Coord, k: CellKind, d: int, t: PrimView) -> bool {
    let m = s.maze;
    &&& t.maze.shaped()
    &&& t.maze == (MazeView { grid: t.maze.grid, len: t.maze.len, end: t.maze.end, ..m })
    &&& t.maze.len == if m.len < d {
        d
    } else {
        m.len
    }
    &&& t.maze.end == if m.len < d {
        c
    } else {
        m.end
    }
    &&& forall|x: int, y: int| #[trigger]
        t.maze.at(x, y) == if x == c.x && y == c.y {
            k
        } else if m.inside(x, y) && m.at(x, y) == CellKind::Undefined && near(x, y, c) {
            CellKind::WallKind
        } else {
            m.at(x, y)
        }
    &&& forall|x: int, y: int| #[trigger]
        listed(t.vwalls, x, y) <==> listed(s.vwalls, x, y) || (m.inside(x, y) && near(x, y, c)
            && m.at(x, y) == CellKind::Undefined && x % 2 == 0)
    &&& forall|x: int, y: int| #[trigger]
        listed(t.hwalls, x, y) <==> listed(s.hwalls, x, y) || (m.inside(x, y) && near(x, y, c)
            && m.at(x, y) == CellKind::Undefined && x % 2 != 0 && y % 2 == 0)
    &&& distinct(t.vwalls)
    &&& distinct(t.hwalls)
    &&& all_decided(t.maze, t.vwalls)
    &&& all_decided(t.maze, t.hwalls)
}

/// What taking a position into the maze does to the grid and the lists, when
/// the position holds `k` already.
pub proof fn lemma_prim_joined(s: PrimView, c: Coord, k: CellKind, d: int)
    requires
        s.maze.shaped(),
        s.maze.holds(c),
        s.maze.kind(c) == k,
        0 <= d <= MAX_CELLS,
        distinct(s.vwalls),
        distinct(s.hwalls),
        all_decided(s.maze, s.vwalls),
        all_decided(s.maze, s.hwalls),
    ensures
        join_shape(s, c, k, d, s.joined(c, d)),
        s.joined(c, d).maze.count(paths()) == s.maze.count(paths()),
        s.joined(c, d).maze.count(open_rooms()) == s.maze.count(open_rooms()),
        s.joined(c, d).maze.count(open_slots()) == s.maze.count(open_slots()),
        s.joined(c, d).fuel() <= s.fuel(),
{
    lemma_prim_ringed(s, c);
    let r = s.ringed(c);
    let t = s.joined(c, d);
    assert(ring_shape(s, c, r));
    assert(t.fuel() == r.fuel());
    assert forall|x: int, y: int| #[trigger] t.maze.at(x, y) == r.maze.at(x, y) by {}
    assert forall|i: int| 0 <= i < t.vwalls.len() implies t.maze.kind(#[trigger] t.vwalls[i])
        != CellKind::Undefined by {
        let n = t.vwalls[i];
        assert(listed(t.vwalls, n.x as int, n.y as int));
        assert(t.maze.at(n.x as int, n.y as int) == r.maze.at(n.x as int, n.y as int));
        if listed(s.vwalls, n.x as int, n.y as int) {
            let j = choose|j: int|
                0 <= j < s.vwalls.len() && (#[trigger] s.vwalls[j]).x == n.x && s.vwalls[j].y == n.y;
            assert(s.maze.kind(s.vwalls[j]) != CellKind::Undefined);
        }
    }
    assert forall|i: int| 0 <= i < t.hwalls.len() implies t.maze.kind(#[trigger] t.hwalls[i])
        != CellKind::Undefined by {
        let n = t.hwalls[i];
        assert(listed(t.hwalls, n.x as int, n.y as int));
        assert(t.maze.at(n.x as int, n.y as int) == r.maze.at(n.x as int, n.y as int));
        if listed(s.hwalls, n.x as int, n.y as int) {
            let j = choose|j: int|
                0 <= j < s.hwalls.len() && (#[trigger] s.hwalls[j]).x == n.x && s.hwalls[j].y == n.y;
            assert(s.maze.kind(s.hwalls[j]) != CellKind::Undefined);
        }
    }
    assert(t.maze =~= (MazeView { grid: t.maze.grid, len: t.maze.len, end: t.maze.end, ..s.maze }));
}

/// The state with `k` written at `c`.
pub open spec fn with_put(s: PrimView, c: Coord, k: CellKind) -> PrimView {
    PrimView { maze: s.maze.put(c, k), ..s }
}

/// Opening a position that is in neither list leaves the lists as they are:
/// each once, and decided.
pub proof fn lemma_with_put(s: PrimView, c: Coord, k: CellKind)
    requires
        s.maze.shaped(),
        s.maze.holds(c),
        k != CellKind::Undefined,
        all_decided(s.maze, s.vwalls),
        all_decided(s.maze, s.hwalls),
    ensures
        with_put(s, c, k).maze.shaped(),
        all_decided(with_put(s, c, k).maze, s.vwalls),
        all_decided(with_put(s, c, k).maze, s.hwalls),
        forall|x: int, y: int| #[trigger]
            with_put(s, c, k).maze.at(x, y) == if x == c.x && y == c.y {
                k
            } else {
                s.maze.at(x, y)
            },
{
    lemma_put(s.maze, c, k);
    let t = with_put(s, c, k);
    assert forall|i: int| 0 <= i < s.vwalls.len() implies t.maze.kind(#[trigger] s.vwalls[i])
        != CellKind::Undefined by {
        assert(s.maze.kind(s.vwalls[i]) != CellKind::Undefined);
    }
    assert forall|i: int| 0 <= i < s.hwalls.len() implies t.maze.kind(#[trigger] s.hwalls[i])
        != CellKind::Undefined by {
        assert(s.maze.kind(s.hwalls[i]) != CellKind::Undefined);
    }
}

/// What opening a wall with a room behind it does to the grid, the lists and
/// the counts.
#[verifier::rlimit(50)]
pub proof fn lemma_connect_shape_far(p: PrimView, w: Coord, d: i64, c: Coord)
    requires
        connect_ready(p, w, d, Some(c)),
    ensures
        connect_shape(p, w, d, Some(c), p.connected(w, d, Some(c))),
{
    reveal(PrimView::connected);
    let m = p.maze;
    let far = Some(c);
    let f = p.connected(w, d, far);
    let k1 = CellKind::PathKind((d + 1) as i64);
    let k2 = CellKind::PathKind((d + 2) as i64);
    let s1 = with_put(p, w, k1);
    assert(all_decided(m, p.vwalls)) by {
        assert forall|i: int| 0 <= i < p.vwalls.len() implies m.kind(#[trigger] p.vwalls[i])
            != CellKind::Undefined by {}
    }
    assert(all_decided(m, p.hwalls)) by {
        assert forall|i: int| 0 <= i < p.hwalls.len() implies m.kind(#[trigger] p.hwalls[i])
            != CellKind::Undefined by {}
    }
    lemma_with_put(p, w, k1);
    lemma_count_put(m, w, k1, paths());
    lemma_count_put(m, w, k1, open_rooms());
    lemma_count_put(m, w, k1, open_slots());
    lemma_count_put(m, w, k1, blanks());
    assert(s1.maze.kind(c) == CellKind::Undefined);
    let s2 = with_put(s1, c, k2);
    lemma_with_put(s1, c, k2);
    lemma_count_put(s1.maze, c, k2, paths());
    lemma_count_put(s1.maze, c, k2, open_rooms());
    lemma_count_put(s1.maze, c, k2, open_slots());
    lemma_count_put(s1.maze, c, k2, blanks());
    lemma_prim_joined(s2, c, k2, d + 2);
    let s3 = s2.joined(c, d + 2);
    assert(join_shape(s2, c, k2, d + 2, s3));
    assert(s3.maze.at(w.x as int, w.y as int) == k1);
    lemma_prim_joined(s3, w, k1, d + 1);
    assert(f == s3.joined(w, d + 1));
    assert(join_shape(s3, w, k1, d + 1, f));
    lemma_connect_far_grid(p, w, d, c, s1, s2, s3, f);
    lemma_connect_far_lists(p, w, d, c, s1, s2, s3, f);
    assert(f.maze =~= (MazeView { grid: f.maze.grid, len: f.maze.len, end: f.maze.end, ..m }));
}

/// What opening a wall with a room behind it does to the grid.
proof fn lemma_connect_far_grid(
    p: PrimView,
    w: Coord,
    d: i64,
    c: Coord,
    s1: PrimView,
    s2: PrimView,
    s3: PrimView,
    f: PrimView,
)
    requires
        p.maze.shaped(),
        p.maze.holds(w),
        p.maze.holds(c),
        c != w,
        forall|x: int, y: int| #[trigger]
            s1.maze.at(x, y) == if x == w.x && y == w.y {
                CellKind::PathKind((d + 1) as i64)
            } else {
                p.maze.at(x, y)
            },
        forall|x: int, y: int| #[trigger]
            s2.maze.at(x, y) == if x == c.x && y == c.y {
                CellKind::PathKind((d + 2) as i64)
            } else {
                s1.maze.at(x, y)
            },
        s2.maze.shaped(),
        s2.maze.width == p.maze.width,
        s2.maze.height == p.maze.height,
        join_shape(s2, c, CellKind::PathKind((d + 2) as i64), d + 2, s3),
        join_shape(s3, w, CellKind::PathKind((d + 1) as i64), d + 1, f),
    ensures
        forall|x: int, y: int| #[trigger]
            f.maze.at(x, y) == if x == w.x && y == w.y {
                CellKind::PathKind((d + 1) as i64)
            } else if Some(c) == Some(Coord { x: x as usize, y: y as usize }) && p.maze.inside(x, y) {
                CellKind::PathKind((d + 2) as i64)
            } else if p.maze.inside(x, y) && p.maze.at(x, y) == CellKind::Undefined && (near(x, y, w)
                || near(x, y, c)) {
                CellKind::WallKind
            } else {
                p.maze.at(x, y)
            },
{
    assert forall|x: int, y: int| #[trigger]
        f.maze.at(x, y) == if x == w.x && y == w.y {
            CellKind::PathKind((d + 1) as i64)
        } else if Some(c) == Some(Coord { x: x as usize, y: y as usize }) && p.maze.inside(x, y) {
            CellKind::PathKind((d + 2) as i64)
        } else if p.maze.inside(x, y) && p.maze.at(x, y) == CellKind::Undefined && (near(x, y, w)
            || near(x, y, c)) {
            CellKind::WallKind
        } else {
            p.maze.at(x, y)
        } by {
        let a3 = s3.maze.at(x, y);
        let a2 = s2.maze.at(x, y);
        let a1 = s1.maze.at(x, y);
    }
}

/// What opening a wall with a room behind it does to the lists.
proof fn lemma_connect_far_lists(
    p: PrimView,
    w: Coord,
    d: i64,
    c: Coord,
    s1: PrimView,
    s2: PrimView,
    s3: PrimView,
    f: PrimView,
)
    requires
        connect_ready(p, w, d, Some(c)),
        s1.vwalls == p.vwalls,
        s1.hwalls == p.hwalls,
        s2.vwalls == p.vwalls,
        s2.hwalls == p.hwalls,
        forall|x: int, y: int| #[trigger]
            s1.maze.at(x, y) == if x == w.x && y == w.y {
                CellKind::PathKind((d + 1) as i64)
            } else {
                p.maze.at(x, y)
            },
        forall|x: int, y: int| #[trigger]
            s2.maze.at(x, y) == if x == c.x && y == c.y {
                CellKind::PathKind((d + 2) as i64)
            } else {
                s1.maze.at(x, y)
            },
        s2.maze.shaped(),
        s2.maze.width == p.maze.width,
        s2.maze.height == p.maze.height,
        join_shape(s2, c, CellKind::PathKind((d + 2) as i64), d + 2, s3),
        join_shape(s3, w, CellKind::PathKind((d + 1) as i64), d + 1, f),
    ensures
        forall|x: int, y: int| #[trigger]
            listed(f.vwalls, x, y) <==> listed(p.vwalls, x, y) || (p.maze.inside(x, y) && near(
                x,
                y,
                c,
            ) && p.maze.at(x, y) == CellKind::Undefined && x % 2 == 0),
        forall|x: int, y: int| #[trigger]
            listed(f.hwalls, x, y) <==> listed(p.hwalls, x, y) || (p.maze.inside(x, y) && near(
                x,
                y,
                c,
            ) && p.maze.at(x, y) == CellKind::Undefined && x % 2 != 0),
{
    let m = p.maze;
    assert forall|x: int, y: int| #[trigger]
        listed(f.vwalls, x, y) <==> listed(p.vwalls, x, y) || (m.inside(x, y) && near(x, y, c)
            && m.at(x, y) == CellKind::Undefined && x % 2 == 0) by {
        assert(listed(s3.vwalls, x, y) <==> listed(s2.vwalls, x, y) || (s2.maze.inside(x, y)
            && near(x, y, c) && s2.maze.at(x, y) == CellKind::Undefined && x % 2 == 0));
        let a3 = s3.maze.at(x, y);
        let a1 = s1.maze.at(x, y);
    }
    assert forall|x: int, y: int| #[trigger]
        listed(f.hwalls, x, y) <==> listed(p.hwalls, x, y) || (m.inside(x, y) && near(x, y, c)
            && m.at(x, y) == CellKind::Undefined && x % 2 != 0) by {
        assert(listed(s3.hwalls, x, y) <==> listed(s2.hwalls, x, y) || (s2.maze.inside(x, y)
            && near(x, y, c) && s2.maze.at(x, y) == CellKind::Undefined && x % 2 != 0 && y % 2
            == 0));
        let a3 = s3.maze.at(x, y);
        let a1 = s1.maze.at(x, y);
    }
}

/// What opening a wall at the edge of the grid does to the grid, the lists
/// and the counts.
pub proof fn lemma_connect_shape_edge(p: PrimView, w: Coord, d: i64)
    requires
        connect_ready(p, w, d, None),
    ensures
        connect_shape(p, w, d, None, p.connected(w, d, None)),
{
    reveal(PrimView::connected);
    let m = p.maze;
    let f = p.connected(w, d, None);
    let k1 = CellKind::PathKind((d + 1) as i64);
    let s1 = with_put(p, w, k1);
    assert(all_decided(m, p.vwalls)) by {
        assert forall|i: int| 0 <= i < p.vwalls.len() implies m.kind(#[trigger] p.vwalls[i])
            != CellKind::Undefined by {}
    }
    assert(all_decided(m, p.hwalls)) by {
        assert forall|i: int| 0 <= i < p.hwalls.len() implies m.kind(#[trigger] p.hwalls[i])
            != CellKind::Undefined by {}
    }
    lemma_with_put(p, w, k1);
    lemma_count_put(m, w, k1, paths());
    lemma_count_put(m, w, k1, open_rooms());
    lemma_count_put(m, w, k1, open_slots());
    lemma_count_put(m, w, k1, blanks());
    lemma_prim_joined(s1, w, k1, d + 1);
    assert(f == s1.joined(w, d + 1));
    assert(join_shape(s1, w, k1, d + 1, f));
    assert forall|x: int, y: int| #[trigger]
        f.maze.at(x, y) == if x == w.x && y == w.y {
            k1
        } else if m.inside(x, y) && m.at(x, y) == CellKind::Undefined && near(x, y, w) {
            CellKind::WallKind
        } else {
            m.at(x, y)
        } by {
        let a1 = s1.maze.at(x, y);
    }
    assert forall|x: int, y: int| #[trigger] listed(f.vwalls, x, y) <==> listed(p.vwalls, x, y) by {
        let a1 = s1.maze.at(x, y);
    }
    assert forall|x: int, y: int| #[trigger] listed(f.hwalls, x, y) <==> listed(p.hwalls, x, y) by {
        let a1 = s1.maze.at(x, y);
    }
    assert(f.maze =~= (MazeView { grid: f.maze.grid, len: f.maze.len, end: f.maze.end, ..m }));
}

/// Whether `f` is the state after the wall `w` of `p` was opened.
pub open spec fn connects(p: PrimView, w: Coord, d: i64, far: Option<Coord>, f: PrimView) -> bool {
    can_connect(p, w, d, far) && connect_ready(p, w, d, far) && connect_shape(p, w, d, far, f)
}

/// After a wall was opened, the walls in the lists are walls that wait.
proof fn lemma_connected_queue(p: PrimView, w: Coord, d: i64, far: Option<Coord>, f: PrimView)
    requires
        connects(p, w, d, far, f),
    ensures
        f.queued_right(),
{
    let m = p.maze;
    assert forall|i: int| 0 <= i < f.vwalls.len() implies waits(f.maze, #[trigger] f.vwalls[i])
        && f.vwalls[i].x % 2 == 0 by {
        let n = f.vwalls[i];
        let (a, b) = slot_ends(n.x as int, n.y as int);
        assert(listed(f.vwalls, n.x as int, n.y as int));
        if listed(p.vwalls, n.x as int, n.y as int) {
            let j = choose|j: int|
                0 <= j < p.vwalls.len() && (#[trigger] p.vwalls[j]).x == n.x && p.vwalls[j].y == n.y;
            assert(waits(m, p.vwalls[j]));
            assert(p.vwalls[j] == n);
            assert(f.maze.at(a.0, a.1) == m.at(a.0, a.1) || !is_path(m.at(a.0, a.1)));
            assert(f.maze.at(b.0, b.1) == m.at(b.0, b.1) || !is_path(m.at(b.0, b.1)));
        } else {
            let c = far->0;
            assert(f.maze.at(c.x as int, c.y as int) == CellKind::PathKind((d + 2) as i64));
        }
    }
    assert forall|i: int| 0 <= i < f.hwalls.len() implies waits(f.maze, #[trigger] f.hwalls[i])
        && f.hwalls[i].x % 2 != 0 by {
        let n = f.hwalls[i];
        let (a, b) = slot_ends(n.x as int, n.y as int);
        assert(listed(f.hwalls, n.x as int, n.y as int));
        if listed(p.hwalls, n.x as int, n.y as int) {
            let j = choose|j: int|
                0 <= j < p.hwalls.len() && (#[trigger] p.hwalls[j]).x == n.x && p.hwalls[j].y == n.y;
            assert(waits(m, p.hwalls[j]));
            assert(p.hwalls[j] == n);
            assert(f.maze.at(a.0, a.1) == m.at(a.0, a.1) || !is_path(m.at(a.0, a.1)));
            assert(f.maze.at(b.0, b.1) == m.at(b.0, b.1) || !is_path(m.at(b.0, b.1)));
        } else {
            let c = far->0;
            assert(f.maze.at(c.x as int, c.y as int) == CellKind::PathKind((d + 2) as i64));
        }
    }
}

/// After a wall was opened, every position holds what it may, and around
/// every open room everything is decided.
proof fn lemma_connected_sound(p: PrimView, w: Coord, d: i64, far: Option<Coord>, f: PrimView)
    requires
        connects(p, w, d, far, f),
    ensures
        forall|x: int, y: int| #[trigger] sound(f.maze, x, y),
        forall|x: int, y: int| #[trigger] fenced_room(f.maze, x, y),
{
    let m = p.maze;
    let (a, b) = slot_ends(w.x as int, w.y as int);
    assert(sound(m, a.0, a.1));
    assert(sound(m, b.0, b.1));
    assert(sound(m, m.origin.x as int, m.origin.y as int));
    assert forall|x: int, y: int| #[trigger] sound(f.maze, x, y) by {
        assert(sound(m, x, y));
        let k = f.maze.at(x, y);
    }
    assert forall|x: int, y: int| #[trigger] fenced_room(f.maze, x, y) by {
        assert(fenced_room(m, x, y));
        let k = f.maze.at(x, y);
        let k1 = f.maze.at(x - 1, y);
        let k2 = f.maze.at(x + 1, y);
        let k3 = f.maze.at(x, y - 1);
        let k4 = f.maze.at(x, y + 1);
    }
}

/// After a wall was opened, every slot is settled.
proof fn lemma_connected_slots(p: PrimView, w: Coord, d: i64, far: Option<Coord>, f: PrimView)
    requires
        connects(p, w, d, far, f),
    ensures
        forall|x: int, y: int| #[trigger] settled_slot(f, x, y),
{
    let m = p.maze;
    assert forall|x: int, y: int| #[trigger] settled_slot(f, x, y) by {
        let (a, b) = slot_ends(x, y);
        let k = f.maze.at(x, y);
        let ka = f.maze.at(a.0, a.1);
        let kb = f.maze.at(b.0, b.1);
        if f.maze.inside(x, y) && is_slot(x, y) {
            if x == w.x && y == w.y {
            } else {
                assert(Some(w) != Some(Coord { x: x as usize, y: y as usize }));
                assert(settled_slot(p, x, y));
                assert(listed(p.vwalls, x, y) ==> listed(f.vwalls, x, y));
                assert(listed(p.hwalls, x, y) ==> listed(f.hwalls, x, y));
                if m.at(x, y) == CellKind::Undefined && k == CellKind::WallKind {
                    assert(listed(f.vwalls, x, y) || listed(f.hwalls, x, y));
                }
            }
        }
    }
}

/// After a wall was opened, every open cell away from the origin has a
/// neighbour one step nearer to it.
proof fn lemma_connected_parents(p: PrimView, w: Coord, d: i64, far: Option<Coord>, f: PrimView)
    requires
        connects(p, w, d, far, f),
    ensures
        forall|x: int, y: int| #[trigger] parented(f.maze, x, y),
{
    let m = p.maze;
    assert forall|x: int, y: int| #[trigger] parented(f.maze, x, y) by {
        assert(parented(m, x, y));
        let k = f.maze.at(x, y);
        let k1 = f.maze.at(x - 1, y);
        let k2 = f.maze.at(x + 1, y);
        let k3 = f.maze.at(x, y - 1);
        let k4 = f.maze.at(x, y + 1);
        if x == w.x && y == w.y {
        } else if far == Some(Coord { x: x as usize, y: y as usize }) && m.inside(x, y) {
            assert(f.maze.at(w.x as int, w.y as int) == CellKind::PathKind((d + 1) as i64));
        } else {
        }
    }
}

/// After a wall was opened, the counts of open cells and the end are as the
/// invariant has them.
proof fn lemma_connected_counts(p: PrimView, w: Coord, d: i64, far: Option<Coord>, f: PrimView)
    requires
        connects(p, w, d, far, f),
    ensures
        f.maze.kind(f.maze.origin) == CellKind::PathKind(0),
        f.maze.len + 1 <= f.maze.count(paths()),
        f.maze.count(open_rooms()) <= f.maze.count(open_slots()) + 1,
        f.maze.width % 2 == 1 && f.maze.height % 2 == 1 ==> f.maze.count(open_rooms())
            == f.maze.count(open_slots()) + 1,
        f.maze.len > 0,
        f.maze.kind(f.maze.end) == CellKind::PathKind(f.maze.len as i64),
{
    let m = p.maze;
    let (a, b) = slot_ends(w.x as int, w.y as int);
    assert(sound(m, a.0, a.1));
    assert(sound(m, b.0, b.1));
    let ko = f.maze.at(m.origin.x as int, m.origin.y as int);
    let ke = f.maze.at(m.end.x as int, m.end.y as int);
    let kw = f.maze.at(w.x as int, w.y as int);
    if far is Some {
        let c = far->0;
        let kc = f.maze.at(c.x as int, c.y as int);
    }
}

/// Opening a wall between a room of the maze and what lies behind it restores
/// the invariant, and does not raise the fuel.
pub proof fn lemma_prim_connected(p: PrimView, w: Coord, d: i64, far: Option<Coord>)
    requires
        can_connect(p, w, d, far),
    ensures
        p.connected(w, d, far).inv(),
        p.connected(w, d, far).fuel() <= p.fuel(),
        p.maze.same_frame(p.connected(w, d, far).maze),
        p.connected(w, d, far).maze.scale == p.maze.scale,
        settled(p.maze, p.connected(w, d, far).maze),
        counts_kept(p.maze, p.connected(w, d, far).maze),
        0 <= d,
        d + 2 <= MAX_CELLS,
{
    let f = p.connected(w, d, far);
    lemma_can_connect(p, w, d, far);
    match far {
        Some(c) => {
            lemma_connect_shape_far(p, w, d, c);
        },
        None => {
            lemma_connect_shape_edge(p, w, d);
        },
    }
    lemma_connected_queue(p, w, d, far, f);
    lemma_connected_sound(p, w, d, far, f);
    lemma_connected_slots(p, w, d, far, f);
    lemma_connected_parents(p, w, d, far, f);
    lemma_connected_counts(p, w, d, far, f);
    assert forall|x: int, y: int|
        #![trigger settled_slot(f, x, y)]
        None::<Coord> == Some(Coord { x: x as usize, y: y as usize }) || settled_slot(f, x, y) by {
        assert(settled_slot(f, x, y));
    }
}

/// A wall between two rooms of the maze stays closed, and the invariant holds
/// again.
pub proof fn lemma_prim_skipped(p: PrimView, w: Coord)
    requires
        p.inv_but(Some(w)),
        ({
            let (a, b) = slot_ends(w.x as int, w.y as int);
            is_path(p.maze.at(a.0, a.1)) && is_path(p.maze.at(b.0, b.1))
        }),
    ensures
        p.inv(),
{
    assert forall|x: int, y: int|
        #![trigger settled_slot(p, x, y)]
        None::<Coord> == Some(Coord { x: x as usize, y: y as usize }) || settled_slot(p, x, y) by {
        if x == w.x && y == w.y {
        } else {
            assert(Some(w) != Some(Coord { x: x as usize, y: y as usize }) || !p.maze.inside(x, y));
        }
    }
}

/// Trying a wall restores the invariant, whichever of its sides is looked at
/// first.
proof fn lemma_prim_tried_ordered(p: PrimView, w: Coord, e1: (int, int), e2: (int, int))
    requires
        p.inv_but(Some(w)),
        (e1, e2) == slot_ends(w.x as int, w.y as int) || (e2, e1) == slot_ends(
            w.x as int,
            w.y as int,
        ),
    ensures
        p.tried(w, toward(p.maze, e1), toward(p.maze, e2)).inv(),
        p.tried(w, toward(p.maze, e1), toward(p.maze, e2)).fuel() <= p.fuel(),
        p.maze.same_frame(p.tried(w, toward(p.maze, e1), toward(p.maze, e2)).maze),
        p.tried(w, toward(p.maze, e1), toward(p.maze, e2)).maze.scale == p.maze.scale,
        settled(p.maze, p.tried(w, toward(p.maze, e1), toward(p.maze, e2)).maze),
        counts_kept(p.maze, p.tried(w, toward(p.maze, e1), toward(p.maze, e2)).maze),
{
    let m = p.maze;
    assert(waits(m, w));
    assert(sound(m, e1.0, e1.1));
    assert(sound(m, e2.0, e2.1));
    let o1 = toward(m, e1);
    let o2 = toward(m, e2);
    let k1 = m.at(e1.0, e1.1);
    let k2 = m.at(e2.0, e2.1);
    if is_path(k1) && is_path(k2) {
        lemma_prim_skipped(p, w);
    } else if is_path(k1) {
        let d = k1->PathKind_0;
        assert(behind(m, e2, o2));
        assert(can_connect(p, w, d, o2));
        lemma_prim_connected(p, w, d, o2);
    } else {
        assert(is_path(k2));
        let d = k2->PathKind_0;
        assert(behind(m, e1, o1));
        assert(can_connect(p, w, d, o1));
        lemma_prim_connected(p, w, d, o1);
    }
}

/// Trying a wall that was taken out of the lists restores the invariant, and
/// does not raise the fuel.
pub proof fn lemma_prim_opened(p: PrimView, w: Coord, turn: u64, coin: u8)
    requires
        p.inv_but(Some(w)),
    ensures
        p.opened(w, turn, coin).inv(),
        p.opened(w, turn, coin).fuel() <= p.fuel(),
        p.maze.same_frame(p.opened(w, turn, coin).maze),
        p.opened(w, turn, coin).maze.scale == p.maze.scale,
        settled(p.maze, p.opened(w, turn, coin).maze),
        counts_kept(p.maze, p.opened(w, turn, coin).maze),
{
    let m = p.maze;
    let (a, b) = slot_ends(w.x as int, w.y as int);
    assert(waits(m, w));
    let dir = spec_wall_direction(w, turn, coin, m.bias)->0;
    let o1 = m.step(w, dir);
    let o2 = m.step(w, dir.reversed());
    if (o1, o2) == (toward(m, a), toward(m, b)) {
        lemma_prim_tried_ordered(p, w, a, b);
    } else {
        assert((o1, o2) == (toward(m, b), toward(m, a)));
        lemma_prim_tried_ordered(p, w, b, a);
    }
}

/// Generation starts in a state that has the invariant.
pub proof fn lemma_prim_start(m: MazeView)
    requires
        m.shaped(),
        m.pristine(),
    ensures
        PrimView::start(m).inv(),
{
    let o = m.origin;
    let k = CellKind::PathKind(0);
    let s0 = PrimView { maze: m.put(o, k), vwalls: Seq::empty(), hwalls: Seq::empty() };
    let r = PrimView::start(m);
    lemma_put(m, o, k);
    assert forall|x: int, y: int| m.inside(x, y) implies !#[trigger] paths()(x, y, m.at(x, y)) by {}
    assert forall|x: int, y: int| m.inside(x, y) implies !#[trigger] open_rooms()(x, y, m.at(x, y)) by {}
    assert forall|x: int, y: int| m.inside(x, y) implies !#[trigger] open_slots()(x, y, m.at(x, y)) by {}
    lemma_count_zero(m, paths());
    lemma_count_zero(m, open_rooms());
    lemma_count_zero(m, open_slots());
    lemma_count_put(m, o, k, paths());
    lemma_count_put(m, o, k, open_rooms());
    lemma_count_put(m, o, k, open_slots());
    lemma_prim_ringed(s0, o);
    assert(ring_shape(s0, o, r));
    assert(r.maze.len == 0);
    assert forall|x: int, y: int| #[trigger]
        r.maze.at(x, y) == if x == o.x && y == o.y {
            k
        } else if m.inside(x, y) && near(x, y, o) {
            CellKind::WallKind
        } else {
            CellKind::Undefined
        } by {
        let a0 = s0.maze.at(x, y);
        let a = m.at(x, y);
    }
    assert forall|i: int| 0 <= i < r.vwalls.len() implies waits(r.maze, #[trigger] r.vwalls[i])
        && r.vwalls[i].x % 2 == 0 by {
        let n = r.vwalls[i];
        assert(listed(r.vwalls, n.x as int, n.y as int));
        assert(r.maze.at(o.x as int, o.y as int) == k);
    }
    assert forall|i: int| 0 <= i < r.hwalls.len() implies waits(r.maze, #[trigger] r.hwalls[i])
        && r.hwalls[i].x % 2 != 0 by {
        let n = r.hwalls[i];
        assert(listed(r.hwalls, n.x as int, n.y as int));
        assert(r.maze.at(o.x as int, o.y as int) == k);
    }
    assert forall|x: int, y: int| #[trigger] sound(r.maze, x, y) by {
        let a = r.maze.at(x, y);
    }
    assert forall|x: int, y: int| #[trigger] fenced_room(r.maze, x, y) by {
        let a = r.maze.at(x, y);
        let k1 = r.maze.at(x - 1, y);
        let k2 = r.maze.at(x + 1, y);
        let k3 = r.maze.at(x, y - 1);
        let k4 = r.maze.at(x, y + 1);
    }
    assert forall|x: int, y: int|
        #![trigger settled_slot(r, x, y)]
        None::<Coord> == Some(Coord { x: x as usize, y: y as usize }) || settled_slot(r, x, y) by {
        let a = r.maze.at(x, y);
        let a0 = s0.maze.at(x, y);
        if r.maze.inside(x, y) && is_slot(x, y) && a == CellKind::WallKind {
            assert(listed(r.vwalls, x, y) || listed(r.hwalls, x, y));
        }
    }
    assert forall|x: int, y: int| #[trigger] parented(r.maze, x, y) by {
        let a = r.maze.at(x, y);
    }
    assert(r.maze.kind(o) == k);
}

/// The last step keeps the invariant: closing corners disturbs nothing.
pub proof fn lemma_prim_sealed(p: PrimView)
    requires
        p.inv(),
    ensures
        p.finished().inv(),
        p.finished().maze.shaped(),
{
    let m = p.maze;
    let f = p.finished();
    assert forall|x: int, y: int| #[trigger]
        f.maze.at(x, y) == if m.inside(x, y) && m.at(x, y) == CellKind::Undefined && is_corner(x, y) {
            CellKind::WallKind
        } else {
            m.at(x, y)
        } by {
        assert(m.grid.dom().contains((x, y)) <==> m.inside(x, y));
    }
    assert forall|x: int, y: int| #[trigger]
        f.maze.grid.dom().contains((x, y)) <==> f.maze.inside(x, y) by {}
    assert(f.maze.shaped());
    assert forall|x: int, y: int| m.inside(x, y) implies #[trigger] paths()(x, y, m.at(x, y))
        == paths()(x, y, f.maze.at(x, y)) by {}
    assert forall|x: int, y: int| m.inside(x, y) implies #[trigger] open_rooms()(x, y, m.at(x, y))
        == open_rooms()(x, y, f.maze.at(x, y)) by {}
    assert forall|x: int, y: int| m.inside(x, y) implies #[trigger] open_slots()(x, y, m.at(x, y))
        == open_slots()(x, y, f.maze.at(x, y)) by {}
    lemma_count_agree(m, f.maze, paths(), paths());
    lemma_count_agree(m, f.maze, open_rooms(), open_rooms());
    lemma_count_agree(m, f.maze, open_slots(), open_slots());
    assert forall|i: int| 0 <= i < f.vwalls.len() implies waits(f.maze, #[trigger] f.vwalls[i])
        && f.vwalls[i].x % 2 == 0 by {
        let n = f.vwalls[i];
        let (a, b) = slot_ends(n.x as int, n.y as int);
        assert(waits(m, p.vwalls[i]));
        let ka = f.maze.at(a.0, a.1);
        let kb = f.maze.at(b.0, b.1);
    }
    assert forall|i: int| 0 <= i < f.hwalls.len() implies waits(f.maze, #[trigger] f.hwalls[i])
        && f.hwalls[i].x % 2 != 0 by {
        let n = f.hwalls[i];
        let (a, b) = slot_ends(n.x as int, n.y as int);
        assert(waits(m, p.hwalls[i]));
        let ka = f.maze.at(a.0, a.1);
        let kb = f.maze.at(b.0, b.1);
    }
    assert forall|x: int, y: int| #[trigger] sound(f.maze, x, y) by {
        assert(sound(m, x, y));
        let a = f.maze.at(x, y);
    }
    assert forall|x: int, y: int| #[trigger] fenced_room(f.maze, x, y) by {
        assert(fenced_room(m, x, y));
        let a = f.maze.at(x, y);
        let k1 = f.maze.at(x - 1, y);
        let k2 = f.maze.at(x + 1, y);
        let k3 = f.maze.at(x, y - 1);
        let k4 = f.maze.at(x, y + 1);
    }
    assert forall|x: int, y: int|
        #![trigger settled_slot(f, x, y)]
        None::<Coord> == Some(Coord { x: x as usize, y: y as usize }) || settled_slot(f, x, y) by {
        assert(settled_slot(p, x, y));
        let (a, b) = slot_ends(x, y);
        let k = f.maze.at(x, y);
        let ka = f.maze.at(a.0, a.1);
        let kb = f.maze.at(b.0, b.1);
    }
    assert forall|x: int, y: int| #[trigger] parented(f.maze, x, y) by {
        assert(parented(m, x, y));
        let a = f.maze.at(x, y);
        let k1 = f.maze.at(x - 1, y);
        let k2 = f.maze.at(x + 1, y);
        let k3 = f.maze.at(x, y - 1);
        let k4 = f.maze.at(x, y + 1);
    }
    let ko = f.maze.at(m.origin.x as int, m.origin.y as int);
    let ke = f.maze.at(m.end.x as int, m.end.y as int);
}

/// When no wall waits, the room behind a slot next to an open room is open.
proof fn lemma_closure(p: PrimView, a: (int, int), s: (int, int), b: (int, int))
    requires
        p.inv(),
        p.done(),
        p.maze.inside(a.0, a.1),
        p.maze.inside(b.0, b.1),
        is_room(a.0, a.1),
        is_path(p.maze.at(a.0, a.1)),
        (a, b) == slot_ends(s.0, s.1) || (b, a) == slot_ends(s.0, s.1),
        is_slot(s.0, s.1),
    ensures
        is_path(p.maze.at(b.0, b.1)),
{
    assert(fenced_room(p.maze, a.0, a.1));
    assert(settled_slot(p, s.0, s.1));
    assert(p.maze.inside(s.0, s.1));
    if listed(p.vwalls, s.0, s.1) {
        let i = choose|i: int| 0 <= i < p.vwalls.len() && (#[trigger] p.vwalls[i]).x == s.0;
    }
    if listed(p.hwalls, s.0, s.1) {
        let i = choose|i: int| 0 <= i < p.hwalls.len() && (#[trigger] p.hwalls[i]).x == s.0;
    }
}

/// When no wall waits, every room in the row of the origin is open.
proof fn lemma_prim_row(p: PrimView, x: int)
    requires
        p.inv(),
        p.done(),
        0 <= x < p.maze.width,
        x % 2 == 0,
    ensures
        is_path(p.maze.at(x, p.maze.origin.y as int)),
    decreases
        if x < p.maze.origin.x {
            p.maze.origin.x - x
        } else {
            x - p.maze.origin.x
        },
{
    let ox = p.maze.origin.x as int;
    let oy = p.maze.origin.y as int;
    if x < ox {
        lemma_prim_row(p, x + 2);
        lemma_closure(p, (x + 2, oy), (x + 1, oy), (x, oy));
    } else if x > ox {
        lemma_prim_row(p, x - 2);
        lemma_closure(p, (x - 2, oy), (x - 1, oy), (x, oy));
    }
}

/// When no wall waits, every room is part of the maze.
pub proof fn lemma_prim_rooms(p: PrimView, x: int, y: int)
    requires
        p.inv(),
        p.done(),
        p.maze.inside(x, y),
        is_room(x, y),
    ensures
        is_path(p.maze.at(x, y)),
    decreases
        if y < p.maze.origin.y {
            p.maze.origin.y - y
        } else {
            y - p.maze.origin.y
        },
{
    let oy = p.maze.origin.y as int;
    if y < oy {
        lemma_prim_rooms(p, x, y + 2);
        lemma_closure(p, (x, y + 2), (x, y + 1), (x, y));
    } else if y > oy {
        lemma_prim_rooms(p, x, y - 2);
        lemma_closure(p, (x, y - 2), (x, y - 1), (x, y));
    } else {
        lemma_prim_row(p, x);
    }
}

/// The invariant roots every open cell: its count of steps is one more than a
/// neighbour's, down to the origin.
pub proof fn lemma_prim_rooted(p: PrimView)
    requires
        p.inv(),
    ensures
        all_rooted(p.maze),
{
    assert forall|x: int, y: int| #[trigger] rooted(p.maze, x, y) by {
        assert(sound(p.maze, x, y));
        assert(parented(p.maze, x, y));
    }
}

/// When no wall waits and the longest path has no step, the grid is a single
/// cell.
proof fn lemma_prim_single(p: PrimView)
    requires
        p.inv(),
        p.done(),
        p.maze.len == 0,
    ensures
        p.maze.width == 1,
        p.maze.height == 1,
{
    let m = p.maze;
    let ox = m.origin.x as int;
    let oy = m.origin.y as int;
    assert(fenced_room(m, ox, oy));
    if m.width > 1 {
        let sx = if ox + 1 < m.width {
            ox + 1
        } else {
            ox - 1
        };
        let (a, b) = slot_ends(sx, oy);
        assert(settled_slot(p, sx, oy));
        assert(sound(m, sx, oy));
        assert(sound(m, a.0, a.1));
        assert(sound(m, b.0, b.1));
        if listed(p.vwalls, sx, oy) {
            let i = choose|i: int| 0 <= i < p.vwalls.len() && (#[trigger] p.vwalls[i]).x == sx;
        }
        if listed(p.hwalls, sx, oy) {
            let i = choose|i: int| 0 <= i < p.hwalls.len() && (#[trigger] p.hwalls[i]).x == sx;
        }
        assert(false);
    }
    if m.height > 1 {
        let sy = if oy + 1 < m.height {
            oy + 1
        } else {
            oy - 1
        };
        let (a, b) = slot_ends(ox, sy);
        assert(settled_slot(p, ox, sy));
        assert(sound(m, ox, sy));
        assert(sound(m, a.0, a.1));
        assert(sound(m, b.0, b.1));
        if listed(p.vwalls, ox, sy) {
            let i = choose|i: int| 0 <= i < p.vwalls.len() && (#[trigger] p.vwalls[i]).x == ox;
        }
        if listed(p.hwalls, ox, sy) {
            let i = choose|i: int| 0 <= i < p.hwalls.len() && (#[trigger] p.hwalls[i]).x == ox;
        }
        assert(false);
    }
}

/// What Prim's algorithm leaves when no wall waits and the last step is made.
///
/// Nothing on the grid is undecided; every room is open; a walk leads from the
/// origin, which stands at 0 steps, to every open cell; the end holds the
/// greatest count of steps, which is the maze's length; and the counts are to
/// be read as shares of that length. On a grid of odd width and height the
/// open rooms are one more than the open slots, so that no walk goes round in
/// a circle.
pub proof fn lemma_prim_finished(p: PrimView)
    requires
        p.inv(),
        p.done(),
    ensures
        resolved(p.finished().maze),
        forall|x: int, y: int|
            p.maze.inside(x, y) && is_room(x, y) ==> is_path(#[trigger] p.finished().maze.at(x, y)),
        connected(p.finished().maze),
        p.finished().maze.kind(p.maze.origin) == CellKind::PathKind(0),
        peaked(p.finished().maze),
        p.finished().maze.scale == Scale::Length,
        p.maze.width % 2 == 1 && p.maze.height % 2 == 1 ==> p.finished().maze.count(open_rooms())
            == p.finished().maze.count(open_slots()) + 1,
{
    let m = p.maze;
    let f = p.finished();
    lemma_prim_sealed(p);
    lemma_prim_rooted(f);
    lemma_rooted_connected(f.maze);
    assert forall|x: int, y: int| #[trigger]
        f.maze.at(x, y) == if m.inside(x, y) && m.at(x, y) == CellKind::Undefined && is_corner(x, y) {
            CellKind::WallKind
        } else {
            m.at(x, y)
        } by {
        assert(m.grid.dom().contains((x, y)) <==> m.inside(x, y));
    }
    assert forall|x: int, y: int| m.inside(x, y) && is_room(x, y) implies is_path(
        #[trigger] f.maze.at(x, y),
    ) by {
        lemma_prim_rooms(p, x, y);
    }
    assert forall|x: int, y: int| m.inside(x, y) implies #[trigger] f.maze.at(x, y)
        != CellKind::Undefined by {
        if is_room(x, y) {
            lemma_prim_rooms(p, x, y);
        } else if is_slot(x, y) {
            if x % 2 == 0 {
                lemma_prim_rooms(p, x, y - 1);
                assert(fenced_room(m, x, y - 1));
            } else {
                lemma_prim_rooms(p, x - 1, y);
                assert(fenced_room(m, x - 1, y));
            }
        } else {
        }
    }
    assert forall|x: int, y: int|
        #![trigger f.maze.at(x, y)]
        is_path(f.maze.at(x, y)) implies f.maze.at(x, y)->PathKind_0 <= f.maze.len by {
        assert(sound(f.maze, x, y));
    }
    if m.len == 0 {
        lemma_prim_single(p);
    }
}

/// A step of Prim's algorithm undoes nothing: what was decided stays decided,
/// and every open cell keeps its count of steps. The invariant holds after
/// the step, and the fuel is lower.
pub proof fn lemma_prim_step(p: PrimView, draws: Draws)
    requires
        p.inv(),
        !p.done(),
    ensures
        p.stepped(draws).inv(),
        p.stepped(draws).fuel() < p.fuel(),
        settled(p.maze, p.stepped(draws).maze),
        counts_kept(p.maze, p.stepped(draws).maze),
        p.maze.same_frame(p.stepped(draws).maze),
{
    lemma_prim_took(p, draws.pick, draws.side);
    let (w, q) = p.took(draws.pick, draws.side);
    lemma_prim_opened(q, w, draws.turn, draws.coin);
}

} // verus!
